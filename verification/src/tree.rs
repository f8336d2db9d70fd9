//! The traversal-and-render engine: a depth-first, pre-order walk of
//! a directory snapshot that filters each level through the pipeline,
//! renders one line per surviving entry with tree connectors, and
//! accumulates running totals. The summary-only scan shares the same
//! walk but emits no lines.

use vstd::prelude::*;
use vstd::string::*;
use crate::cli::Args;
use crate::entry::{
    height, height_list, lemma_height_list_elem, lemma_height_list_ub, DirectoryEntry, EntryKind,
};
use crate::filter::{
    filter_entries, lemma_filter_contains, lemma_sort_contains, sort_by_path, visible_children,
};
use crate::pattern::{matcher_for, Matcher};
use crate::size_format::{get_entry_size, size_string};

verus! {

/// One step of the walk: a surviving entry, the line prefix in force
/// at its level, and whether it is the last of its siblings.
pub struct TraversalEvent {
    pub entry: DirectoryEntry,
    pub prefix: Seq<char>,
    pub is_last: bool,
}

/// The connector drawn directly before an entry's name.
pub open spec fn connector(is_last: bool) -> Seq<char> {
    if is_last {
        "└── "@
    } else {
        "├── "@
    }
}

/// The fragment an entry contributes to the prefix of its own
/// children.
pub open spec fn child_prefix(is_last: bool) -> Seq<char> {
    if is_last {
        "    "@
    } else {
        "│   "@
    }
}

/// The rendered line of one event: prefix, connector and name, and
/// for a file under `size` the human-readable size in parentheses.
pub open spec fn line_of(ev: TraversalEvent, opts: Args) -> Seq<char> {
    let base = ev.prefix + connector(ev.is_last) + ev.entry.name@;
    if opts.size && ev.entry.kind is File {
        base + " ("@ + size_string(ev.entry.size) + ")"@
    } else {
        base
    }
}

/// Everything below the visible children of a directory is at most as
/// high as the children of the directory itself.
pub proof fn lemma_visible_height(e: DirectoryEntry, opts: Args)
    ensures
        height_list(visible_children(e, opts)) < height(e),
{
    let vis = visible_children(e, opts);
    assert forall|i: int| 0 <= i < vis.len() implies height(#[trigger] vis[i]) <= height_list(
        e.children@,
    ) by {
        assert(vis.contains(vis[i]));
        lemma_filter_contains(sort_by_path(e.children@), opts, vis[i]);
        lemma_sort_contains(e.children@, vis[i]);
        let j = choose|j: int| 0 <= j < e.children@.len() && e.children@[j] == vis[i];
        lemma_height_list_elem(e.children@, j);
    }
    lemma_height_list_ub(vis, height_list(e.children@));
}

/// The events of the walk below `e`, in depth-first pre-order: for a
/// directory, the events of its visible children in order; for a
/// file, nothing. The entry `e` itself produces no event — its own
/// line belongs to its parent's level.
pub open spec fn events_of(e: DirectoryEntry, prefix: Seq<char>, opts: Args) -> Seq<TraversalEvent>
    decreases height(e), 0nat, 0nat,
{
    if e.kind is Directory {
        proof {
            lemma_visible_height(e, opts);
        }
        events_of_list(visible_children(e, opts), 0, prefix, opts)
    } else {
        Seq::empty()
    }
}

/// The events of the suffix of a sibling list from position `i` on:
/// each sibling's own event, then the events of its subtree under the
/// extended prefix, then the rest.
pub open spec fn events_of_list(
    kids: Seq<DirectoryEntry>,
    i: int,
    prefix: Seq<char>,
    opts: Args,
) -> Seq<TraversalEvent>
    decreases height_list(kids), 1nat, (if i <= kids.len() {
        kids.len() - i
    } else {
        0
    }),
{
    if 0 <= i < kids.len() {
        let is_last = i == kids.len() - 1;
        let ev = TraversalEvent { entry: kids[i], prefix, is_last };
        proof {
            lemma_height_list_elem(kids, i);
        }
        seq![ev] + events_of(kids[i], prefix + child_prefix(is_last), opts) + events_of_list(
            kids,
            i + 1,
            prefix,
            opts,
        )
    } else {
        Seq::empty()
    }
}

/// Running totals of a walk: how many surviving file entries and
/// directory entries it meets, and the file bytes among them.
pub struct Totals {
    pub files: nat,
    pub dirs: nat,
    pub bytes: nat,
}

pub open spec fn totals_zero() -> Totals {
    Totals { files: 0, dirs: 0, bytes: 0 }
}

pub open spec fn totals_add(a: Totals, b: Totals) -> Totals {
    Totals { files: a.files + b.files, dirs: a.dirs + b.dirs, bytes: a.bytes + b.bytes }
}

/// What one surviving entry adds by itself: one file with its bytes,
/// or one directory.
pub open spec fn entry_contrib(e: DirectoryEntry) -> Totals {
    if e.kind is File {
        Totals { files: 1, dirs: 0, bytes: e.size as nat }
    } else {
        Totals { files: 0, dirs: 1, bytes: 0 }
    }
}

/// The totals over the whole walk below `e`: every surviving entry of
/// every visited directory, counted once.
pub open spec fn subtree_totals(e: DirectoryEntry, opts: Args) -> Totals
    decreases height(e), 0nat, 0nat,
{
    if e.kind is Directory {
        proof {
            lemma_visible_height(e, opts);
        }
        totals_list(visible_children(e, opts), 0, opts)
    } else {
        totals_zero()
    }
}

/// The totals of the suffix of a sibling list from position `i` on.
pub open spec fn totals_list(kids: Seq<DirectoryEntry>, i: int, opts: Args) -> Totals
    decreases height_list(kids), 1nat, (if i <= kids.len() {
        kids.len() - i
    } else {
        0
    }),
{
    if 0 <= i < kids.len() {
        proof {
            lemma_height_list_elem(kids, i);
        }
        totals_add(
            entry_contrib(kids[i]),
            totals_add(subtree_totals(kids[i], opts), totals_list(kids, i + 1, opts)),
        )
    } else {
        totals_zero()
    }
}

/// A sibling suffix meets at least one entry per sibling.
pub proof fn lemma_totals_count_lb(kids: Seq<DirectoryEntry>, i: int, opts: Args)
    requires
        0 <= i <= kids.len(),
    ensures
        totals_list(kids, i, opts).files + totals_list(kids, i, opts).dirs >= kids.len() - i,
    decreases kids.len() - i,
{
    if i < kids.len() {
        lemma_totals_count_lb(kids, i + 1, opts);
    }
}

/// The lines of a sequence of events.
pub open spec fn lines_of(evs: Seq<TraversalEvent>, opts: Args) -> Seq<Seq<char>> {
    evs.map_values(|ev: TraversalEvent| line_of(ev, opts))
}

/// The output of the render-mode walk below `e`: one line per event,
/// in event order.
pub open spec fn render_lines(e: DirectoryEntry, prefix: Seq<char>, opts: Args) -> Seq<Seq<char>> {
    lines_of(events_of(e, prefix, opts), opts)
}

/// The character sequences of a sequence of strings.
pub open spec fn views_of(v: Seq<String>) -> Seq<Seq<char>> {
    v.map_values(|s: String| s@)
}

/// Recursively visit the directory snapshot `node` and render one
/// line per surviving entry, in depth-first pre-order, into `out`.
/// `prefix` is the accumulated line prefix of this level. The number
/// of surviving entries of every expanded directory is added to
/// `num_files`, and, when `opts.size` is set, the byte length of
/// every surviving file to `total_size`. A `node` that is not a
/// directory is not expanded: nothing is rendered or counted.
pub fn visit_dirs(
    node: DirectoryEntry,
    prefix: &str,
    opts: &Args,
    matcher: Option<&Matcher>,
    total_size: &mut u64,
    num_files: &mut u64,
    out: &mut Vec<String>,
)
    requires
        matcher_for(*opts, matcher),
        *old(num_files) + subtree_totals(node, *opts).files + subtree_totals(node, *opts).dirs
            <= u64::MAX,
        opts.size ==> *old(total_size) + subtree_totals(node, *opts).bytes <= u64::MAX,
    ensures
        views_of(final(out)@) == views_of(old(out)@) + render_lines(node, prefix@, *opts),
        *final(num_files) == *old(num_files) + subtree_totals(node, *opts).files + subtree_totals(
            node,
            *opts,
        ).dirs,
        *final(total_size) == *old(total_size) + (if opts.size {
            subtree_totals(node, *opts).bytes
        } else {
            0
        }),
    decreases height(node),
{
    let ghost t0 = subtree_totals(node, *opts);
    match node.kind {
        EntryKind::File => {
            proof {
                assert(render_lines(node, prefix@, *opts) =~= Seq::<Seq<char>>::empty());
                assert(views_of(out@) =~= views_of(old(out)@) + render_lines(node, prefix@, *opts));
            }
            return ;
        },
        EntryKind::Directory => {},
    }
    let DirectoryEntry { children, .. } = node;
    let kids = filter_entries(children, opts, matcher);
    let ghost kseq = kids@;
    let ghost full_events = events_of_list(kseq, 0, prefix@, *opts);
    let ghost full_totals = totals_list(kseq, 0, *opts);
    proof {
        assert(kseq == visible_children(node, *opts));
        assert(t0 == full_totals);
        lemma_visible_height(node, *opts);
        lemma_totals_count_lb(kseq, 0, *opts);
    }
    let n = kids.len();
    *num_files = *num_files + (n as u64);
    let mut rest = kids;
    let mut i: usize = 0;
    while i < n
        invariant
            matcher_for(*opts, matcher),
            n == kseq.len(),
            i <= n,
            rest@ =~= kseq.subrange(i as int, n as int),
            kseq == visible_children(node, *opts),
            node.kind is Directory,
            height_list(kseq) < height(node),
            *old(num_files) + full_totals.files + full_totals.dirs <= u64::MAX,
            opts.size ==> *old(total_size) + full_totals.bytes <= u64::MAX,
            *num_files as int + totals_list(kseq, i as int, *opts).files + totals_list(
                kseq,
                i as int,
                *opts,
            ).dirs + i == *old(num_files) as int + n + full_totals.files + full_totals.dirs,
            opts.size ==> *total_size as int + totals_list(kseq, i as int, *opts).bytes == *old(
                total_size,
            ) as int + full_totals.bytes,
            !opts.size ==> *total_size == *old(total_size),
            views_of(out@) + lines_of(events_of_list(kseq, i as int, prefix@, *opts), *opts)
                == views_of(old(out)@) + lines_of(full_events, *opts),
        decreases n - i,
    {
        let ghost ev_i = TraversalEvent {
            entry: kseq[i as int],
            prefix: prefix@,
            is_last: i == n - 1,
        };
        proof {
            lemma_totals_count_lb(kseq, i + 1 as int, *opts);
            lemma_height_list_elem(kseq, i as int);
        }
        let child = rest.remove(0);
        proof {
            assert(child == kseq[i as int]);
        }
        let is_last = i + 1 == n;
        let mut line = prefix.to_owned();
        if is_last {
            line.append("└── ");
        } else {
            line.append("├── ");
        }
        line.append(child.name.as_str());
        if opts.size {
            match child.kind {
                EntryKind::File => {
                    line.append(" (");
                    let entry_size = get_entry_size(&child.size);
                    line.append(entry_size.as_str());
                    line.append(")");
                    proof {
                        assert(*total_size + child.size <= u64::MAX);
                    }
                    *total_size = *total_size + child.size;
                },
                EntryKind::Directory => {},
            }
        }
        proof {
            assert(line@ =~= line_of(ev_i, *opts));
        }
        let ghost out_before = out@;
        out.push(line);
        proof {
            assert(views_of(out@) =~= views_of(out_before).push(line@));
        }
        let mut np = prefix.to_owned();
        if is_last {
            np.append("    ");
        } else {
            np.append("│   ");
        }
        proof {
            assert(np@ == prefix@ + child_prefix(ev_i.is_last));
        }
        visit_dirs(child, np.as_str(), opts, matcher, total_size, num_files, out);
        proof {
            let sub_events = events_of(kseq[i as int], prefix@ + child_prefix(ev_i.is_last), *opts);
            assert(events_of_list(kseq, i as int, prefix@, *opts) == seq![ev_i] + sub_events
                + events_of_list(kseq, i + 1 as int, prefix@, *opts));
            assert(lines_of(seq![ev_i] + sub_events + events_of_list(kseq, i + 1 as int, prefix@, *opts), *opts)
                =~= lines_of(seq![ev_i], *opts) + lines_of(sub_events, *opts) + lines_of(
                events_of_list(kseq, i + 1 as int, prefix@, *opts),
                *opts,
            ));
            assert(lines_of(seq![ev_i], *opts) =~= seq![line_of(ev_i, *opts)]);
            assert(views_of(out@) + lines_of(events_of_list(kseq, i + 1 as int, prefix@, *opts), *opts)
                =~= views_of(old(out)@) + lines_of(full_events, *opts));
            assert(rest@ =~= kseq.subrange(i + 1 as int, n as int));
        }
        i = i + 1;
    }
    proof {
        assert(events_of_list(kseq, n as int, prefix@, *opts) =~= Seq::<TraversalEvent>::empty());
        assert(lines_of(Seq::<TraversalEvent>::empty(), *opts) =~= Seq::<Seq<char>>::empty());
        assert(views_of(out@) + Seq::<Seq<char>>::empty() =~= views_of(out@));
        assert(views_of(out@) == views_of(old(out)@) + lines_of(full_events, *opts));
        assert(render_lines(node, prefix@, *opts) == lines_of(full_events, *opts));
    }
}

/// Recursively scan the directory snapshot `node` without rendering:
/// `total_dirs` counts the root (when it is a directory) and every
/// surviving directory entry below it, `num_files` every surviving
/// file entry, and `total_size` the byte length of every surviving
/// file, whether or not `opts.size` is set. Filtering is the same
/// pipeline the renderer applies.
pub fn scan_dirs(
    node: DirectoryEntry,
    opts: &Args,
    matcher: Option<&Matcher>,
    total_size: &mut u64,
    num_files: &mut u64,
    total_dirs: &mut u64,
)
    requires
        matcher_for(*opts, matcher),
        *old(num_files) + subtree_totals(node, *opts).files <= u64::MAX,
        *old(total_size) + subtree_totals(node, *opts).bytes <= u64::MAX,
        node.kind is Directory ==> *old(total_dirs) + 1 + subtree_totals(node, *opts).dirs
            <= u64::MAX,
    ensures
        *final(num_files) == *old(num_files) + (if node.kind is Directory {
            subtree_totals(node, *opts).files
        } else {
            0
        }),
        *final(total_size) == *old(total_size) + (if node.kind is Directory {
            subtree_totals(node, *opts).bytes
        } else {
            0
        }),
        *final(total_dirs) == *old(total_dirs) + (if node.kind is Directory {
            1 + subtree_totals(node, *opts).dirs
        } else {
            0
        }),
    decreases height(node),
{
    match node.kind {
        EntryKind::File => {
            return ;
        },
        EntryKind::Directory => {},
    }
    let ghost t0 = subtree_totals(node, *opts);
    let DirectoryEntry { children, .. } = node;
    let kids = filter_entries(children, opts, matcher);
    let ghost kseq = kids@;
    let ghost full_totals = totals_list(kseq, 0, *opts);
    proof {
        assert(kseq == visible_children(node, *opts));
        assert(t0 == full_totals);
        lemma_visible_height(node, *opts);
    }
    *total_dirs = *total_dirs + 1;
    let n = kids.len();
    let mut rest = kids;
    let mut i: usize = 0;
    while i < n
        invariant
            matcher_for(*opts, matcher),
            n == kseq.len(),
            i <= n,
            rest@ =~= kseq.subrange(i as int, n as int),
            kseq == visible_children(node, *opts),
            node.kind is Directory,
            height_list(kseq) < height(node),
            *old(num_files) + full_totals.files <= u64::MAX,
            *old(total_size) + full_totals.bytes <= u64::MAX,
            *old(total_dirs) + 1 + full_totals.dirs <= u64::MAX,
            *num_files as int + totals_list(kseq, i as int, *opts).files == *old(num_files) as int
                + full_totals.files,
            *total_size as int + totals_list(kseq, i as int, *opts).bytes == *old(total_size) as int
                + full_totals.bytes,
            *total_dirs as int + totals_list(kseq, i as int, *opts).dirs == *old(total_dirs) as int
                + 1 + full_totals.dirs,
        decreases n - i,
    {
        proof {
            lemma_height_list_elem(kseq, i as int);
        }
        let child = rest.remove(0);
        proof {
            assert(child == kseq[i as int]);
        }
        match child.kind {
            EntryKind::File => {
                *num_files = *num_files + 1;
                *total_size = *total_size + child.size;
            },
            EntryKind::Directory => {},
        }
        scan_dirs(child, opts, matcher, total_size, num_files, total_dirs);
        proof {
            assert(rest@ =~= kseq.subrange(i + 1 as int, n as int));
        }
        i = i + 1;
    }
}


/// Surviving file entries among a sequence of events.
pub open spec fn files_in(evs: Seq<TraversalEvent>) -> nat
    decreases evs.len(),
{
    if evs.len() == 0 {
        0
    } else {
        files_in(evs.drop_last()) + if evs.last().entry.kind is File {
            1nat
        } else {
            0nat
        }
    }
}

/// Surviving directory entries among a sequence of events.
pub open spec fn dirs_in(evs: Seq<TraversalEvent>) -> nat
    decreases evs.len(),
{
    if evs.len() == 0 {
        0
    } else {
        dirs_in(evs.drop_last()) + if evs.last().entry.kind is Directory {
            1nat
        } else {
            0nat
        }
    }
}

/// File bytes among a sequence of events.
pub open spec fn bytes_in(evs: Seq<TraversalEvent>) -> nat
    decreases evs.len(),
{
    if evs.len() == 0 {
        0
    } else {
        bytes_in(evs.drop_last()) + if evs.last().entry.kind is File {
            evs.last().entry.size as nat
        } else {
            0nat
        }
    }
}

proof fn lemma_counts_concat(a: Seq<TraversalEvent>, b: Seq<TraversalEvent>)
    ensures
        files_in(a + b) == files_in(a) + files_in(b),
        dirs_in(a + b) == dirs_in(a) + dirs_in(b),
        bytes_in(a + b) == bytes_in(a) + bytes_in(b),
    decreases b.len(),
{
    if b.len() == 0 {
        assert(a + b =~= a);
    } else {
        assert((a + b).drop_last() =~= a + b.drop_last());
        assert((a + b).last() == b.last());
        lemma_counts_concat(a, b.drop_last());
    }
}

/// Every event is of a file or of a directory: the two counts sum to
/// the number of events.
pub proof fn lemma_counts_are_len(evs: Seq<TraversalEvent>)
    ensures
        files_in(evs) + dirs_in(evs) == evs.len(),
    decreases evs.len(),
{
    if evs.len() > 0 {
        lemma_counts_are_len(evs.drop_last());
    }
}

/// The running totals of a walk are exactly the per-kind counts and
/// the file bytes of its event stream: each surviving file entry is
/// met once, each surviving directory entry once, and each surviving
/// file contributes its byte length.
pub proof fn lemma_events_totals(e: DirectoryEntry, prefix: Seq<char>, opts: Args)
    ensures
        files_in(events_of(e, prefix, opts)) == subtree_totals(e, opts).files,
        dirs_in(events_of(e, prefix, opts)) == subtree_totals(e, opts).dirs,
        bytes_in(events_of(e, prefix, opts)) == subtree_totals(e, opts).bytes,
    decreases height(e), 0nat, 0nat,
{
    if e.kind is Directory {
        lemma_visible_height(e, opts);
        lemma_events_totals_list(visible_children(e, opts), 0, prefix, opts);
    }
}

proof fn lemma_events_totals_list(kids: Seq<DirectoryEntry>, i: int, prefix: Seq<char>, opts: Args)
    requires
        0 <= i <= kids.len(),
    ensures
        files_in(events_of_list(kids, i, prefix, opts)) == totals_list(kids, i, opts).files,
        dirs_in(events_of_list(kids, i, prefix, opts)) == totals_list(kids, i, opts).dirs,
        bytes_in(events_of_list(kids, i, prefix, opts)) == totals_list(kids, i, opts).bytes,
    decreases height_list(kids), 1nat, kids.len() - i,
{
    if i < kids.len() {
        let is_last = i == kids.len() - 1;
        let ev = TraversalEvent { entry: kids[i], prefix, is_last };
        let sub = events_of(kids[i], prefix + child_prefix(is_last), opts);
        let rest = events_of_list(kids, i + 1, prefix, opts);
        lemma_height_list_elem(kids, i);
        lemma_events_totals(kids[i], prefix + child_prefix(is_last), opts);
        lemma_events_totals_list(kids, i + 1, prefix, opts);
        lemma_counts_concat(seq![ev] + sub, rest);
        lemma_counts_concat(seq![ev], sub);
        assert(events_of_list(kids, i, prefix, opts) == seq![ev] + sub + rest);
        assert(totals_list(kids, i, opts) == totals_add(
            entry_contrib(kids[i]),
            totals_add(subtree_totals(kids[i], opts), totals_list(kids, i + 1, opts)),
        ));
        assert(seq![ev].drop_last() =~= Seq::<TraversalEvent>::empty());
        assert(seq![ev].drop_last() == Seq::<TraversalEvent>::empty());
        assert(files_in(Seq::<TraversalEvent>::empty()) == 0);
        assert(dirs_in(Seq::<TraversalEvent>::empty()) == 0);
        assert(bytes_in(Seq::<TraversalEvent>::empty()) == 0);
        assert(seq![ev].last() == ev);
        assert(files_in(seq![ev]) == entry_contrib(kids[i]).files);
        assert(dirs_in(seq![ev]) == entry_contrib(kids[i]).dirs);
        assert(bytes_in(seq![ev]) == entry_contrib(kids[i]).bytes);
    }
}

/// One line per surviving entry: the render-mode output of a subtree
/// has exactly as many lines as the filter pipeline leaves entries,
/// summed over every visited level.
pub proof fn lemma_line_count(e: DirectoryEntry, prefix: Seq<char>, opts: Args)
    ensures
        render_lines(e, prefix, opts).len() == subtree_totals(e, opts).files + subtree_totals(
            e,
            opts,
        ).dirs,
{
    lemma_events_totals(e, prefix, opts);
    lemma_counts_are_len(events_of(e, prefix, opts));
}

/// Determinism: the rendered output is a function of the tree
/// snapshot, the prefix and the options alone, so two walks of the
/// same unchanged tree yield identical lines.
pub proof fn lemma_render_deterministic(
    e: DirectoryEntry,
    prefix: Seq<char>,
    opts: Args,
    a: Seq<Seq<char>>,
    b: Seq<Seq<char>>,
)
    requires
        a == render_lines(e, prefix, opts),
        b == render_lines(e, prefix, opts),
    ensures
        a == b,
{
}

/// Under `dirs`, no file entry survives anywhere in the walk: every
/// rendered line is a directory's.
pub proof fn lemma_dirs_only(e: DirectoryEntry, prefix: Seq<char>, opts: Args)
    requires
        opts.dirs,
    ensures
        forall|j: int|
            0 <= j < events_of(e, prefix, opts).len() ==> events_of(e, prefix, opts)[j].entry.kind
                is Directory,
    decreases height(e), 0nat, 0nat,
{
    if e.kind is Directory {
        lemma_visible_height(e, opts);
        crate::filter::lemma_filter_all_pass(sort_by_path(e.children@), opts);
        lemma_dirs_only_list(visible_children(e, opts), 0, prefix, opts);
    }
}

proof fn lemma_dirs_only_list(kids: Seq<DirectoryEntry>, i: int, prefix: Seq<char>, opts: Args)
    requires
        opts.dirs,
        0 <= i <= kids.len(),
        forall|k: int| 0 <= k < kids.len() ==> (#[trigger] kids[k]).kind is Directory,
    ensures
        forall|j: int|
            0 <= j < events_of_list(kids, i, prefix, opts).len() ==> events_of_list(
                kids,
                i,
                prefix,
                opts,
            )[j].entry.kind is Directory,
    decreases height_list(kids), 1nat, kids.len() - i,
{
    if i < kids.len() {
        let is_last = i == kids.len() - 1;
        let ev = TraversalEvent { entry: kids[i], prefix, is_last };
        let sub = events_of(kids[i], prefix + child_prefix(is_last), opts);
        let rest = events_of_list(kids, i + 1, prefix, opts);
        lemma_height_list_elem(kids, i);
        lemma_dirs_only(kids[i], prefix + child_prefix(is_last), opts);
        lemma_dirs_only_list(kids, i + 1, prefix, opts);
        assert forall|j: int| 0 <= j < events_of_list(kids, i, prefix, opts).len() implies
            events_of_list(kids, i, prefix, opts)[j].entry.kind is Directory by {
            let evs = events_of_list(kids, i, prefix, opts);
            assert(evs == seq![ev] + sub + rest);
            if j == 0 {
                assert(evs[j] == ev);
            } else if j <= sub.len() {
                assert(evs[j] == sub[j - 1]);
            } else {
                assert(evs[j] == rest[j - 1 - sub.len()]);
            }
        }
    }
}

/// Last-sibling detection: in the walk of a sibling list, the entry
/// at each position is met with `is_last` set exactly at the final
/// position, under the prefix of its own level. Together with the
/// definitions of `connector` and `child_prefix` this fixes the
/// markers: the last sibling is drawn with `"└── "` and passes
/// `"    "` on to its children, every other one with `"├── "` and
/// `"│   "`.
pub proof fn lemma_sibling_events(
    kids: Seq<DirectoryEntry>,
    j: int,
    i: int,
    prefix: Seq<char>,
    opts: Args,
)
    requires
        0 <= j <= i < kids.len(),
    ensures
        events_of_list(kids, j, prefix, opts).contains(
            TraversalEvent { entry: kids[i], prefix, is_last: i == kids.len() - 1 },
        ),
    decreases i - j,
{
    let target = TraversalEvent { entry: kids[i], prefix, is_last: i == kids.len() - 1 };
    let is_last = j == kids.len() - 1;
    let ev = TraversalEvent { entry: kids[j], prefix, is_last };
    let sub = events_of(kids[j], prefix + child_prefix(is_last), opts);
    let rest = events_of_list(kids, j + 1, prefix, opts);
    let evs = events_of_list(kids, j, prefix, opts);
    assert(evs == seq![ev] + sub + rest);
    if j == i {
        assert(evs[0] == target);
    } else {
        lemma_sibling_events(kids, j + 1, i, prefix, opts);
        let k = choose|k: int| 0 <= k < rest.len() && rest[k] == target;
        assert(evs[1 + sub.len() + k] == target);
    }
}

} // verus!
