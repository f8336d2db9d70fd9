//! The filter pipeline: a directory listing is first sorted by full
//! path, then narrowed by visibility, name pattern and entry kind,
//! in that fixed order.

use vstd::prelude::*;
use vstd::relations::sorted_by;
use vstd::string::*;
use crate::cli::{pattern_active, Args};
use crate::entry::{DirectoryEntry, EntryKind};
use crate::pattern::{matcher_for, regex_accepts, Matcher};

verus! {

/// Byte-wise lexicographic order on paths.
pub open spec fn lex_le(a: Seq<u8>, b: Seq<u8>) -> bool
    decreases a.len(),
{
    if a.len() == 0 {
        true
    } else if b.len() == 0 {
        false
    } else if a[0] < b[0] {
        true
    } else if a[0] > b[0] {
        false
    } else {
        lex_le(a.subrange(1, a.len() as int), b.subrange(1, b.len() as int))
    }
}

/// Entries are ordered by their full path.
pub open spec fn entry_le(a: DirectoryEntry, b: DirectoryEntry) -> bool {
    lex_le(a.path@, b.path@)
}

/// The lexicographic order relates every pair of paths.
pub proof fn lemma_lex_le_total(a: Seq<u8>, b: Seq<u8>)
    ensures
        lex_le(a, b) || lex_le(b, a),
    decreases a.len(),
{
    if a.len() == 0 || b.len() == 0 {
    } else if a[0] == b[0] {
        lemma_lex_le_total(a.subrange(1, a.len() as int), b.subrange(1, b.len() as int));
    }
}

/// The lexicographic order is transitive.
pub proof fn lemma_lex_le_trans(a: Seq<u8>, b: Seq<u8>, c: Seq<u8>)
    requires
        lex_le(a, b),
        lex_le(b, c),
    ensures
        lex_le(a, c),
    decreases a.len(),
{
    if a.len() == 0 || b.len() == 0 || c.len() == 0 {
    } else if a[0] == b[0] && b[0] == c[0] {
        lemma_lex_le_trans(
            a.subrange(1, a.len() as int),
            b.subrange(1, b.len() as int),
            c.subrange(1, c.len() as int),
        );
    }
}

/// `x` placed into an already ordered sequence, before the first
/// element it precedes.
pub open spec fn insert_ord(x: DirectoryEntry, s: Seq<DirectoryEntry>) -> Seq<DirectoryEntry>
    decreases s.len(),
{
    if s.len() == 0 {
        seq![x]
    } else if entry_le(x, s[0]) {
        seq![x] + s
    } else {
        seq![s[0]] + insert_ord(x, s.subrange(1, s.len() as int))
    }
}

/// The stable sort of a directory listing, ascending by full path:
/// every element in turn inserted into the sorted front.
pub open spec fn sort_by_path(s: Seq<DirectoryEntry>) -> Seq<DirectoryEntry>
    decreases s.len(),
{
    if s.len() == 0 {
        Seq::empty()
    } else {
        insert_ord(s.last(), sort_by_path(s.drop_last()))
    }
}

/// Whatever comes out of an insertion went in: the new element or one
/// of the old ones.
pub proof fn lemma_insert_ord_contains(x: DirectoryEntry, s: Seq<DirectoryEntry>, y: DirectoryEntry)
    requires
        insert_ord(x, s).contains(y),
    ensures
        y == x || s.contains(y),
    decreases s.len(),
{
    if s.len() == 0 {
    } else if entry_le(x, s[0]) {
        let r = seq![x] + s;
        let i = choose|i: int| 0 <= i < r.len() && r[i] == y;
        if i > 0 {
            assert(s[i - 1] == y);
        }
    } else {
        let rest = s.subrange(1, s.len() as int);
        let r = seq![s[0]] + insert_ord(x, rest);
        let i = choose|i: int| 0 <= i < r.len() && r[i] == y;
        if i > 0 {
            assert(insert_ord(x, rest)[i - 1] == y);
            lemma_insert_ord_contains(x, rest, y);
            if rest.contains(y) {
                let j = choose|j: int| 0 <= j < rest.len() && rest[j] == y;
                assert(s[j + 1] == y);
            }
        }
    }
}

/// Sorting a listing invents no entry: everything in the sorted
/// sequence was in the original one.
pub proof fn lemma_sort_contains(s: Seq<DirectoryEntry>, y: DirectoryEntry)
    requires
        sort_by_path(s).contains(y),
    ensures
        s.contains(y),
    decreases s.len(),
{
    if s.len() == 0 {
    } else {
        lemma_insert_ord_contains(s.last(), sort_by_path(s.drop_last()), y);
        if y == s.last() {
            assert(s[s.len() - 1] == y);
        } else {
            lemma_sort_contains(s.drop_last(), y);
            let j = choose|j: int| 0 <= j < s.drop_last().len() && s.drop_last()[j] == y;
            assert(s[j] == y);
        }
    }
}

/// Inserting into an ordered sequence keeps it ordered.
pub proof fn lemma_insert_ord_sorted(x: DirectoryEntry, s: Seq<DirectoryEntry>)
    requires
        sorted_by(s, |a: DirectoryEntry, b: DirectoryEntry| entry_le(a, b)),
    ensures
        sorted_by(insert_ord(x, s), |a: DirectoryEntry, b: DirectoryEntry| entry_le(a, b)),
    decreases s.len(),
{
    let leq = |a: DirectoryEntry, b: DirectoryEntry| entry_le(a, b);
    let r = insert_ord(x, s);
    if s.len() == 0 {
        assert forall|i: int, j: int| 0 <= i < j < r.len() implies leq(r[i], r[j]) by {}
    } else if entry_le(x, s[0]) {
        assert forall|i: int, j: int| 0 <= i < j < r.len() implies leq(r[i], r[j]) by {
            if i == 0 {
                if j == 1 {
                } else {
                    assert(leq(s[0], s[j - 1]));
                    lemma_lex_le_trans(x.path@, s[0].path@, s[j - 1].path@);
                }
            } else {
                assert(leq(s[i - 1], s[j - 1]));
            }
        }
    } else {
        let rest = s.subrange(1, s.len() as int);
        assert forall|i: int, j: int| 0 <= i < j < rest.len() implies leq(rest[i], rest[j]) by {
            assert(leq(s[i + 1], s[j + 1]));
        }
        lemma_insert_ord_sorted(x, rest);
        let rr = insert_ord(x, rest);
        assert forall|i: int, j: int| 0 <= i < j < r.len() implies leq(r[i], r[j]) by {
            if i == 0 {
                assert(rr.contains(rr[j - 1]));
                lemma_insert_ord_contains(x, rest, rr[j - 1]);
                if rr[j - 1] == x {
                    lemma_lex_le_total(x.path@, s[0].path@);
                } else {
                    let k = choose|k: int| 0 <= k < rest.len() && rest[k] == rr[j - 1];
                    assert(leq(s[0], s[k + 1]));
                }
            } else {
                assert(leq(rr[i - 1], rr[j - 1]));
            }
        }
    }
}

/// The sorted listing really is in ascending path order.
pub proof fn lemma_sort_sorted(s: Seq<DirectoryEntry>)
    ensures
        sorted_by(sort_by_path(s), |a: DirectoryEntry, b: DirectoryEntry| entry_le(a, b)),
    decreases s.len(),
{
    if s.len() == 0 {
    } else {
        lemma_sort_sorted(s.drop_last());
        lemma_insert_ord_sorted(s.last(), sort_by_path(s.drop_last()));
    }
}

/// The sorted listing holds exactly the entries of the original one,
/// with their multiplicities.
pub proof fn lemma_sort_permutes(s: Seq<DirectoryEntry>)
    ensures
        sort_by_path(s).to_multiset() == s.to_multiset(),
    decreases s.len(),
{
    broadcast use vstd::seq_lib::group_to_multiset_ensures;

    if s.len() == 0 {
        assert(sort_by_path(s).to_multiset() =~= s.to_multiset());
    } else {
        lemma_sort_permutes(s.drop_last());
        lemma_insert_ord_multiset(s.last(), sort_by_path(s.drop_last()));
        assert(s =~= s.drop_last().push(s.last()));
        assert(s.drop_last().push(s.last()).to_multiset() == s.drop_last().to_multiset().insert(
            s.last(),
        ));
        assert(sort_by_path(s).to_multiset() =~= s.to_multiset());
    }
}

proof fn lemma_insert_ord_multiset(x: DirectoryEntry, s: Seq<DirectoryEntry>)
    ensures
        insert_ord(x, s).to_multiset() == s.to_multiset().insert(x),
    decreases s.len(),
{
    broadcast use vstd::seq_lib::group_to_multiset_ensures;

    if s.len() == 0 {
        assert(insert_ord(x, s) =~= Seq::empty().push(x));
        assert(Seq::<DirectoryEntry>::empty().push(x).to_multiset()
            == Seq::<DirectoryEntry>::empty().to_multiset().insert(x));
        assert(insert_ord(x, s).to_multiset() =~= s.to_multiset().insert(x));
    } else if entry_le(x, s[0]) {
        assert(seq![x] + s =~= s.insert(0, x));
        assert(s.insert(0, x).to_multiset() == s.to_multiset().insert(x));
    } else {
        let rest = s.subrange(1, s.len() as int);
        lemma_insert_ord_multiset(x, rest);
        let rr = insert_ord(x, rest);
        assert(seq![s[0]] + rr =~= rr.insert(0, s[0]));
        assert(rr.insert(0, s[0]).to_multiset() == rr.to_multiset().insert(s[0]));
        assert(s =~= rest.insert(0, s[0]));
        assert(rest.insert(0, s[0]).to_multiset() == rest.to_multiset().insert(s[0]));
        assert(rr.to_multiset().insert(s[0]) =~= rest.to_multiset().insert(s[0]).insert(x));
    }
}

/// Whether a name counts as hidden: it starts with a dot.
pub open spec fn is_hidden_name(name: Seq<char>) -> bool {
    name.len() > 0 && name[0] == '.'
}

/// One entry's fate under the narrowing stages of the pipeline:
/// hidden entries go unless `all`, then the name pattern keeps or
/// drops by `exclude`, then `dirs` drops plain files.
pub open spec fn passes_filter(e: DirectoryEntry, opts: Args) -> bool {
    &&& opts.all || !is_hidden_name(e.name@)
    &&& !pattern_active(opts) || (regex_accepts(opts.pattern->0@, e.name@) != opts.exclude)
    &&& !opts.dirs || e.kind is Directory
}

/// The subsequence of entries that pass the narrowing stages, in
/// their given order.
pub open spec fn filter_spec(s: Seq<DirectoryEntry>, opts: Args) -> Seq<DirectoryEntry>
    decreases s.len(),
{
    if s.len() == 0 {
        Seq::empty()
    } else {
        filter_spec(s.drop_last(), opts) + if passes_filter(s.last(), opts) {
            seq![s.last()]
        } else {
            Seq::empty()
        }
    }
}

/// What the whole pipeline leaves of a directory's children: the
/// listing sorted by full path, then narrowed.
pub open spec fn visible_children(e: DirectoryEntry, opts: Args) -> Seq<DirectoryEntry> {
    filter_spec(sort_by_path(e.children@), opts)
}

/// Filtering invents no entry.
pub proof fn lemma_filter_contains(s: Seq<DirectoryEntry>, opts: Args, y: DirectoryEntry)
    requires
        filter_spec(s, opts).contains(y),
    ensures
        s.contains(y),
        passes_filter(y, opts),
    decreases s.len(),
{
    if s.len() == 0 {
    } else {
        let f = filter_spec(s.drop_last(), opts);
        let i = choose|i: int| 0 <= i < filter_spec(s, opts).len() && filter_spec(s, opts)[i] == y;
        if i < f.len() {
            lemma_filter_contains(s.drop_last(), opts, y);
            let j = choose|j: int| 0 <= j < s.drop_last().len() && s.drop_last()[j] == y;
            assert(s[j] == y);
        } else {
            assert(y == s.last());
            assert(s[s.len() - 1] == y);
        }
    }
}

/// Every entry the pipeline hands out passed its stages.
pub proof fn lemma_filter_all_pass(s: Seq<DirectoryEntry>, opts: Args)
    ensures
        forall|i: int|
            0 <= i < filter_spec(s, opts).len() ==> passes_filter(
                #[trigger] filter_spec(s, opts)[i],
                opts,
            ),
{
    assert forall|i: int| 0 <= i < filter_spec(s, opts).len() implies passes_filter(
        filter_spec(s, opts)[i],
        opts,
    ) by {
        assert(filter_spec(s, opts).contains(filter_spec(s, opts)[i]));
        lemma_filter_contains(s, opts, filter_spec(s, opts)[i]);
    }
}

/// Byte-wise comparison of two paths.
pub fn lex_le_bytes(a: &Vec<u8>, b: &Vec<u8>) -> (r: bool)
    ensures
        r == lex_le(a@, b@),
{
    let mut i: usize = 0;
    proof {
        assert(a@.subrange(0, a@.len() as int) =~= a@);
        assert(b@.subrange(0, b@.len() as int) =~= b@);
    }
    loop
        invariant
            i <= a@.len(),
            i <= b@.len(),
            lex_le(a@, b@) == lex_le(
                a@.subrange(i as int, a@.len() as int),
                b@.subrange(i as int, b@.len() as int),
            ),
        decreases a@.len() - i,
    {
        let ghost sa = a@.subrange(i as int, a@.len() as int);
        let ghost sb = b@.subrange(i as int, b@.len() as int);
        if i == a.len() {
            assert(sa.len() == 0);
            return true;
        }
        if i == b.len() {
            assert(sb.len() == 0 && sa.len() > 0);
            return false;
        }
        assert(sa[0] == a@[i as int] && sb[0] == b@[i as int]);
        if a[i] < b[i] {
            return true;
        }
        if a[i] > b[i] {
            return false;
        }
        proof {
            assert(sa.subrange(1, sa.len() as int) =~= a@.subrange(
                i + 1 as int,
                a@.len() as int,
            ));
            assert(sb.subrange(1, sb.len() as int) =~= b@.subrange(
                i + 1 as int,
                b@.len() as int,
            ));
        }
        i = i + 1;
    }
}

/// `insert_ord`, once the place to insert is known: the element goes
/// exactly where the scan stopped.
proof fn lemma_insert_ord_at(x: DirectoryEntry, s: Seq<DirectoryEntry>, j: int)
    requires
        0 <= j <= s.len(),
        forall|k: int| 0 <= k < j ==> !entry_le(x, #[trigger] s[k]),
        j < s.len() ==> entry_le(x, s[j]),
    ensures
        insert_ord(x, s) == s.insert(j, x),
    decreases s.len(),
{
    if s.len() == 0 {
        assert(insert_ord(x, s) =~= s.insert(0, x));
    } else if j == 0 {
        assert(insert_ord(x, s) =~= s.insert(0, x));
    } else {
        let rest = s.subrange(1, s.len() as int);
        assert(!entry_le(x, s[0]));
        assert forall|k: int| 0 <= k < j - 1 implies !entry_le(x, #[trigger] rest[k]) by {
            assert(rest[k] == s[k + 1]);
        }
        lemma_insert_ord_at(x, rest, j - 1);
        assert(seq![s[0]] + rest.insert(j - 1, x) =~= s.insert(j, x));
    }
}

/// Place one entry into an already sorted vector, keeping the order.
fn insert_sorted(v: &mut Vec<DirectoryEntry>, x: DirectoryEntry)
    ensures
        final(v)@ == insert_ord(x, old(v)@),
{
    let mut j: usize = 0;
    loop
        invariant
            j <= v@.len(),
            v@ == old(v)@,
            forall|k: int| 0 <= k < j ==> !entry_le(x, #[trigger] v@[k]),
        ensures
            j <= v@.len(),
            v@ == old(v)@,
            forall|k: int| 0 <= k < j ==> !entry_le(x, #[trigger] v@[k]),
            j < v@.len() ==> entry_le(x, v@[j as int]),
        decreases v@.len() - j,
    {
        if j == v.len() {
            break ;
        }
        if lex_le_bytes(&x.path, &v[j].path) {
            break ;
        }
        j = j + 1;
    }
    proof {
        lemma_insert_ord_at(x, v@, j as int);
    }
    v.insert(j, x);
}

/// The ordered, narrowed subset of a directory listing that the
/// traversal will visit: sorted by full path, then filtered by
/// visibility, name pattern and kind. The matcher must be the one
/// compiled from the options' pattern.
pub fn filter_entries(entries: Vec<DirectoryEntry>, opts: &Args, matcher: Option<&Matcher>) -> (out: Vec<
    DirectoryEntry,
>)
    requires
        matcher_for(*opts, matcher),
    ensures
        out@ == filter_spec(sort_by_path(entries@), *opts),
{
    let ghost orig = entries@;
    let mut rest = entries;
    let n0 = rest.len();
    proof {
        assert(orig.len() == n0);
    }
    let mut sorted: Vec<DirectoryEntry> = Vec::new();
    let mut i: usize = 0;
    while rest.len() > 0
        invariant
            orig.len() <= usize::MAX,
            i + rest@.len() == orig.len(),
            rest@ =~= orig.subrange(i as int, orig.len() as int),
            sorted@ == sort_by_path(orig.subrange(0, i as int)),
        decreases rest@.len(),
    {
        let x = rest.remove(0);
        assert(x == orig[i as int]);
        insert_sorted(&mut sorted, x);
        proof {
            let pre = orig.subrange(0, i as int);
            let cur = orig.subrange(0, i + 1 as int);
            assert(cur.drop_last() =~= pre);
            assert(cur.last() == x);
            assert(rest@ =~= orig.subrange(i + 1 as int, orig.len() as int));
        }
        i = i + 1;
    }
    proof {
        assert(orig.subrange(0, orig.len() as int) =~= orig);
    }
    let ghost sorted_seq = sorted@;
    let mut rest2 = sorted;
    let n1 = rest2.len();
    proof {
        assert(sorted_seq.len() == n1);
    }
    let mut out: Vec<DirectoryEntry> = Vec::new();
    let mut k: usize = 0;
    while rest2.len() > 0
        invariant
            matcher_for(*opts, matcher),
            sorted_seq.len() <= usize::MAX,
            k + rest2@.len() == sorted_seq.len(),
            rest2@ =~= sorted_seq.subrange(k as int, sorted_seq.len() as int),
            out@ == filter_spec(sorted_seq.subrange(0, k as int), *opts),
        decreases rest2@.len(),
    {
        let x = rest2.remove(0);
        assert(x == sorted_seq[k as int]);
        if entry_passes(&x, opts, matcher) {
            out.push(x);
        }
        proof {
            let pre = sorted_seq.subrange(0, k as int);
            let cur = sorted_seq.subrange(0, k + 1 as int);
            assert(cur.drop_last() =~= pre);
            assert(cur.last() == sorted_seq[k as int]);
            if !passes_filter(sorted_seq[k as int], *opts) {
                assert(out@ =~= filter_spec(cur, *opts));
            }
            assert(rest2@ =~= sorted_seq.subrange(k + 1 as int, sorted_seq.len() as int));
        }
        k = k + 1;
    }
    proof {
        assert(sorted_seq.subrange(0, sorted_seq.len() as int) =~= sorted_seq);
    }
    out
}

/// Whether a name counts as hidden.
pub fn is_hidden(name: &String) -> (r: bool)
    ensures
        r == is_hidden_name(name@),
{
    let s = name.as_str();
    if s.unicode_len() == 0 {
        false
    } else {
        s.get_char(0) == '.'
    }
}

/// One entry's fate under the narrowing stages, decided exactly as
/// `passes_filter` states it.
pub fn entry_passes(e: &DirectoryEntry, opts: &Args, matcher: Option<&Matcher>) -> (r: bool)
    requires
        matcher_for(*opts, matcher),
    ensures
        r == passes_filter(*e, *opts),
{
    if !opts.all && is_hidden(&e.name) {
        return false;
    }
    let active = match &opts.pattern {
        Some(p) => p.as_str().unicode_len() > 0,
        None => false,
    };
    if active {
        let m = matcher.unwrap();
        let hit = m.is_match(e.name.as_str());
        if opts.exclude {
            if hit {
                return false;
            }
        } else {
            if !hit {
                return false;
            }
        }
    }
    if opts.dirs {
        match e.kind {
            EntryKind::File => { return false; },
            EntryKind::Directory => {},
        }
    }
    true
}

} // verus!
