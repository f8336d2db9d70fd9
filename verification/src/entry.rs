//! The in-memory snapshot of a directory subtree, and the height
//! measure used for termination of the recursive traversals.

use vstd::prelude::*;

verus! {

/// Whether a directory entry is a plain file or a directory.
#[derive(Clone, Copy, PartialEq, Eq, Structural)]
pub enum EntryKind {
    File,
    Directory,
}

/// One entry of a directory listing, together with the subtree below
/// it: a name, a full path (as bytes, used for ordering), a kind, a
/// byte length (meaningful for files) and the child entries of a
/// directory. The value is an immutable snapshot of the filesystem at
/// the time of listing.
pub struct DirectoryEntry {
    pub name: String,
    pub path: Vec<u8>,
    pub kind: EntryKind,
    pub size: u64,
    pub children: Vec<DirectoryEntry>,
}

/// Height of a subtree: 1 for the entry itself plus the height of its
/// deepest child. Used as the termination measure of every recursive
/// walk over a tree.
pub open spec fn height(e: DirectoryEntry) -> nat
    decreases e,
{
    1 + height_list(e.children@)
}

/// Height of the deepest entry of a sequence, 0 for the empty one.
pub open spec fn height_list(s: Seq<DirectoryEntry>) -> nat
    decreases s,
{
    if s.len() == 0 {
        0
    } else {
        let h0 = height(s[0]);
        let hr = height_list(s.subrange(1, s.len() as int));
        if h0 > hr {
            h0
        } else {
            hr
        }
    }
}

/// Every element of a sequence is at most as high as the sequence.
pub proof fn lemma_height_list_elem(s: Seq<DirectoryEntry>, i: int)
    requires
        0 <= i < s.len(),
    ensures
        height(s[i]) <= height_list(s),
    decreases s.len(),
{
    if i == 0 {
    } else {
        let rest = s.subrange(1, s.len() as int);
        lemma_height_list_elem(rest, i - 1);
        assert(rest[i - 1] == s[i]);
    }
}

/// A sequence whose elements all have height at most `b` has height
/// at most `b` itself.
pub proof fn lemma_height_list_ub(s: Seq<DirectoryEntry>, b: nat)
    requires
        forall|i: int| 0 <= i < s.len() ==> height(#[trigger] s[i]) <= b,
    ensures
        height_list(s) <= b,
    decreases s.len(),
{
    if s.len() == 0 {
    } else {
        let rest = s.subrange(1, s.len() as int);
        assert forall|i: int| 0 <= i < rest.len() implies height(#[trigger] rest[i]) <= b by {
            assert(rest[i] == s[i + 1]);
        }
        lemma_height_list_ub(rest, b);
    }
}

} // verus!
