//! Template tree entries and their dependency-safe ordering.
//!
//! An entry is a filesystem object strictly under a template root, named
//! by its forward-slash path segments relative to that root.  Before
//! materialization the entries are sorted by path depth, ascending, so
//! that a parent directory always stands before anything nested under
//! it — the one ordering the write phase depends on.

use vstd::prelude::*;

verus! {

broadcast use vstd::seq_lib::group_to_multiset_ensures;

/// What kind of filesystem object an entry names.
#[derive(Clone, Copy, Debug, PartialEq, Eq, Structural)]
pub enum EntryKind {
    Directory,
    File,
}

/// One filesystem object of a template, relative to the template root.
pub struct Entry {
    /// The relative path, as non-empty forward-slash segments.
    pub segments: Vec<String>,
    pub kind: EntryKind,
    /// The decoded text content; empty for a directory.
    pub content: String,
}

/// The characters of each segment.
pub open spec fn seg_view(ss: Seq<String>) -> Seq<Seq<char>> {
    ss.map_values(|s: String| s@)
}

/// `p` names a directory strictly above `c`: a proper leading prefix of
/// its segments.
pub open spec fn proper_ancestor(p: Seq<Seq<char>>, c: Seq<Seq<char>>) -> bool {
    p.len() < c.len() && p == c.subrange(0, p.len() as int)
}

/// Entries stand in ascending order of depth (segment count).
pub open spec fn sorted_by_depth(s: Seq<Entry>) -> bool {
    forall|a: int, b: int|
        0 <= a <= b < s.len() ==> s[a].segments@.len() <= s[b].segments@.len()
}

/// Sort the entries of a template by path depth, ascending.
///
/// The result is a permutation of the input, and no entry nested under
/// a directory ever stands before that directory's own entry: the
/// walker never returns a child before its parent.
pub fn order_entries(entries: Vec<Entry>) -> (r: Vec<Entry>)
    ensures
        r@.to_multiset() == entries@.to_multiset(),
        r@.len() == entries@.len(),
        sorted_by_depth(r@),
        forall|i: int, j: int|
            0 <= i < r@.len() && 0 <= j < r@.len() && proper_ancestor(
                seg_view(r@[i].segments@),
                seg_view(r@[j].segments@),
            ) ==> i < j,
{
    let mut v = entries;
    let ghost orig = v@;
    let mut idx: usize = 1;
    while idx < v.len()
        invariant
            1 <= idx,
            v@.len() == orig.len(),
            v@.to_multiset() == orig.to_multiset(),
            forall|a: int, b: int|
                0 <= a <= b < idx && b < v@.len() ==> v@[a].segments@.len()
                    <= v@[b].segments@.len(),
        decreases v@.len() - idx,
    {
        let ghost before = v@;
        let e = v.remove(idx);
        let mut p: usize = 0;
        while p < idx && v[p].segments.len() <= e.segments.len()
            invariant
                p <= idx,
                idx <= v@.len(),
                v@ == before.remove(idx as int),
                forall|a: int| 0 <= a < p ==> #[trigger] v@[a].segments@.len()
                    <= e.segments@.len(),
            decreases idx - p,
        {
            p = p + 1;
        }
        let ghost mid = v@;
        v.insert(p, e);
        proof {
            assert(before.to_multiset().count(before[idx as int]) > 0) by {
                assert(before.contains(before[idx as int]));
            }
            assert(v@.to_multiset() =~= before.to_multiset()) by {
                broadcast use vstd::multiset::group_multiset_axioms;
            }
            assert forall|a: int, b: int|
                0 <= a <= b < idx + 1 && b < v@.len() implies v@[a].segments@.len()
                <= v@[b].segments@.len() by {
                if p < idx {
                    assert(mid[p as int].segments@.len() > e.segments@.len());
                }
            }
        }
        idx = idx + 1;
    }
    proof {
        if v@.len() > 0 {
            assert(sorted_by_depth(v@));
        }
        assert forall|i: int, j: int|
            0 <= i < v@.len() && 0 <= j < v@.len() && proper_ancestor(
                seg_view(v@[i].segments@),
                seg_view(v@[j].segments@),
            ) implies i < j by {
            assert(seg_view(v@[i].segments@).len() == v@[i].segments@.len());
            assert(seg_view(v@[j].segments@).len() == v@[j].segments@.len());
            if j <= i {
                assert(v@[j].segments@.len() <= v@[i].segments@.len());
            }
        }
    }
    v
}

} // verus!
