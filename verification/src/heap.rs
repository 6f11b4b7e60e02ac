//! A binary heap of scored rows with the worst row on top.
//!
//! The heap is a vector read as a tree: the entries at `2 i + 1` and `2 i + 2`
//! are the children of the entry at `i`. No entry ranks after its parent, so
//! the first entry is one that none ranks after.

use vstd::prelude::*;
use vstd::pervasive::VecAdditionalExecFns;
use vstd::seq_lib::{to_multiset_contains, to_multiset_update};
use crate::score::score_key;
use crate::search::{ranks_before, SimilarityResult};

verus! {

/// Heap order: no entry has a parent that ranks before it.
pub open spec fn worst_first(heap: Seq<SimilarityResult>) -> bool {
    forall|i: int| 0 < i < heap.len() ==> !ranks_before(heap[(i - 1) / 2], #[trigger] heap[i])
}

/// Heap order but for the entry at `hole`, which may rank after its parent;
/// the children of `hole` are in order with the parent of `hole`.
pub open spec fn worst_first_above(heap: Seq<SimilarityResult>, hole: int) -> bool {
    &&& forall|i: int|
        0 < i < heap.len() && i != hole ==> !ranks_before(heap[(i - 1) / 2], #[trigger] heap[i])
    &&& forall|i: int|
        0 < i < heap.len() && (i - 1) / 2 == hole && hole > 0 ==> !ranks_before(
            heap[(hole - 1) / 2],
            #[trigger] heap[i],
        )
}

/// Heap order but for the entry at `hole`, which may rank before its children;
/// the children of `hole` are in order with the parent of `hole`.
pub open spec fn worst_first_below(heap: Seq<SimilarityResult>, hole: int) -> bool {
    &&& forall|i: int|
        0 < i < heap.len() && (i - 1) / 2 != hole ==> !ranks_before(
            heap[(i - 1) / 2],
            #[trigger] heap[i],
        )
    &&& forall|i: int|
        0 < i < heap.len() && (i - 1) / 2 == hole && hole > 0 ==> !ranks_before(
            heap[(hole - 1) / 2],
            #[trigger] heap[i],
        )
}

/// In a heap no entry ranks after the first.
pub proof fn lemma_first_is_worst(heap: Seq<SimilarityResult>, i: int)
    requires
        worst_first(heap),
        0 <= i < heap.len(),
    ensures
        !ranks_before(heap[0], heap[i]),
    decreases i,
{
    if i > 0 {
        lemma_first_is_worst(heap, (i - 1) / 2);
    }
}

/// Whether `a` ranks before `b`.
pub(crate) fn comes_before(a: SimilarityResult, b: SimilarityResult) -> (yes: bool)
    ensures
        yes == ranks_before(a, b),
{
    let key_a = score_key(a.score);
    let key_b = score_key(b.score);
    key_a > key_b || (key_a == key_b && a.id < b.id)
}

/// Exchanging two entries keeps the entries.
pub proof fn lemma_swap_keeps_entries(heap: Seq<SimilarityResult>, i: int, j: int)
    requires
        0 <= i < heap.len(),
        0 <= j < heap.len(),
    ensures
        heap.update(i, heap[j]).update(j, heap[i]).to_multiset() == heap.to_multiset(),
{
    broadcast use vstd::multiset::group_multiset_axioms;

    let a = heap[i];
    let b = heap[j];
    let second = heap.update(i, b);
    to_multiset_update(heap, i, b);
    to_multiset_update(second, j, a);
    to_multiset_contains(heap, a);
    to_multiset_contains(heap, b);
    assert(heap.contains(heap[i]) && heap.contains(heap[j]));
    assert(second[j] == b);
    assert(heap.to_multiset().insert(b).remove(a).insert(a).remove(b) =~= heap.to_multiset());
}

/// Exchanges the entries at `i` and `j`.
pub(crate) fn swap_entries(heap: &mut Vec<SimilarityResult>, i: usize, j: usize)
    requires
        i < old(heap)@.len(),
        j < old(heap)@.len(),
    ensures
        final(heap)@ == old(heap)@.update(i as int, old(heap)@[j as int]).update(
            j as int,
            old(heap)@[i as int],
        ),
        final(heap)@.to_multiset() == old(heap)@.to_multiset(),
{
    let a = heap[i];
    let b = heap[j];
    heap.set(i, b);
    heap.set(j, a);
    proof {
        lemma_swap_keeps_entries(old(heap)@, i as int, j as int);
    }
}

/// Restores heap order after the entry at `start` was put in: moves it up as
/// long as it ranks after its parent.
pub(crate) fn sift_up(heap: &mut Vec<SimilarityResult>, start: usize)
    requires
        start < old(heap)@.len(),
        worst_first_above(old(heap)@, start as int),
    ensures
        worst_first(final(heap)@),
        final(heap)@.to_multiset() == old(heap)@.to_multiset(),
        final(heap)@.len() == old(heap)@.len(),
{
    let mut i = start;
    while i > 0
        invariant
            i < heap@.len(),
            heap@.len() == old(heap)@.len(),
            heap@.to_multiset() == old(heap)@.to_multiset(),
            worst_first_above(heap@, i as int),
        decreases i,
    {
        let parent = (i - 1) / 2;
        if !comes_before(heap[parent], heap[i]) {
            return ;
        }
        swap_entries(heap, parent, i);
        i = parent;
    }
}

/// Restores heap order among the first `len` entries after the one at `start`
/// was replaced: moves it down as long as it ranks before a child. The entries
/// from `len` on stay where they are.
pub(crate) fn sift_down(heap: &mut Vec<SimilarityResult>, start: usize, len: usize)
    requires
        start < len <= old(heap)@.len(),
        worst_first_below(old(heap)@.take(len as int), start as int),
    ensures
        worst_first(final(heap)@.take(len as int)),
        final(heap)@.to_multiset() == old(heap)@.to_multiset(),
        final(heap)@.take(len as int).to_multiset() == old(heap)@.take(len as int).to_multiset(),
        final(heap)@.skip(len as int) == old(heap)@.skip(len as int),
        final(heap)@.len() == old(heap)@.len(),
{
    let mut i = start;
    while i < len / 2
        invariant
            i < len <= heap@.len(),
            heap@.len() == old(heap)@.len(),
            heap@.to_multiset() == old(heap)@.to_multiset(),
            heap@.take(len as int).to_multiset() == old(heap)@.take(len as int).to_multiset(),
            heap@.skip(len as int) == old(heap)@.skip(len as int),
            worst_first_below(heap@.take(len as int), i as int),
        decreases len - i,
    {
        let left = 2 * i + 1;
        let right = left + 1;
        let worse = if right < len && comes_before(heap[left], heap[right]) {
            right
        } else {
            left
        };
        if !comes_before(heap[i], heap[worse]) {
            return ;
        }
        let ghost before = heap@;
        swap_entries(heap, i, worse);
        proof {
            let part = before.take(len as int);
            lemma_swap_keeps_entries(part, i as int, worse as int);
            assert(heap@.take(len as int) =~= part.update(i as int, part[worse as int]).update(
                worse as int,
                part[i as int],
            ));
            assert(heap@.skip(len as int) =~= before.skip(len as int));
        }
        i = worse;
    }
}

} // verus!
