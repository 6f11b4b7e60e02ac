//! Exact top-k selection over one score per row.
//!
//! A score is the bit pattern of a 32-bit float. Rows are ranked by score,
//! greatest first; rows of equal score by row id, smallest first. The order is
//! total over distinct row ids, so the top k of any score list is one
//! sequence and no other.

use vstd::prelude::*;
use vstd::pervasive::VecAdditionalExecFns;
use crate::heap::{comes_before, lemma_first_is_worst, sift_down, sift_up, swap_entries, worst_first};
use crate::score::score_rank;

verus! {

/// One row of an answer: the row id and the score it got.
#[derive(Clone, Copy, Debug, PartialEq, Eq, Structural)]
pub struct SimilarityResult {
    pub id: usize,
    pub score: u32,
}

/// `a` comes before `b` in an answer: a greater score, or the same score and a
/// smaller row id.
pub open spec fn ranks_before(a: SimilarityResult, b: SimilarityResult) -> bool {
    score_rank(a.score) > score_rank(b.score) || (score_rank(a.score) == score_rank(b.score)
        && a.id < b.id)
}

/// Row `id` with the score that `scores` gives it.
pub open spec fn scored_row(scores: Seq<u32>, id: int) -> SimilarityResult {
    SimilarityResult { id: id as usize, score: scores[id] }
}

/// Row `id` occurs in `out`.
pub open spec fn holds_row(out: Seq<SimilarityResult>, id: int) -> bool {
    exists|i: int| 0 <= i < out.len() && (#[trigger] out[i]).id == id
}

/// The entries of `out` stand in ranking order, each strictly before the next.
pub open spec fn ranked(out: Seq<SimilarityResult>) -> bool {
    forall|i: int, j: int| 0 <= i < j < out.len() ==> ranks_before(#[trigger] out[i], #[trigger] out[j])
}

/// `out` is the answer for `scores` and `k`: the `min(k, N)` best rows, best
/// first. Every entry is a row with its own score, the entries are ranked, and
/// each row left out ranks after every entry. When `k` covers all rows, all
/// rows are in.
pub open spec fn is_top_k(scores: Seq<u32>, k: nat, out: Seq<SimilarityResult>) -> bool {
    &&& out.len() == if k <= scores.len() { k } else { scores.len() }
    &&& forall|i: int| 0 <= i < out.len() ==> 0 <= (#[trigger] out[i]).id < scores.len()
            && out[i] == scored_row(scores, out[i].id as int)
    &&& ranked(out)
    &&& forall|id: int, i: int| 0 <= id < scores.len() && !holds_row(out, id) && 0 <= i < out.len()
            ==> ranks_before(#[trigger] out[i], #[trigger] scored_row(scores, id))
    &&& scores.len() <= k ==> forall|id: int| 0 <= id < scores.len() ==> #[trigger] holds_row(out, id)
}

/// `set` holds the `min(k, N)` best rows of `scores` in some order: each entry
/// is a row with its own score, no row is in twice, each row left out ranks
/// after every entry, and when `k` covers all rows, all rows are in.
pub open spec fn is_best_set(scores: Seq<u32>, k: nat, set: Seq<SimilarityResult>) -> bool {
    &&& set.len() == if k <= scores.len() { k } else { scores.len() }
    &&& forall|i: int| 0 <= i < set.len() ==> 0 <= (#[trigger] set[i]).id < scores.len()
            && set[i] == scored_row(scores, set[i].id as int)
    &&& forall|i: int, j: int| 0 <= i < j < set.len() ==> (#[trigger] set[i]).id != (#[trigger] set[j]).id
    &&& forall|id: int, i: int| 0 <= id < scores.len() && !holds_row(set, id) && 0 <= i < set.len()
            ==> ranks_before(#[trigger] set[i], #[trigger] scored_row(scores, id))
    &&& scores.len() <= k ==> forall|id: int| 0 <= id < scores.len() ==> #[trigger] holds_row(set, id)
}

/// Whether a sequence holds the best rows does not depend on the order of its
/// entries.
proof fn lemma_best_set_in_any_order(
    scores: Seq<u32>,
    k: nat,
    a: Seq<SimilarityResult>,
    b: Seq<SimilarityResult>,
)
    requires
        is_best_set(scores, k, a),
        a.to_multiset() == b.to_multiset(),
    ensures
        is_best_set(scores, k, b),
{
    a.to_multiset_ensures();
    b.to_multiset_ensures();
    assert forall|i: int| 0 <= i < b.len() implies a.contains(#[trigger] b[i]) by {
        assert(b.contains(b[i]));
        assert(b.to_multiset().count(b[i]) > 0);
    }
    assert forall|i: int| 0 <= i < a.len() implies b.contains(#[trigger] a[i]) by {
        assert(a.contains(a[i]));
        assert(a.to_multiset().count(a[i]) > 0);
    }
    assert(a.no_duplicates()) by {
        assert forall|i: int, j: int| 0 <= i < a.len() && 0 <= j < a.len() && i != j implies a[i]
            != a[j] by {
            if i < j {
                assert(a[i].id != a[j].id);
            } else {
                assert(a[j].id != a[i].id);
            }
        }
    }
    a.lemma_multiset_has_no_duplicates();
    b.lemma_multiset_has_no_duplicates_conv();
    assert forall|i: int| 0 <= i < b.len() implies 0 <= (#[trigger] b[i]).id < scores.len() && b[i]
        == scored_row(scores, b[i].id as int) by {
        let j = choose|j: int| 0 <= j < a.len() && a[j] == b[i];
        assert(a[j] == scored_row(scores, a[j].id as int));
    }
    assert forall|i: int, j: int| 0 <= i < j < b.len() implies (#[trigger] b[i]).id != (
    #[trigger] b[j]).id by {
        assert(b[i] != b[j]);
    }
    assert forall|id: int| holds_row(a, id) implies holds_row(b, id) by {
        let j = choose|j: int| 0 <= j < a.len() && (#[trigger] a[j]).id == id;
        let i = choose|i: int| 0 <= i < b.len() && b[i] == a[j];
        assert(b[i].id == id);
    }
    assert forall|id: int, i: int|
        0 <= id < scores.len() && !holds_row(b, id) && 0 <= i < b.len() implies ranks_before(
        #[trigger] b[i],
        #[trigger] scored_row(scores, id),
    ) by {
        let j = choose|j: int| 0 <= j < a.len() && a[j] == b[i];
        if holds_row(a, id) {
            let h = choose|h: int| 0 <= h < a.len() && (#[trigger] a[h]).id == id;
            let g = choose|g: int| 0 <= g < b.len() && b[g] == a[h];
            assert(b[g].id == id);
        }
        assert(ranks_before(a[j], scored_row(scores, id)));
    }
}

/// While the heap is not full, the next row goes in.
proof fn lemma_push_keeps_best_set(scores: Seq<u32>, n: int, k: nat, set: Seq<SimilarityResult>)
    requires
        0 <= n < scores.len() <= usize::MAX,
        n < k,
        is_best_set(scores.take(n), k, set),
    ensures
        is_best_set(scores.take(n + 1), k, set.push(scored_row(scores, n))),
{
    let entry = scored_row(scores, n);
    let before = scores.take(n);
    let after = scores.take(n + 1);
    let out = set.push(entry);
    assert(forall|id: int| 0 <= id < n ==> scored_row(before, id) == scored_row(after, id));
    assert(scored_row(after, n) == entry);
    assert forall|i: int| 0 <= i < out.len() implies 0 <= (#[trigger] out[i]).id < after.len()
        && out[i] == scored_row(after, out[i].id as int) by {
        if i < n {
            assert(out[i] == set[i]);
        }
    }
    assert forall|i: int, j: int| 0 <= i < j < out.len() implies (#[trigger] out[i]).id != (
    #[trigger] out[j]).id by {
        assert(out[i] == set[i]);
        if j < n {
            assert(out[j] == set[j]);
        }
    }
    assert forall|id: int| 0 <= id < after.len() implies #[trigger] holds_row(out, id) by {
        if id < n {
            assert(holds_row(set, id));
            let i = choose|i: int| 0 <= i < set.len() && (#[trigger] set[i]).id == id;
            assert(out[i].id == id);
        } else {
            assert(out[n].id == n);
        }
    }
}

/// When the heap is full and the next row ranks before the worst row in it,
/// the next row takes the place of the worst.
proof fn lemma_replace_keeps_best_set(scores: Seq<u32>, n: int, k: nat, heap: Seq<SimilarityResult>)
    requires
        0 <= n < scores.len() <= usize::MAX,
        0 < k <= n,
        is_best_set(scores.take(n), k, heap),
        worst_first(heap),
        ranks_before(scored_row(scores, n), heap[0]),
    ensures
        is_best_set(scores.take(n + 1), k, heap.update(0, scored_row(scores, n))),
{
    let entry = scored_row(scores, n);
    let before = scores.take(n);
    let after = scores.take(n + 1);
    let out = heap.update(0, entry);
    let worst = heap[0];
    assert(forall|id: int| 0 <= id < n ==> scored_row(before, id) == scored_row(after, id));
    assert(scored_row(after, n) == entry);
    assert(worst == scored_row(before, worst.id as int));
    assert forall|i: int| 0 <= i < out.len() implies 0 <= (#[trigger] out[i]).id < after.len()
        && out[i] == scored_row(after, out[i].id as int) by {
        if i > 0 {
            assert(out[i] == heap[i]);
        }
    }
    assert forall|i: int, j: int| 0 <= i < j < out.len() implies (#[trigger] out[i]).id != (
    #[trigger] out[j]).id by {
        assert(out[j] == heap[j]);
        if i > 0 {
            assert(out[i] == heap[i]);
        }
    }
    assert(out[0].id == n);
    assert forall|id: int, i: int|
        0 <= id < after.len() && !holds_row(out, id) && 0 <= i < out.len() implies ranks_before(
        #[trigger] out[i],
        #[trigger] scored_row(after, id),
    ) by {
        if i > 0 {
            assert(out[i] == heap[i]);
            lemma_first_is_worst(heap, i);
            assert(heap[0].id != heap[i].id);
            assert(heap[i] == scored_row(before, heap[i].id as int));
        }
        if holds_row(heap, id) {
            let j = choose|j: int| 0 <= j < heap.len() && (#[trigger] heap[j]).id == id;
            if j > 0 {
                assert(out[j].id == id);
            }
            assert(scored_row(after, id) == worst);
        } else {
            assert(ranks_before(heap[i], scored_row(before, id)));
            assert(ranks_before(heap[0], scored_row(before, id)));
        }
    }
}

/// When the heap is full and the next row does not rank before the worst row
/// in it, the heap stays as it is.
proof fn lemma_skip_keeps_best_set(scores: Seq<u32>, n: int, k: nat, heap: Seq<SimilarityResult>)
    requires
        0 <= n < scores.len() <= usize::MAX,
        0 < k <= n,
        is_best_set(scores.take(n), k, heap),
        worst_first(heap),
        !ranks_before(scored_row(scores, n), heap[0]),
    ensures
        is_best_set(scores.take(n + 1), k, heap),
{
    let entry = scored_row(scores, n);
    let before = scores.take(n);
    let after = scores.take(n + 1);
    assert(forall|id: int| 0 <= id < n ==> scored_row(before, id) == scored_row(after, id));
    assert(scored_row(after, n) == entry);
    assert(heap[0] == scored_row(before, heap[0].id as int));
    assert forall|id: int, i: int|
        0 <= id < after.len() && !holds_row(heap, id) && 0 <= i < heap.len() implies ranks_before(
        #[trigger] heap[i],
        #[trigger] scored_row(after, id),
    ) by {
        lemma_first_is_worst(heap, i);
        assert(heap[i] == scored_row(before, heap[i].id as int));
        if i > 0 {
            assert(heap[0].id != heap[i].id);
        }
        if id < n {
            assert(ranks_before(heap[i], scored_row(before, id)));
        }
    }
}

/// One step of the final sort: with the worst of the first `end + 1` entries
/// moved to position `end` and heap order restored before it, the entries from
/// `end` on are ranked, and each entry before `end` ranks before them.
proof fn lemma_sort_step(
    scores: Seq<u32>,
    k: nat,
    before: Seq<SimilarityResult>,
    mid: Seq<SimilarityResult>,
    after: Seq<SimilarityResult>,
    end: int,
)
    requires
        is_best_set(scores, k, before),
        0 < end < before.len(),
        worst_first(before.take(end + 1)),
        forall|a: int, b: int|
            end < a < b < before.len() ==> ranks_before(#[trigger] before[a], #[trigger] before[b]),
        forall|i: int, a: int|
            0 <= i <= end < a < before.len() ==> ranks_before(
                #[trigger] before[i],
                #[trigger] before[a],
            ),
        mid == before.update(0, before[end]).update(end, before[0]),
        after.len() == mid.len(),
        after.take(end).to_multiset() == mid.take(end).to_multiset(),
        after.skip(end) == mid.skip(end),
    ensures
        forall|a: int, b: int|
            end <= a < b < after.len() ==> ranks_before(#[trigger] after[a], #[trigger] after[b]),
        forall|i: int, a: int|
            0 <= i < end <= a < after.len() ==> ranks_before(#[trigger] after[i], #[trigger] after[a]),
{
    let worst = before[0];
    assert forall|a: int| end <= a < after.len() implies #[trigger] after[a] == mid[a] by {
        assert(after.skip(end)[a - end] == mid.skip(end)[a - end]);
    }
    assert(mid[end] == worst);
    assert(forall|a: int| end < a < mid.len() ==> #[trigger] mid[a] == before[a]);
    after.take(end).to_multiset_ensures();
    mid.take(end).to_multiset_ensures();
    assert forall|i: int, a: int| 0 <= i < end <= a < after.len() implies ranks_before(
        #[trigger] after[i],
        #[trigger] after[a],
    ) by {
        let x = after[i];
        assert(after.take(end)[i] == x);
        assert(after.take(end).contains(x));
        assert(mid.take(end).to_multiset().count(x) > 0);
        let j = choose|j: int| 0 <= j < mid.take(end).len() && mid.take(end)[j] == x;
        let from = if j == 0 {
            end
        } else {
            j
        };
        assert(mid[j] == before[from]);
        assert(x == before[from]);
        if a == end {
            lemma_first_is_worst(before.take(end + 1), from);
            assert(before.take(end + 1)[from] == before[from]);
            assert(before.take(end + 1)[0] == before[0]);
            assert(before[0].id != before[from].id);
            assert(before[0] == scored_row(scores, before[0].id as int));
            assert(before[from] == scored_row(scores, before[from].id as int));
        } else {
            assert(ranks_before(before[from], before[a]));
        }
    }
    assert forall|a: int, b: int| end <= a < b < after.len() implies ranks_before(
        #[trigger] after[a],
        #[trigger] after[b],
    ) by {
        if a == end {
            assert(ranks_before(before[0], before[b]));
        } else {
            assert(ranks_before(before[a], before[b]));
        }
    }
}

/// The `min(k, N)` best rows of `scores`, best first.
///
/// The rows go through a heap of at most `k` entries with the worst on top, so
/// that a row is compared with the worst kept so far and with one path of the
/// heap; the heap is sorted in place at the end.
pub fn rank_top_k(scores: &Vec<u32>, k: usize) -> (out: Vec<SimilarityResult>)
    ensures
        is_top_k(scores@, k as nat, out@),
{
    let mut heap: Vec<SimilarityResult> = Vec::new();
    if k == 0 {
        return heap;
    }
    let mut n: usize = 0;
    while n < scores.len()
        invariant
            k > 0,
            n <= scores@.len(),
            is_best_set(scores@.take(n as int), k as nat, heap@),
            worst_first(heap@),
        decreases scores@.len() - n,
    {
        let entry = SimilarityResult { id: n, score: scores[n] };
        let ghost kept = heap@;
        assert(entry == scored_row(scores@, n as int));
        if heap.len() < k {
            heap.push(entry);
            let last = heap.len() - 1;
            let ghost grown = heap@;
            proof {
                lemma_push_keeps_best_set(scores@, n as int, k as nat, kept);
                assert forall|i: int| 0 < i < grown.len() && i != last implies !ranks_before(
                    grown[(i - 1) / 2],
                    #[trigger] grown[i],
                ) by {
                    assert(grown[i] == kept[i]);
                    assert(grown[(i - 1) / 2] == kept[(i - 1) / 2]);
                }
            }
            sift_up(&mut heap, last);
            proof {
                lemma_best_set_in_any_order(scores@.take(n + 1), k as nat, grown, heap@);
            }
        } else if comes_before(entry, heap[0]) {
            heap.set(0, entry);
            let ghost changed = heap@;
            proof {
                lemma_replace_keeps_best_set(scores@, n as int, k as nat, kept);
                assert(changed.take(k as int) =~= changed);
                assert forall|i: int| 0 < i < changed.len() && (i - 1) / 2 != 0 implies !ranks_before(
                    changed[(i - 1) / 2],
                    #[trigger] changed[i],
                ) by {
                    assert(changed[i] == kept[i]);
                    assert(changed[(i - 1) / 2] == kept[(i - 1) / 2]);
                }
            }
            sift_down(&mut heap, 0, k);
            proof {
                assert(heap@.take(k as int) =~= heap@);
                lemma_best_set_in_any_order(scores@.take(n + 1), k as nat, changed, heap@);
            }
        } else {
            proof {
                lemma_skip_keeps_best_set(scores@, n as int, k as nat, kept);
            }
        }
        n += 1;
    }
    assert(scores@.take(n as int) =~= scores@);
    let ghost chosen = heap@;
    let mut end: usize = heap.len();
    assert(heap@.take(end as int) =~= heap@);
    while end > 1
        invariant
            end <= heap@.len(),
            heap@.len() == chosen.len(),
            is_best_set(scores@, k as nat, chosen),
            heap@.to_multiset() == chosen.to_multiset(),
            worst_first(heap@.take(end as int)),
            forall|a: int, b: int|
                end <= a < b < heap@.len() ==> ranks_before(
                    #[trigger] heap@[a],
                    #[trigger] heap@[b],
                ),
            forall|i: int, a: int|
                0 <= i < end <= a < heap@.len() ==> ranks_before(
                    #[trigger] heap@[i],
                    #[trigger] heap@[a],
                ),
        decreases end,
    {
        let ghost before = heap@;
        end -= 1;
        swap_entries(&mut heap, 0, end);
        let ghost mid = heap@;
        if end > 1 {
            proof {
                assert forall|i: int|
                    0 < i < end && (i - 1) / 2 != 0 implies !ranks_before(
                    mid.take(end as int)[(i - 1) / 2],
                    #[trigger] mid.take(end as int)[i],
                ) by {
                    assert(mid[i] == before.take(end + 1)[i]);
                    assert(mid[(i - 1) / 2] == before.take(end + 1)[(i - 1) / 2]);
                }
            }
            sift_down(&mut heap, 0, end);
        }
        proof {
            lemma_best_set_in_any_order(scores@, k as nat, chosen, before);
            lemma_sort_step(scores@, k as nat, before, mid, heap@, end as int);
        }
    }
    proof {
        lemma_best_set_in_any_order(scores@, k as nat, chosen, heap@);
    }
    heap
}

/// Answers are sorted: along an answer the score never grows, and of two rows
/// with the same score the one with the smaller row id comes first.
pub proof fn lemma_answer_is_sorted(
    scores: Seq<u32>,
    k: nat,
    out: Seq<SimilarityResult>,
    i: int,
    j: int,
)
    requires
        is_top_k(scores, k, out),
        0 <= i < j < out.len(),
    ensures
        score_rank(out[i].score) >= score_rank(out[j].score),
        score_rank(out[i].score) == score_rank(out[j].score) ==> out[i].id < out[j].id,
{
    assert(ranks_before(out[i], out[j]));
}

/// Asking for nothing gives nothing, and asking for at least as many rows as
/// there are gives each row once.
pub proof fn lemma_answer_size(scores: Seq<u32>, k: nat, out: Seq<SimilarityResult>)
    requires
        is_top_k(scores, k, out),
    ensures
        k == 0 ==> out == Seq::<SimilarityResult>::empty(),
        k >= scores.len() ==> out.len() == scores.len(),
        k >= scores.len() ==> forall|id: int| 0 <= id < scores.len() ==> #[trigger] holds_row(out, id),
        forall|i: int, j: int| 0 <= i < j < out.len() ==> (#[trigger] out[i]).id != (#[trigger] out[j]).id,
{
    if k == 0 {
        assert(out =~= Seq::<SimilarityResult>::empty());
    }
    assert forall|i: int, j: int| 0 <= i < j < out.len() implies (#[trigger] out[i]).id != (
    #[trigger] out[j]).id by {
        assert(ranks_before(out[i], out[j]));
        assert(out[j] == scored_row(scores, out[j].id as int));
    }
}

/// The first entry of an answer has a score that no row exceeds. So a row
/// whose score no other row exceeds is first or tied with the first.
pub proof fn lemma_first_is_a_maximum(scores: Seq<u32>, k: nat, out: Seq<SimilarityResult>, id: int)
    requires
        is_top_k(scores, k, out),
        k >= 1,
        0 <= id < scores.len(),
    ensures
        out.len() >= 1,
        score_rank(out[0].score) >= score_rank(scores[id]),
        (forall|other: int|
            0 <= other < scores.len() ==> score_rank(#[trigger] scores[other]) <= score_rank(
                scores[id],
            )) ==> score_rank(out[0].score) == score_rank(scores[id]),
{
    if holds_row(out, id) {
        let i = choose|i: int| 0 <= i < out.len() && (#[trigger] out[i]).id == id;
        assert(out[i] == scored_row(scores, out[i].id as int));
        if i > 0 {
            assert(ranks_before(out[0], out[i]));
        }
    } else {
        assert(ranks_before(out[0], scored_row(scores, id)));
    }
    assert(out[0] == scored_row(scores, out[0].id as int));
}

/// In two answers that agree before position `i`, the entry of the second at
/// `i` does not rank before the entry of the first.
proof fn lemma_not_beaten(
    scores: Seq<u32>,
    k: nat,
    a: Seq<SimilarityResult>,
    b: Seq<SimilarityResult>,
    i: int,
)
    requires
        is_top_k(scores, k, a),
        is_top_k(scores, k, b),
        0 <= i < a.len(),
        forall|j: int| 0 <= j < i ==> a[j] == b[j],
    ensures
        !ranks_before(b[i], a[i]),
{
    let x = a[i];
    let y = b[i];
    assert(y == scored_row(scores, y.id as int));
    if ranks_before(y, x) {
        if holds_row(a, y.id as int) {
            let j = choose|j: int| 0 <= j < a.len() && (#[trigger] a[j]).id == y.id as int;
            assert(a[j] == scored_row(scores, a[j].id as int));
            if j < i {
                assert(ranks_before(b[j], b[i]));
            } else if j > i {
                assert(ranks_before(a[i], a[j]));
            }
        } else {
            assert(ranks_before(a[i], scored_row(scores, y.id as int)));
        }
    }
}

/// Two answers for the same scores and the same `k` agree on the first `n`
/// entries.
proof fn lemma_same_prefix(
    scores: Seq<u32>,
    k: nat,
    a: Seq<SimilarityResult>,
    b: Seq<SimilarityResult>,
    n: int,
)
    requires
        is_top_k(scores, k, a),
        is_top_k(scores, k, b),
        0 <= n <= a.len(),
    ensures
        forall|j: int| 0 <= j < n ==> a[j] == b[j],
    decreases n,
{
    if n > 0 {
        lemma_same_prefix(scores, k, a, b, n - 1);
        let i = n - 1;
        lemma_not_beaten(scores, k, a, b, i);
        lemma_not_beaten(scores, k, b, a, i);
        assert(a[i] == scored_row(scores, a[i].id as int));
        assert(b[i] == scored_row(scores, b[i].id as int));
    }
}

/// There is one answer and no other: what [`is_top_k`] says of an answer
/// leaves no choice.
pub proof fn lemma_top_k_is_unique(
    scores: Seq<u32>,
    k: nat,
    a: Seq<SimilarityResult>,
    b: Seq<SimilarityResult>,
)
    requires
        is_top_k(scores, k, a),
        is_top_k(scores, k, b),
    ensures
        a == b,
{
    lemma_same_prefix(scores, k, a, b, a.len() as int);
    assert(a =~= b);
}

} // verus!
