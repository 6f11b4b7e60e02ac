//! Batches of a corpus, and the ordered join of what was computed for them.
//!
//! A corpus of `N` texts is cut into contiguous batches of `B` texts, the last
//! one shorter when `B` does not divide `N`. Each batch is embedded on its own,
//! in any order and on any thread; its output comes back tagged with the batch
//! index. The join puts the rows of batch `k` at rows `k * B ..` of the matrix,
//! whatever order the outputs arrived in.

use vstd::prelude::*;
use vstd::arithmetic::div_mod::{lemma_fundamental_div_mod, lemma_fundamental_div_mod_converse};
use vstd::pervasive::VecAdditionalExecFns;
use vstd::set_lib::{lemma_int_range, lemma_len_subset, lemma_subset_equality, set_int_range};
use crate::SearchError;

verus! {

/// How many batches of `size` items `total` items make.
pub open spec fn batch_count(total: nat, size: nat) -> nat {
    total / size + if total % size > 0 {
        1nat
    } else {
        0nat
    }
}

/// How many items batch `k` holds: `size`, or what is left for the last one.
pub open spec fn batch_len(total: nat, size: nat, k: nat) -> nat {
    if k < total / size {
        size
    } else {
        total % size
    }
}

/// Batch `k` of `items`.
pub open spec fn batch_of<A>(items: Seq<A>, size: nat, k: nat) -> Seq<A> {
    items.subrange((k * size) as int, (k * size + batch_len(items.len(), size, k)) as int)
}

/// Batch `k` lies inside the corpus and is not empty, and the last batch ends
/// where the corpus ends.
pub proof fn lemma_batch_bounds(total: nat, size: nat, k: nat)
    requires
        size > 0,
        k < batch_count(total, size),
    ensures
        0 < batch_len(total, size, k) <= size,
        k * size + batch_len(total, size, k) <= total,
        k == total / size ==> k * size + batch_len(total, size, k) == total,
{
    let full = total / size;
    lemma_fundamental_div_mod(total as int, size as int);
    assert(total == size * full + total % size);
    if k < full {
        assert((k + 1) * size <= full * size) by (nonlinear_arith)
            requires
                k + 1 <= full,
                size > 0,
        ;
        assert((k + 1) * size == k * size + size) by (nonlinear_arith);
        assert(size * full == full * size) by (nonlinear_arith);
    } else {
        assert(k == full);
        assert(size * full == k * size) by (nonlinear_arith)
            requires
                k == full,
        ;
    }
}

/// Row `p` of a corpus belongs to batch `p / size`, where it is item `p % size`.
pub proof fn lemma_row_in_batch(total: nat, size: nat, p: nat)
    requires
        size > 0,
        p < total,
    ensures
        p / size < batch_count(total, size),
        p % size < batch_len(total, size, p / size),
        p == (p / size) * size + p % size,
{
    let full = total / size;
    let k = p / size;
    lemma_fundamental_div_mod(total as int, size as int);
    lemma_fundamental_div_mod(p as int, size as int);
    assert(size * k == k * size) by (nonlinear_arith);
    if k > full {
        assert(k * size >= (full + 1) * size) by (nonlinear_arith)
            requires
                k >= full + 1,
                size > 0,
        ;
        assert((full + 1) * size == size * full + size) by (nonlinear_arith);
    }
    if k == full {
        assert(k * size == size * full) by (nonlinear_arith)
            requires
                k == full,
        ;
    }
}

/// Computes [`batch_count`].
pub fn count_batches(total: usize, batch_size: usize) -> (count: usize)
    requires
        batch_size > 0,
    ensures
        count == batch_count(total as nat, batch_size as nat),
{
    let full = total / batch_size;
    if total % batch_size > 0 {
        proof {
            lemma_fundamental_div_mod(total as int, batch_size as int);
            assert(batch_size * full >= full) by (nonlinear_arith)
                requires
                    batch_size >= 1,
                    full >= 0,
            ;
        }
        full + 1
    } else {
        full
    }
}

/// Cuts `texts` into contiguous batches of `batch_size`, in corpus order.
pub fn partition(texts: &Vec<String>, batch_size: usize) -> (batches: Vec<Vec<String>>)
    requires
        batch_size > 0,
    ensures
        batches@.len() == batch_count(texts@.len(), batch_size as nat),
        forall|k: int|
            0 <= k < batches@.len() ==> (#[trigger] batches@[k])@ == batch_of(
                texts@,
                batch_size as nat,
                k as nat,
            ),
{
    let total = texts.len();
    let full = total / batch_size;
    let rem = total % batch_size;
    let mut batches: Vec<Vec<String>> = Vec::new();
    let mut next: usize = 0;
    proof {
        lemma_fundamental_div_mod(total as int, batch_size as int);
    }
    while next < total
        invariant
            batch_size > 0,
            total == texts@.len(),
            full == total / batch_size,
            rem == total % batch_size,
            total == batch_size * full + rem,
            next <= total,
            batches@.len() <= batch_count(total as nat, batch_size as nat),
            next == if batches@.len() <= full {
                batches@.len() * batch_size
            } else {
                total as int
            },
            forall|k: int|
                0 <= k < batches@.len() ==> (#[trigger] batches@[k])@ == batch_of(
                    texts@,
                    batch_size as nat,
                    k as nat,
                ),
        decreases total - next,
    {
        let k = batches.len();
        proof {
            if k > full {
                assert(false);
            }
            if k == full {
                assert(k * batch_size == batch_size * full) by (nonlinear_arith)
                    requires
                        k == full,
                ;
            }
            lemma_batch_bounds(total as nat, batch_size as nat, k as nat);
        }
        let len = if k < full {
            batch_size
        } else {
            rem
        };
        let mut batch: Vec<String> = Vec::new();
        let mut j: usize = 0;
        while j < len
            invariant
                j <= len,
                next + len <= total,
                total == texts@.len(),
                batch@ == texts@.subrange(next as int, next + j),
            decreases len - j,
        {
            batch.push(texts[next + j].clone());
            assert(batch@ =~= texts@.subrange(next as int, next + j + 1));
            j += 1;
        }
        batches.push(batch);
        proof {
            assert((k + 1) * batch_size == k * batch_size + batch_size) by (nonlinear_arith);
        }
        next += len;
    }
    proof {
        let k = batches@.len() as int;
        if k < full {
            assert(k * batch_size + batch_size <= batch_size * full) by (nonlinear_arith)
                requires
                    k + 1 <= full,
                    batch_size > 0,
            ;
        } else if k == full {
            assert(k * batch_size == batch_size * full) by (nonlinear_arith)
                requires
                    k == full,
            ;
        }
    }
    batches
}

/// Some batch came back without an output.
pub open spec fn any_failed<R>(tagged: Seq<(usize, Option<Vec<R>>)>) -> bool {
    exists|i: int| 0 <= i < tagged.len() && (#[trigger] tagged[i]).1 is None
}

/// The tagged outputs are what a run over `total` texts in batches of `size`
/// gives: one output for each batch, each tag a batch index that no other
/// output has, each output as long as its batch.
pub open spec fn well_tagged<R>(tagged: Seq<(usize, Option<Vec<R>>)>, total: nat, size: nat) -> bool {
    &&& tagged.len() == batch_count(total, size)
    &&& forall|i: int|
        0 <= i < tagged.len() ==> {
            &&& (#[trigger] tagged[i]).0 < tagged.len()
            &&& tagged[i].1 matches Some(rows)
            &&& rows@.len() == batch_len(total, size, tagged[i].0 as nat)
        }
    &&& forall|i: int, j: int|
        0 <= i < j < tagged.len() ==> (#[trigger] tagged[i]).0 != (#[trigger] tagged[j]).0
}

/// The row of the matrix that holds item `j` of batch `k`.
pub open spec fn row_index(size: nat, k: int, j: int) -> int {
    k * size + j
}

/// Row `p` of `rows` is item `p % size` of an output tagged `p / size`.
pub open spec fn row_comes_from<R>(
    tagged: Seq<(usize, Option<Vec<R>>)>,
    size: nat,
    rows: Seq<R>,
    p: int,
) -> bool {
    exists|i: int|
        {
            &&& 0 <= i < tagged.len()
            &&& (#[trigger] tagged[i]).0 == p / (size as int)
            &&& p % (size as int) < tagged[i].1.unwrap()@.len()
            &&& rows[p] == tagged[i].1.unwrap()@[p % (size as int)]
        }
}

/// `rows` is the ordered join of the tagged outputs: `total` rows, where item
/// `j` of the output tagged `k` is row `k * size + j`, and each row is such an
/// item.
pub open spec fn joins_to<R>(
    tagged: Seq<(usize, Option<Vec<R>>)>,
    total: nat,
    size: nat,
    rows: Seq<R>,
) -> bool {
    &&& rows.len() == total
    &&& forall|i: int, j: int|
        0 <= i < tagged.len() && 0 <= j < tagged[i].1.unwrap()@.len() ==> {
            &&& 0 <= #[trigger] row_index(size, tagged[i].0 as int, j) < total
            &&& rows[row_index(size, tagged[i].0 as int, j)] == tagged[i].1.unwrap()@[j]
        }
    &&& forall|p: int| 0 <= p < total ==> #[trigger] row_comes_from(tagged, size, rows, p)
}

/// A run that hands back one output for each batch, as long as its batch, can
/// be joined, whatever the batch size: the join then has a row for each text.
pub proof fn lemma_one_output_per_batch_is_well_tagged<R>(
    tagged: Seq<(usize, Option<Vec<R>>)>,
    total: nat,
    size: nat,
)
    requires
        size > 0,
        tagged.len() == batch_count(total, size),
        forall|k: int|
            0 <= k < tagged.len() ==> {
                &&& (#[trigger] tagged[k]).0 == k
                &&& tagged[k].1 matches Some(rows)
                &&& rows@.len() == batch_len(total, size, k as nat)
            },
    ensures
        well_tagged(tagged, total, size),
{
}

/// Among well-tagged outputs every batch has its output.
pub proof fn lemma_every_batch_is_tagged<R>(
    tagged: Seq<(usize, Option<Vec<R>>)>,
    total: nat,
    size: nat,
    k: int,
)
    requires
        well_tagged(tagged, total, size),
        0 <= k < tagged.len(),
    ensures
        exists|i: int| 0 <= i < tagged.len() && (#[trigger] tagged[i]).0 == k,
{
    let tags = Seq::new(tagged.len(), |i: int| tagged[i].0 as int);
    let range = set_int_range(0, tagged.len() as int);
    assert(tags.no_duplicates());
    tags.unique_seq_to_set();
    lemma_int_range(0, tagged.len() as int);
    assert forall|t: int| tags.to_set().contains(t) implies range.contains(t) by {
        let i = choose|i: int| 0 <= i < tags.len() && tags[i] == t;
        assert(tagged[i].0 < tagged.len());
    }
    lemma_len_subset(tags.to_set(), range);
    lemma_subset_equality(tags.to_set(), range);
    assert(range.contains(k));
    assert(tags.to_set().contains(k));
    let i = choose|i: int| 0 <= i < tags.len() && tags[i] == k;
    assert(tagged[i].0 == k);
}

/// The join does not depend on the order in which the outputs arrived: two
/// lists of tagged outputs, the second holding every output of the first, join
/// to the same rows.
pub proof fn lemma_join_ignores_arrival_order<R>(
    first: Seq<(usize, Option<Vec<R>>)>,
    second: Seq<(usize, Option<Vec<R>>)>,
    total: nat,
    size: nat,
    rows_a: Seq<R>,
    rows_b: Seq<R>,
)
    requires
        size > 0,
        joins_to(first, total, size, rows_a),
        joins_to(second, total, size, rows_b),
        forall|i: int|
            0 <= i < first.len() ==> exists|j: int|
                0 <= j < second.len() && #[trigger] second[j] == #[trigger] first[i],
    ensures
        rows_a == rows_b,
{
    assert forall|p: int| 0 <= p < total implies rows_a[p] == rows_b[p] by {
        assert(row_comes_from(first, size, rows_a, p));
        let i = choose|i: int|
            {
                &&& 0 <= i < first.len()
                &&& (#[trigger] first[i]).0 == p / (size as int)
                &&& p % (size as int) < first[i].1.unwrap()@.len()
                &&& rows_a[p] == first[i].1.unwrap()@[p % (size as int)]
            };
        let j = choose|j: int| 0 <= j < second.len() && #[trigger] second[j] == first[i];
        let at = row_index(size, second[j].0 as int, p % (size as int));
        lemma_fundamental_div_mod(p, size as int);
        assert(size * (p / (size as int)) == (p / (size as int)) * size) by (nonlinear_arith);
        assert(at == p);
    }
    assert(rows_a =~= rows_b);
}

/// Row `p` of `rows` is item `p % size` of the output that stands in slot
/// `p / size`.
spec fn row_is_placed<R>(rows: Seq<R>, slots: Seq<Option<Vec<R>>>, size: int, p: int) -> bool {
    let k = p / size;
    let j = p % size;
    &&& 0 <= k < slots.len()
    &&& slots[k] is Some
    &&& 0 <= j < slots[k].unwrap()@.len()
    &&& rows[p] == slots[k].unwrap()@[j]
}

/// Joins the tagged batch outputs into the matrix, batch by batch in batch-index
/// order, whatever order they stand in.
///
/// Fails with `InferenceError` when some batch has no output, and otherwise with
/// `IndexInconsistent` when the outputs are not one for each batch, each as long
/// as its batch: no matrix comes out whose row count differs from `total`.
pub fn join_batches<R>(tagged: Vec<(usize, Option<Vec<R>>)>, total: usize, batch_size: usize) -> (joined:
    Result<Vec<R>, SearchError>)
    requires
        batch_size > 0,
    ensures
        joined is Ok <==> well_tagged(tagged@, total as nat, batch_size as nat),
        joined matches Ok(rows) ==> joins_to(tagged@, total as nat, batch_size as nat, rows@),
        joined matches Err(e) ==> e == if any_failed(tagged@) {
            SearchError::InferenceError
        } else {
            SearchError::IndexInconsistent
        },
{
    let count = count_batches(total, batch_size);
    let full = total / batch_size;
    let rem = total % batch_size;
    let mut i: usize = 0;
    while i < tagged.len()
        invariant
            i <= tagged@.len(),
            forall|j: int| 0 <= j < i ==> (#[trigger] tagged@[j]).1 is Some,
        decreases tagged@.len() - i,
    {
        if tagged[i].1.is_none() {
            return Err(SearchError::InferenceError);
        }
        i += 1;
    }
    if tagged.len() != count {
        return Err(SearchError::IndexInconsistent);
    }
    let mut slots: Vec<Option<Vec<R>>> = Vec::new();
    while slots.len() < count
        invariant
            slots@.len() <= count,
            forall|k: int| 0 <= k < slots@.len() ==> (#[trigger] slots@[k]) is None,
        decreases count - slots@.len(),
    {
        slots.push(None);
    }
    let ghost all = tagged@;
    let mut pending = tagged;
    while pending.len() > 0
        invariant
            batch_size > 0,
            full == total / batch_size,
            rem == total % batch_size,
            count == batch_count(total as nat, batch_size as nat),
            all == tagged@,
            all.len() == count,
            slots@.len() == count,
            pending@.len() <= all.len(),
            pending@ == all.take(pending@.len() as int),
            forall|j: int| 0 <= j < all.len() ==> (#[trigger] all[j]).1 is Some,
            forall|j: int|
                pending@.len() <= j < all.len() ==> {
                    &&& (#[trigger] all[j]).0 < count
                    &&& slots@[all[j].0 as int] == all[j].1
                    &&& all[j].1.unwrap()@.len() == batch_len(
                        total as nat,
                        batch_size as nat,
                        all[j].0 as nat,
                    )
                },
            forall|a: int, b: int|
                pending@.len() <= a < b < all.len() ==> (#[trigger] all[a]).0 != (#[trigger] all[b]).0,
            forall|k: int|
                0 <= k < count && (#[trigger] slots@[k]) is Some ==> exists|j: int|
                    pending@.len() <= j < all.len() && (#[trigger] all[j]).0 == k,
        decreases pending@.len(),
    {
        let ghost here = pending@.len() - 1;
        let entry = pending.pop().unwrap();
        assert(entry == all[here]);
        let tag = entry.0;
        let output = entry.1;
        if tag >= count {
            return Err(SearchError::IndexInconsistent);
        }
        let expected = if tag < full {
            batch_size
        } else {
            rem
        };
        let fits = match &output {
            Some(rows) => rows.len() == expected,
            None => false,
        };
        if !fits {
            return Err(SearchError::IndexInconsistent);
        }
        if slots[tag].is_some() {
            proof {
                let j = choose|j: int| here < j < all.len() && (#[trigger] all[j]).0 == tag;
                assert(all[here].0 == all[j].0);
            }
            return Err(SearchError::IndexInconsistent);
        }
        slots.set(tag, output);
        proof {
            assert forall|k: int| 0 <= k < count && (#[trigger] slots@[k]) is Some implies exists|
                j: int,
            |
                here <= j < all.len() && (#[trigger] all[j]).0 == k by {
                if k == tag {
                    assert(all[here].0 == k);
                }
            }
        }
    }
    assert(well_tagged(all, total as nat, batch_size as nat));
    proof {
        assert forall|k: int| 0 <= k < count implies (#[trigger] slots@[k]) is Some
            && slots@[k].unwrap()@.len() == batch_len(total as nat, batch_size as nat, k as nat) by {
            lemma_every_batch_is_tagged(all, total as nat, batch_size as nat, k);
            let i = choose|i: int| 0 <= i < all.len() && (#[trigger] all[i]).0 == k;
            assert(slots@[all[i].0 as int] == all[i].1);
        }
        lemma_fundamental_div_mod(total as int, batch_size as int);
    }
    let ghost filled = slots@;
    let mut rows: Vec<R> = Vec::new();
    let mut k: usize = 0;
    while k < count
        invariant
            batch_size > 0,
            full == total / batch_size,
            rem == total % batch_size,
            total == batch_size * full + rem,
            count == batch_count(total as nat, batch_size as nat),
            k <= count,
            slots@.len() == count,
            filled.len() == count,
            forall|kk: int| k <= kk < count ==> #[trigger] slots@[kk] == filled[kk],
            forall|kk: int|
                0 <= kk < count ==> (#[trigger] filled[kk]) is Some && filled[kk].unwrap()@.len()
                    == batch_len(total as nat, batch_size as nat, kk as nat),
            rows@.len() == if k <= full {
                k * batch_size
            } else {
                total as int
            },
            forall|p: int|
                0 <= p < rows@.len() ==> #[trigger] row_is_placed(rows@, filled, batch_size as int, p),
        decreases count - k,
    {
        let mut taken: Option<Vec<R>> = None;
        slots.set_and_swap(k, &mut taken);
        assert(taken == filled[k as int]);
        let mut batch = taken.unwrap();
        let ghost start = rows@.len() as int;
        let ghost before = rows@;
        let ghost items = batch@;
        proof {
            lemma_batch_bounds(total as nat, batch_size as nat, k as nat);
            if k == full {
                assert(k * batch_size == batch_size * full) by (nonlinear_arith)
                    requires
                        k == full,
                ;
            }
            assert((k + 1) * batch_size == k * batch_size + batch_size) by (nonlinear_arith);
            assert(start == k * batch_size);
        }
        rows.append(&mut batch);
        proof {
            assert forall|p: int| 0 <= p < rows@.len() implies #[trigger] row_is_placed(
                rows@,
                filled,
                batch_size as int,
                p,
            ) by {
                if p < start {
                    assert(row_is_placed(before, filled, batch_size as int, p));
                    assert(rows@[p] == before[p]);
                } else {
                    lemma_fundamental_div_mod_converse(
                        p,
                        batch_size as int,
                        k as int,
                        p - start,
                    );
                    assert(rows@[p] == items[p - start]);
                }
            }
        }
        k += 1;
    }
    proof {
        let size = batch_size as nat;
        assert(rows@.len() == total) by {
            if count <= full {
                assert(count * batch_size == batch_size * full) by (nonlinear_arith)
                    requires
                        count == full,
                ;
            }
        }
        assert forall|i: int, j: int|
            0 <= i < all.len() && 0 <= j < all[i].1.unwrap()@.len() implies 0 <= #[trigger] row_index(
            size,
            all[i].0 as int,
            j,
        ) < total && rows@[row_index(size, all[i].0 as int, j)] == all[i].1.unwrap()@[j] by {
            let tag = all[i].0 as int;
            let p = row_index(size, tag, j);
            lemma_batch_bounds(total as nat, size, tag as nat);
            assert(0 <= tag * size) by (nonlinear_arith)
                requires
                    tag >= 0,
                    size >= 0,
            ;
            lemma_fundamental_div_mod_converse(p, size as int, tag, j);
            assert(row_is_placed(rows@, filled, batch_size as int, p));
            assert(filled[tag] == all[i].1);
        }
        assert forall|p: int| 0 <= p < total implies #[trigger] row_comes_from(
            all,
            size,
            rows@,
            p,
        ) by {
            lemma_row_in_batch(total as nat, size, p as nat);
            let tag = p / (size as int);
            lemma_every_batch_is_tagged(all, total as nat, size, tag);
            let i = choose|i: int| 0 <= i < all.len() && (#[trigger] all[i]).0 == tag;
            assert(row_is_placed(rows@, filled, batch_size as int, p));
            assert(filled[tag] == all[i].1);
            assert(all[i].0 == p / (size as int));
        }
    }
    Ok(rows)
}

} // verus!
