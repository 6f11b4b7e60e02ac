//! The loaded embedding matrix beside its text map.
//!
//! The index is generic in the component type of a vector: it carries the
//! components and never reads them. Scoring is the caller's metric, which hands
//! back the bit pattern of a 32-bit float for each row.

use vstd::prelude::*;
use crate::SearchError;
use crate::search::{is_top_k, rank_top_k, SimilarityResult};

verus! {

/// An embedding matrix of `N` rows and `D` columns with the `N` texts that the
/// rows were computed from. Immutable once built.
pub struct VectorIndex<T> {
    dim: usize,
    rows: Vec<Vec<T>>,
    texts: Vec<String>,
}

/// One line of an answer as a client sees it: the text of the row, the row id
/// and the score.
#[derive(Clone, Debug, PartialEq, Eq)]
pub struct Hit {
    pub text: String,
    pub id: usize,
    pub score: u32,
}

/// Every row of `rows` has `dim` components.
pub open spec fn all_rows_have_dim<T>(rows: Seq<Vec<T>>, dim: nat) -> bool {
    forall|i: int| 0 <= i < rows.len() ==> (#[trigger] rows[i])@.len() == dim
}

/// `scores` holds, for each row, a score that `metric` gives for `query` and
/// that row.
pub open spec fn scores_of<T, F: Fn(&Vec<T>, &Vec<T>) -> u32>(
    metric: F,
    query: &Vec<T>,
    rows: Seq<Vec<T>>,
    scores: Seq<u32>,
) -> bool {
    &&& scores.len() == rows.len()
    &&& forall|id: int|
        0 <= id < rows.len() ==> metric.ensures((query, &#[trigger] rows[id]), scores[id])
}

impl<T> VectorIndex<T> {
    /// The rows of the matrix, in row-id order.
    pub closed spec fn matrix(&self) -> Seq<Vec<T>> {
        self.rows@
    }

    /// The texts, in row-id order.
    pub closed spec fn text_map(&self) -> Seq<String> {
        self.texts@
    }

    /// The number of columns, `D`.
    pub closed spec fn dimension(&self) -> nat {
        self.dim as nat
    }

    /// The central invariant: as many rows as texts, and every row of dimension
    /// `D`.
    #[verifier::type_invariant]
    pub closed spec fn consistent(&self) -> bool {
        &&& self.rows@.len() == self.texts@.len()
        &&& all_rows_have_dim(self.rows@, self.dim as nat)
    }

    /// Builds the index, checking once that matrix and text map agree.
    ///
    /// Fails with `IndexInconsistent` when the row counts differ, and with
    /// `DimensionMismatch` when the counts agree but some row has not `dim`
    /// components.
    pub fn new(dim: usize, rows: Vec<Vec<T>>, texts: Vec<String>) -> (built: Result<
        VectorIndex<T>,
        SearchError,
    >)
        ensures
            built is Ok <==> rows@.len() == texts@.len() && all_rows_have_dim(rows@, dim as nat),
            built matches Ok(index) ==> index.matrix() == rows@ && index.text_map() == texts@
                && index.dimension() == dim,
            built matches Err(e) ==> e == if rows@.len() != texts@.len() {
                SearchError::IndexInconsistent
            } else {
                SearchError::DimensionMismatch
            },
    {
        if rows.len() != texts.len() {
            return Err(SearchError::IndexInconsistent);
        }
        let mut i: usize = 0;
        while i < rows.len()
            invariant
                i <= rows@.len(),
                rows@.len() == texts@.len(),
                all_rows_have_dim(rows@.take(i as int), dim as nat),
            decreases rows@.len() - i,
        {
            if rows[i].len() != dim {
                return Err(SearchError::DimensionMismatch);
            }
            assert forall|j: int| 0 <= j < i + 1 implies (#[trigger] rows@.take(i + 1)[j])@.len()
                == dim by {
                if j < i {
                    assert(rows@.take(i as int)[j] == rows@[j]);
                }
            }
            i += 1;
        }
        assert(rows@.take(i as int) =~= rows@);
        Ok(VectorIndex { dim, rows, texts })
    }

    /// The number of rows, `N`; it is the number of texts too.
    pub fn size(&self) -> (n: usize)
        ensures
            n == self.matrix().len(),
            n == self.text_map().len(),
    {
        proof {
            use_type_invariant(self);
        }
        self.rows.len()
    }

    /// The number of columns, `D`; every row has that many components.
    pub fn dim(&self) -> (d: usize)
        ensures
            d == self.dimension(),
            all_rows_have_dim(self.matrix(), d as nat),
    {
        proof {
            use_type_invariant(self);
        }
        self.dim
    }

    /// The vector of row `id`, or `OutOfRange` when there is no such row.
    pub fn row(&self, id: usize) -> (found: Result<&Vec<T>, SearchError>)
        ensures
            found is Ok <==> id < self.matrix().len(),
            found matches Ok(r) ==> *r == self.matrix()[id as int] && r@.len() == self.dimension(),
            found matches Err(e) ==> e == SearchError::OutOfRange,
    {
        proof {
            use_type_invariant(self);
        }
        if id < self.rows.len() {
            Ok(&self.rows[id])
        } else {
            Err(SearchError::OutOfRange)
        }
    }

    /// The text of row `id`, or `OutOfRange` when there is no such row.
    pub fn text(&self, id: usize) -> (found: Result<&String, SearchError>)
        ensures
            found is Ok <==> id < self.text_map().len(),
            found matches Ok(t) ==> *t == self.text_map()[id as int],
            found matches Err(e) ==> e == SearchError::OutOfRange,
    {
        if id < self.texts.len() {
            Ok(&self.texts[id])
        } else {
            Err(SearchError::OutOfRange)
        }
    }

    /// Scores every row against `query` with `metric`, in row-id order.
    ///
    /// Fails with `DimensionMismatch`, before the metric is called at all, when
    /// the query has not `D` components.
    pub fn score_rows<F: Fn(&Vec<T>, &Vec<T>) -> u32>(&self, query: &Vec<T>, metric: F) -> (scored:
        Result<Vec<u32>, SearchError>)
        requires
            forall|a: &Vec<T>, b: &Vec<T>| a@.len() == b@.len() ==> metric.requires((a, b)),
        ensures
            scored is Ok <==> query@.len() == self.dimension(),
            scored matches Ok(scores) ==> scores_of(metric, query, self.matrix(), scores@),
            scored matches Err(e) ==> e == SearchError::DimensionMismatch,
    {
        proof {
            use_type_invariant(self);
        }
        if query.len() != self.dim {
            return Err(SearchError::DimensionMismatch);
        }
        let mut scores: Vec<u32> = Vec::new();
        let mut id: usize = 0;
        while id < self.rows.len()
            invariant
                id <= self.rows@.len(),
                query@.len() == self.dim,
                all_rows_have_dim(self.rows@, self.dim as nat),
                forall|a: &Vec<T>, b: &Vec<T>| a@.len() == b@.len() ==> metric.requires((a, b)),
                scores_of(metric, query, self.rows@.take(id as int), scores@),
            decreases self.rows@.len() - id,
        {
            let row = &self.rows[id];
            let score = metric(query, row);
            scores.push(score);
            proof {
                let seen = self.rows@.take(id + 1);
                assert forall|j: int| 0 <= j < seen.len() implies metric.ensures(
                    (query, &#[trigger] seen[j]),
                    scores@[j],
                ) by {
                    if j < id {
                        assert(self.rows@.take(id as int)[j] == seen[j]);
                    }
                }
            }
            id += 1;
        }
        assert(self.rows@.take(id as int) =~= self.rows@);
        Ok(scores)
    }

    /// The `min(k, N)` rows most similar to `query` under `metric`, best first:
    /// by score, greatest first, and among equal scores by row id, smallest
    /// first.
    ///
    /// Fails with `DimensionMismatch` when the query has not `D` components.
    pub fn search<F: Fn(&Vec<T>, &Vec<T>) -> u32>(&self, query: &Vec<T>, k: usize, metric: F) -> (answer:
        Result<Vec<SimilarityResult>, SearchError>)
        requires
            forall|a: &Vec<T>, b: &Vec<T>| a@.len() == b@.len() ==> metric.requires((a, b)),
        ensures
            answer is Ok <==> query@.len() == self.dimension(),
            answer matches Ok(out) ==> exists|scores: Seq<u32>| #[trigger]
                scores_of(metric, query, self.matrix(), scores) && is_top_k(scores, k as nat, out@),
            answer matches Err(e) ==> e == SearchError::DimensionMismatch,
    {
        match self.score_rows(query, metric) {
            Ok(scores) => {
                let out = rank_top_k(&scores, k);
                Ok(out)
            },
            Err(e) => Err(e),
        }
    }

    /// Looks up the text of each entry of an answer, keeping the order.
    ///
    /// Fails with `OutOfRange` when an entry names a row that the index has
    /// not.
    pub fn resolve(&self, answer: &Vec<SimilarityResult>) -> (hits: Result<Vec<Hit>, SearchError>)
        ensures
            hits is Ok <==> forall|i: int|
                0 <= i < answer@.len() ==> (#[trigger] answer@[i]).id < self.text_map().len(),
            hits matches Ok(list) ==> list@.len() == answer@.len() && forall|i: int|
                0 <= i < list@.len() ==> (#[trigger] list@[i]).text == self.text_map()[answer@[i].id as int]
                    && list@[i].id == answer@[i].id && list@[i].score == answer@[i].score,
            hits matches Err(e) ==> e == SearchError::OutOfRange,
    {
        let mut list: Vec<Hit> = Vec::new();
        let mut i: usize = 0;
        while i < answer.len()
            invariant
                i <= answer@.len(),
                list@.len() == i,
                forall|j: int| 0 <= j < i ==> (#[trigger] answer@[j]).id < self.texts@.len(),
                forall|j: int|
                    0 <= j < i ==> (#[trigger] list@[j]).text == self.texts@[answer@[j].id as int]
                        && list@[j].id == answer@[j].id && list@[j].score == answer@[j].score,
            decreases answer@.len() - i,
        {
            let entry = answer[i];
            if entry.id >= self.texts.len() {
                return Err(SearchError::OutOfRange);
            }
            let text = self.texts[entry.id].clone();
            list.push(Hit { text, id: entry.id, score: entry.score });
            i += 1;
        }
        Ok(list)
    }
}

} // verus!
