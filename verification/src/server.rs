//! What the query server decides: how a request becomes an answer or an
//! error, and how a line of the answer reads.

use vstd::prelude::*;
use vstd::string::*;
use crate::SearchError;
use crate::index::{scores_of, Hit, VectorIndex};
use crate::search::{is_top_k, SimilarityResult};

verus! {

/// The character of a decimal digit.
pub open spec fn digit_char(d: nat) -> char {
    if d == 0 {
        '0'
    } else if d == 1 {
        '1'
    } else if d == 2 {
        '2'
    } else if d == 3 {
        '3'
    } else if d == 4 {
        '4'
    } else if d == 5 {
        '5'
    } else if d == 6 {
        '6'
    } else if d == 7 {
        '7'
    } else if d == 8 {
        '8'
    } else {
        '9'
    }
}

/// `n` in decimal, without leading zeros.
pub open spec fn decimal(n: nat) -> Seq<char>
    decreases n,
{
    if n < 10 {
        seq![digit_char(n)]
    } else {
        decimal(n / 10).push(digit_char(n % 10))
    }
}

/// A line of an answer: `<text> (index: <id> score: <score>)`.
pub open spec fn hit_line(text: Seq<char>, id: nat, score_text: Seq<char>) -> Seq<char> {
    text + " (index: "@ + decimal(id) + " score: "@ + score_text + ")"@
}

/// The one-character text of a decimal digit.
fn digit_text(d: usize) -> (text: &'static str)
    requires
        d < 10,
    ensures
        text@ == seq![digit_char(d as nat)],
{
    proof {
        reveal_strlit("0");
        reveal_strlit("1");
        reveal_strlit("2");
        reveal_strlit("3");
        reveal_strlit("4");
        reveal_strlit("5");
        reveal_strlit("6");
        reveal_strlit("7");
        reveal_strlit("8");
        reveal_strlit("9");
    }
    let text = if d == 0 {
        "0"
    } else if d == 1 {
        "1"
    } else if d == 2 {
        "2"
    } else if d == 3 {
        "3"
    } else if d == 4 {
        "4"
    } else if d == 5 {
        "5"
    } else if d == 6 {
        "6"
    } else if d == 7 {
        "7"
    } else if d == 8 {
        "8"
    } else {
        "9"
    };
    assert(text@ =~= seq![digit_char(d as nat)]);
    text
}

/// Writes `n` in decimal.
pub fn decimal_text(n: usize) -> (text: String)
    ensures
        text@ == decimal(n as nat),
{
    let mut text = String::from_str(digit_text(n % 10));
    let mut rest = n / 10;
    while rest > 0
        invariant
            decimal(n as nat) == if rest > 0 {
                decimal(rest as nat) + text@
            } else {
                text@
            },
        decreases rest,
    {
        let ghost old_text = text@;
        let ghost digit = seq![digit_char((rest % 10) as nat)];
        let mut next = String::from_str(digit_text(rest % 10));
        next.append(text.as_str());
        text = next;
        proof {
            if rest >= 10 {
                assert(decimal((rest / 10) as nat).push(digit_char((rest % 10) as nat)) + old_text
                    =~= decimal((rest / 10) as nat) + (digit + old_text));
            }
        }
        rest = rest / 10;
    }
    text
}

/// Renders one line of an answer from a hit and the score as the caller wants
/// it printed.
pub fn render_hit(hit: &Hit, score_text: &str) -> (line: String)
    ensures
        line@ == hit_line(hit.text@, hit.id as nat, score_text@),
{
    let mut line = hit.text.clone();
    line.append(" (index: ");
    line.append(decimal_text(hit.id).as_str());
    line.append(" score: ");
    line.append(score_text);
    line.append(")");
    line
}

/// Answers one request. `query` is what the embedding capability made of the
/// request text, `None` when it failed; `k` is the number of results asked for.
///
/// The answer is the `min(k, N)` best rows with their texts, best first. A
/// failed embedding gives `InferenceError` and a query of the wrong dimension
/// `DimensionMismatch`; nothing else fails.
pub fn answer_query<T, F: Fn(&Vec<T>, &Vec<T>) -> u32>(
    index: &VectorIndex<T>,
    query: Option<&Vec<T>>,
    k: usize,
    metric: F,
) -> (answer: Result<Vec<Hit>, SearchError>)
    requires
        forall|a: &Vec<T>, b: &Vec<T>| a@.len() == b@.len() ==> metric.requires((a, b)),
    ensures
        answer is Ok <==> (query matches Some(q) && q@.len() == index.dimension()),
        answer matches Ok(hits) ==> exists|scores: Seq<u32>, out: Seq<SimilarityResult>|
            {
                &&& #[trigger] scores_of(metric, query.unwrap(), index.matrix(), scores)
                &&& #[trigger] is_top_k(scores, k as nat, out)
                &&& hits@.len() == out.len()
                &&& forall|i: int|
                    0 <= i < out.len() ==> (#[trigger] hits@[i]).text == index.text_map()[out[i].id as int]
                        && hits@[i].id == out[i].id && hits@[i].score == out[i].score
            },
        answer matches Err(e) ==> e == if query is None {
            SearchError::InferenceError
        } else {
            SearchError::DimensionMismatch
        },
{
    let q = match query {
        Some(q) => q,
        None => {
            return Err(SearchError::InferenceError);
        },
    };
    let out = match index.search(q, k, metric) {
        Ok(out) => out,
        Err(e) => {
            return Err(e);
        },
    };
    proof {
        let scores = choose|scores: Seq<u32>| #[trigger]
            scores_of(metric, q, index.matrix(), scores) && is_top_k(scores, k as nat, out@);
        assert(scores.len() == index.matrix().len());
    }
    let n = index.size();
    // every entry of an answer names a row of the index, so the lookup succeeds
    assert(forall|i: int| 0 <= i < out@.len() ==> (#[trigger] out@[i]).id < n);
    index.resolve(&out)
}

} // verus!
