//! The corpus loader: from the records of a delimited source to the texts of
//! one column.

use vstd::prelude::*;
use crate::SearchError;

verus! {

/// The cap on the size of a corpus: records beyond it are not looked at.
pub const MAX_ROWS: usize = 3000;

/// The records that the `csv` crate reads from `source` with its default
/// settings, in source order: the fields of each record, or `None` for a
/// record that it reports as an error.
pub uninterp spec fn csv_records(source: Seq<u8>) -> Seq<Option<Seq<Seq<char>>>>;

/// `csv::Reader::from_reader` and `records`: reads every record of `source`.
/// A record that the reader reports as an error comes back as `None`; the
/// reader goes on with the next one.
#[verifier::external_body]
fn read_records(source: &[u8]) -> (records: Vec<Option<Vec<String>>>)
    ensures
        records.deep_view() == csv_records(source@),
{
    csv::Reader::from_reader(source)
        .records()
        .map(|record| record.ok().map(|fields| fields.iter().map(|f| f.to_string()).collect()))
        .collect()
}

/// The records that count: the first `MAX_ROWS`.
pub open spec fn capped(records: Seq<Option<Seq<Seq<char>>>>) -> Seq<Option<Seq<Seq<char>>>> {
    if records.len() <= MAX_ROWS {
        records
    } else {
        records.take(MAX_ROWS as int)
    }
}

/// The corpus that `records` give for `column`: the non-empty fields of that
/// column, in record order. The first record that is unreadable or has no such
/// column decides the error.
pub open spec fn corpus_of(records: Seq<Option<Seq<Seq<char>>>>, column: nat) -> Result<
    Seq<Seq<char>>,
    SearchError,
>
    decreases records.len(),
{
    if records.len() == 0 {
        Ok(Seq::empty())
    } else {
        match corpus_of(records.drop_last(), column) {
            Err(e) => Err(e),
            Ok(texts) => match records.last() {
                None => Err(SearchError::SourceUnreadable),
                Some(fields) => if column >= fields.len() {
                    Err(SearchError::ColumnMissing)
                } else if fields[column as int].len() == 0 {
                    Ok(texts)
                } else {
                    Ok(texts.push(fields[column as int]))
                },
            },
        }
    }
}

/// Picks the texts of `column` out of the first `MAX_ROWS` records, skipping
/// empty fields.
///
/// Fails with `SourceUnreadable` when the first offending record is one that
/// could not be read, with `ColumnMissing` when it is one without that column.
pub fn select_column(records: &Vec<Option<Vec<String>>>, column: usize) -> (corpus: Result<
    Vec<String>,
    SearchError,
>)
    ensures
        corpus matches Ok(texts) ==> corpus_of(capped(records.deep_view()), column as nat) == Ok::<
            Seq<Seq<char>>,
            SearchError,
        >(texts.deep_view()) && texts@.len() <= MAX_ROWS && forall|i: int|
            0 <= i < texts@.len() ==> (#[trigger] texts@[i])@.len() > 0,
        corpus matches Err(e) ==> corpus_of(capped(records.deep_view()), column as nat) == Err::<
            Seq<Seq<char>>,
            SearchError,
        >(e),
{
    let considered = if records.len() <= MAX_ROWS {
        records.len()
    } else {
        MAX_ROWS
    };
    let ghost all = capped(records.deep_view());
    let mut texts: Vec<String> = Vec::new();
    let mut i: usize = 0;
    assert(texts.deep_view() =~= Seq::<Seq<char>>::empty());
    assert(all.take(0).len() == 0);
    while i < considered
        invariant
            i <= considered <= records@.len(),
            considered == all.len(),
            all == capped(records.deep_view()),
            texts@.len() <= i,
            corpus_of(all.take(i as int), column as nat) == Ok::<Seq<Seq<char>>, SearchError>(
                texts.deep_view(),
            ),
            forall|j: int| 0 <= j < texts@.len() ==> (#[trigger] texts@[j])@.len() > 0,
        decreases considered - i,
    {
        let ghost before = texts.deep_view();
        proof {
            assert(all.take(i + 1).drop_last() =~= all.take(i as int));
            assert(all.take(i + 1).last() == records@[i as int].deep_view());
        }
        match &records[i] {
            None => {
                proof {
                    lemma_error_stays(all, i + 1, column as nat);
                }
                return Err(SearchError::SourceUnreadable);
            },
            Some(fields) => {
                assert(fields.deep_view().len() == fields@.len());
                if column >= fields.len() {
                    proof {
                        lemma_error_stays(all, i + 1, column as nat);
                    }
                    return Err(SearchError::ColumnMissing);
                }
                assert(fields.deep_view()[column as int] == fields@[column as int]@);
                if !fields[column].as_str().is_empty() {
                    texts.push(fields[column].clone());
                    assert(texts.deep_view() =~= before.push(fields@[column as int]@));
                }
            },
        }
        i += 1;
    }
    assert(all.take(considered as int) =~= all);
    Ok(texts)
}

/// An error among the first `n` records is the error of the whole list.
proof fn lemma_error_stays(records: Seq<Option<Seq<Seq<char>>>>, n: int, column: nat)
    requires
        0 <= n <= records.len(),
        corpus_of(records.take(n), column) is Err,
    ensures
        corpus_of(records, column) == corpus_of(records.take(n), column),
    decreases records.len() - n,
{
    if n < records.len() {
        assert(records.take(n + 1).drop_last() =~= records.take(n));
        lemma_error_stays(records, n + 1, column);
    } else {
        assert(records.take(n) =~= records);
    }
}

/// Reads the corpus from the bytes of a delimited source: the non-empty fields
/// of `column` in the first `MAX_ROWS` records, in source order.
pub fn load_corpus(source: &[u8], column: usize) -> (corpus: Result<Vec<String>, SearchError>)
    ensures
        corpus matches Ok(texts) ==> corpus_of(capped(csv_records(source@)), column as nat) == Ok::<
            Seq<Seq<char>>,
            SearchError,
        >(texts.deep_view()) && texts@.len() <= MAX_ROWS && forall|i: int|
            0 <= i < texts@.len() ==> (#[trigger] texts@[i])@.len() > 0,
        corpus matches Err(e) ==> corpus_of(capped(csv_records(source@)), column as nat) == Err::<
            Seq<Seq<char>>,
            SearchError,
        >(e),
{
    let records = read_records(source);
    select_column(&records, column)
}

} // verus!
