use dense_search::corpus::{load_corpus, select_column, MAX_ROWS};
use dense_search::SearchError;

fn texts(items: &[&str]) -> Vec<String> {
    items.iter().map(|s| s.to_string()).collect()
}

fn record(fields: &[&str]) -> Option<Vec<String>> {
    Some(texts(fields))
}

#[test]
fn load_corpus_reads_the_selected_column() {
    let source = b"titles,summaries\nAttention Is All You Need,transformers\nDeep Residual Learning,resnets\n";
    assert_eq!(
        load_corpus(source, 0),
        Ok(texts(&["Attention Is All You Need", "Deep Residual Learning"]))
    );
    assert_eq!(load_corpus(source, 1), Ok(texts(&["transformers", "resnets"])));
}

#[test]
fn load_corpus_handles_quoted_fields() {
    let source = b"t,s\n\"a, with comma\",x\n\"two\nlines\",y\n";
    assert_eq!(load_corpus(source, 0), Ok(texts(&["a, with comma", "two\nlines"])));
}

#[test]
fn load_corpus_of_headers_only_is_empty() {
    assert_eq!(load_corpus(b"titles,summaries\n", 0), Ok(vec![]));
    assert_eq!(load_corpus(b"", 0), Ok(vec![]));
}

#[test]
fn load_corpus_reports_a_missing_column() {
    let source = b"titles,summaries\na,b\nc,d\n";
    assert_eq!(load_corpus(source, 2), Err(SearchError::ColumnMissing));
}

#[test]
fn load_corpus_reports_an_unreadable_record() {
    let source = b"titles,summaries\na,b\nonly one field\nc,d\n";
    assert_eq!(load_corpus(source, 0), Err(SearchError::SourceUnreadable));
    let source = b"titles\nfine\n\xff\xfe\n";
    assert_eq!(load_corpus(source, 0), Err(SearchError::SourceUnreadable));
}

#[test]
fn load_corpus_skips_empty_fields() {
    let source = b"titles,summaries\na,b\n,d\ne,\n";
    assert_eq!(load_corpus(source, 0), Ok(texts(&["a", "e"])));
    assert_eq!(load_corpus(source, 1), Ok(texts(&["b", "d"])));
}

#[test]
fn load_corpus_stops_at_the_cap() {
    let mut source = String::from("titles\n");
    for i in 0..(MAX_ROWS + 25) {
        source.push_str(&format!("paper {}\n", i));
    }
    let corpus = load_corpus(source.as_bytes(), 0).unwrap();
    assert_eq!(corpus.len(), MAX_ROWS);
    assert_eq!(corpus[0], "paper 0");
    assert_eq!(corpus[MAX_ROWS - 1], format!("paper {}", MAX_ROWS - 1));
}

#[test]
fn load_corpus_does_not_look_beyond_the_cap() {
    let mut source = String::from("titles,summaries\n");
    for i in 0..MAX_ROWS {
        source.push_str(&format!("paper {},s\n", i));
    }
    source.push_str("a record with one field only\n");
    assert_eq!(load_corpus(source.as_bytes(), 0).unwrap().len(), MAX_ROWS);
}

#[test]
fn select_column_takes_the_first_offence() {
    let records = vec![record(&["a", "b"]), record(&["c"]), None];
    assert_eq!(select_column(&records, 1), Err(SearchError::ColumnMissing));
    assert_eq!(select_column(&records, 0), Err(SearchError::SourceUnreadable));
    let records = vec![record(&["a", "b"]), None, record(&["c"])];
    assert_eq!(select_column(&records, 1), Err(SearchError::SourceUnreadable));
}

#[test]
fn select_column_keeps_record_order() {
    let records = vec![record(&["x", "1"]), record(&["y", ""]), record(&["z", "3"])];
    assert_eq!(select_column(&records, 0), Ok(texts(&["x", "y", "z"])));
    assert_eq!(select_column(&records, 1), Ok(texts(&["1", "3"])));
    assert_eq!(select_column(&vec![], 4), Ok(vec![]));
}

#[test]
fn max_rows_is_three_thousand() {
    assert_eq!(MAX_ROWS, 3000);
}
