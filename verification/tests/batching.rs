use dense_search::batching::{count_batches, join_batches, partition};
use dense_search::SearchError;
use rayon::iter::{IndexedParallelIterator, IntoParallelRefIterator, ParallelIterator};
use std::sync::Mutex;

fn corpus(n: usize) -> Vec<String> {
    (0..n).map(|i| format!("text {}", i)).collect()
}

/// A stand-in for the embedding capability: one row of two numbers per text.
fn embed_batch(texts: &Vec<String>) -> Vec<Vec<f32>> {
    texts.iter().map(|t| vec![t.len() as f32, t.bytes().map(|b| b as f32).sum()]).collect()
}

fn tagged_outputs(batches: &Vec<Vec<String>>) -> Vec<(usize, Option<Vec<Vec<f32>>>)> {
    batches.iter().enumerate().map(|(k, b)| (k, Some(embed_batch(b)))).collect()
}

#[test]
fn count_batches_rounds_up() {
    assert_eq!(count_batches(0, 8), 0);
    assert_eq!(count_batches(1, 8), 1);
    assert_eq!(count_batches(8, 8), 1);
    assert_eq!(count_batches(9, 8), 2);
    assert_eq!(count_batches(3000, 8), 375);
    assert_eq!(count_batches(3001, 8), 376);
    assert_eq!(count_batches(usize::MAX, 1), usize::MAX);
}

#[test]
fn partition_keeps_order_and_sizes() {
    let texts = corpus(10);
    let batches = partition(&texts, 4);
    assert_eq!(batches.len(), 3);
    assert_eq!(batches[0], texts[0..4].to_vec());
    assert_eq!(batches[1], texts[4..8].to_vec());
    assert_eq!(batches[2], texts[8..10].to_vec());
}

#[test]
fn partition_of_exact_multiple_has_no_short_batch() {
    let texts = corpus(16);
    let batches = partition(&texts, 8);
    assert_eq!(batches.len(), 2);
    assert!(batches.iter().all(|b| b.len() == 8));
    assert_eq!(batches.concat(), texts);
}

#[test]
fn partition_of_empty_corpus_is_empty() {
    assert_eq!(partition(&vec![], 8), Vec::<Vec<String>>::new());
}

#[test]
fn partition_with_batch_larger_than_corpus() {
    let texts = corpus(3);
    assert_eq!(partition(&texts, 8), vec![texts.clone()]);
}

#[test]
fn join_has_one_row_per_text_for_every_batch_size() {
    let texts = corpus(37);
    let expected = embed_batch(&texts);
    for size in 1..45 {
        let batches = partition(&texts, size);
        let rows = join_batches(tagged_outputs(&batches), texts.len(), size).unwrap();
        assert_eq!(rows.len(), texts.len());
        assert_eq!(rows, expected);
    }
}

#[test]
fn join_ignores_arrival_order() {
    let texts = corpus(21);
    let batches = partition(&texts, 4);
    let in_order = tagged_outputs(&batches);
    let mut reversed = tagged_outputs(&batches);
    reversed.reverse();
    let mut rotated = tagged_outputs(&batches);
    rotated.rotate_left(2);
    rotated.swap(0, 3);
    let a = join_batches(in_order, 21, 4).unwrap();
    let b = join_batches(reversed, 21, 4).unwrap();
    let c = join_batches(rotated, 21, 4).unwrap();
    assert_eq!(a, embed_batch(&texts));
    assert_eq!(a, b);
    assert_eq!(a, c);
}

#[test]
fn join_is_the_same_on_one_thread_and_on_eight() {
    let texts = corpus(203);
    let batches = partition(&texts, 8);
    let mut results = Vec::new();
    for threads in [1usize, 8] {
        let pool = rayon::ThreadPoolBuilder::new().num_threads(threads).build().unwrap();
        let arrived = Mutex::new(Vec::new());
        pool.install(|| {
            batches.par_iter().enumerate().for_each(|(k, batch)| {
                let output = embed_batch(batch);
                arrived.lock().unwrap().push((k, Some(output)));
            });
        });
        let tagged = arrived.into_inner().unwrap();
        results.push(join_batches(tagged, texts.len(), 8).unwrap());
    }
    assert_eq!(results[0].len(), 203);
    assert_eq!(results[0], results[1]);
    assert_eq!(results[0], embed_batch(&texts));
}

#[test]
fn join_fails_when_a_batch_failed() {
    let texts = corpus(10);
    let batches = partition(&texts, 4);
    let mut tagged = tagged_outputs(&batches);
    tagged[1].1 = None;
    assert_eq!(join_batches(tagged, 10, 4), Err(SearchError::InferenceError));
    let mut tagged = tagged_outputs(&batches);
    tagged[1].1 = None;
    tagged.pop();
    assert_eq!(join_batches(tagged, 10, 4), Err(SearchError::InferenceError));
}

#[test]
fn join_rejects_a_missing_batch() {
    let texts = corpus(10);
    let mut tagged = tagged_outputs(&partition(&texts, 4));
    tagged.remove(1);
    assert_eq!(join_batches(tagged, 10, 4), Err(SearchError::IndexInconsistent));
}

#[test]
fn join_rejects_a_repeated_tag() {
    let texts = corpus(12);
    let mut tagged = tagged_outputs(&partition(&texts, 4));
    tagged[2].0 = 0;
    assert_eq!(join_batches(tagged, 12, 4), Err(SearchError::IndexInconsistent));
}

#[test]
fn join_rejects_a_tag_out_of_range() {
    let texts = corpus(12);
    let mut tagged = tagged_outputs(&partition(&texts, 4));
    tagged[2].0 = 3;
    assert_eq!(join_batches(tagged, 12, 4), Err(SearchError::IndexInconsistent));
}

#[test]
fn join_rejects_an_output_of_the_wrong_length() {
    let texts = corpus(10);
    let mut tagged = tagged_outputs(&partition(&texts, 4));
    tagged[2].1.as_mut().unwrap().push(vec![0.0, 0.0]);
    assert_eq!(join_batches(tagged, 10, 4), Err(SearchError::IndexInconsistent));
    let mut tagged = tagged_outputs(&partition(&texts, 4));
    tagged[0].1.as_mut().unwrap().pop();
    assert_eq!(join_batches(tagged, 10, 4), Err(SearchError::IndexInconsistent));
}

#[test]
fn join_of_nothing_is_the_empty_matrix() {
    let tagged: Vec<(usize, Option<Vec<Vec<f32>>>)> = vec![];
    assert_eq!(join_batches(tagged, 0, 8), Ok(vec![]));
}
