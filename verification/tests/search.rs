use dense_search::index::VectorIndex;
use dense_search::score::score_key;
use dense_search::search::{rank_top_k, SimilarityResult};
use dense_search::SearchError;

fn cosine(a: &Vec<f32>, b: &Vec<f32>) -> u32 {
    let dot: f32 = a.iter().zip(b.iter()).map(|(x, y)| x * y).sum();
    let na: f32 = a.iter().map(|x| x * x).sum::<f32>().sqrt();
    let nb: f32 = b.iter().map(|x| x * x).sum::<f32>().sqrt();
    (dot / (na * nb)).to_bits()
}

fn bits(scores: &[f32]) -> Vec<u32> {
    scores.iter().map(|s| s.to_bits()).collect()
}

fn ids(out: &Vec<SimilarityResult>) -> Vec<usize> {
    out.iter().map(|r| r.id).collect()
}

fn animals() -> VectorIndex<f32> {
    let rows = vec![vec![1.0f32, 0.0], vec![0.0, 1.0], vec![0.9, 0.1]];
    let texts = vec!["cat".to_string(), "dog".to_string(), "car".to_string()];
    VectorIndex::new(2, rows, texts).unwrap()
}

#[test]
fn cat_dog_car_scenario() {
    let index = animals();
    let out = index.search(&vec![1.0f32, 0.0], 2, cosine).unwrap();
    assert_eq!(out.len(), 2);
    assert_eq!(out[0].id, 0);
    assert_eq!(f32::from_bits(out[0].score), 1.0);
    assert_eq!(out[1].id, 2);
    let second = f32::from_bits(out[1].score);
    assert!((second - 0.99388).abs() < 1e-4);
    let hits = index.resolve(&out).unwrap();
    assert_eq!(hits[0].text, "cat");
    assert_eq!(hits[0].id, 0);
    assert_eq!(hits[1].text, "car");
    assert_eq!(hits[1].id, 2);
    assert_eq!(hits[1].score, out[1].score);
}

#[test]
fn search_with_k_zero_is_empty() {
    let index = animals();
    assert_eq!(index.search(&vec![1.0f32, 0.0], 0, cosine).unwrap(), vec![]);
    assert_eq!(rank_top_k(&bits(&[0.5, 0.25]), 0), vec![]);
}

#[test]
fn search_with_large_k_returns_every_row_sorted() {
    let index = animals();
    let out = index.search(&vec![1.0f32, 0.0], 3, cosine).unwrap();
    assert_eq!(ids(&out), vec![0, 2, 1]);
    let out = index.search(&vec![1.0f32, 0.0], 100, cosine).unwrap();
    assert_eq!(ids(&out), vec![0, 2, 1]);
    assert_eq!(f32::from_bits(out[2].score), 0.0);
}

#[test]
fn search_on_empty_index_is_empty() {
    let index: VectorIndex<f32> = VectorIndex::new(2, vec![], vec![]).unwrap();
    assert_eq!(index.size(), 0);
    assert_eq!(index.search(&vec![1.0f32, 0.0], 5, cosine).unwrap(), vec![]);
}

#[test]
fn search_rejects_wrong_dimension() {
    let index = animals();
    assert_eq!(index.search(&vec![1.0f32], 2, cosine), Err(SearchError::DimensionMismatch));
    assert_eq!(
        index.search(&vec![1.0f32, 0.0, 0.0], 2, cosine),
        Err(SearchError::DimensionMismatch)
    );
    assert_eq!(index.score_rows(&vec![], cosine), Err(SearchError::DimensionMismatch));
}

#[test]
fn stored_vector_finds_itself() {
    let index = animals();
    for id in 0..3 {
        let query = index.row(id).unwrap().clone();
        let out = index.search(&query, 1, cosine).unwrap();
        assert_eq!(out.len(), 1);
        assert_eq!(out[0].id, id);
    }
}

#[test]
fn ties_go_to_the_smaller_row_id() {
    let out = rank_top_k(&bits(&[0.5, 0.75, 0.5, 0.75, 0.5]), 4);
    assert_eq!(ids(&out), vec![1, 3, 0, 2]);
    let out = rank_top_k(&bits(&[0.0, -0.0, 0.0]), 3);
    assert_eq!(ids(&out), vec![0, 1, 2]);
}

#[test]
fn ranking_orders_negative_scores() {
    let out = rank_top_k(&bits(&[-1.0, 0.25, -0.5, 1.0, f32::NEG_INFINITY, f32::INFINITY]), 6);
    assert_eq!(ids(&out), vec![5, 3, 1, 2, 0, 4]);
    let out = rank_top_k(&bits(&[-1.0, 0.25, -0.5, 1.0]), 2);
    assert_eq!(
        out,
        vec![
            SimilarityResult { id: 3, score: 1.0f32.to_bits() },
            SimilarityResult { id: 1, score: 0.25f32.to_bits() },
        ]
    );
}

#[test]
fn ranking_keeps_the_best_of_a_long_list() {
    let scores: Vec<f32> = (0..100).map(|i| ((i * 37) % 101) as f32).collect();
    let out = rank_top_k(&bits(&scores), 5);
    let mut expected: Vec<(usize, f32)> = scores.iter().cloned().enumerate().collect();
    expected.sort_by(|a, b| b.1.partial_cmp(&a.1).unwrap().then(a.0.cmp(&b.0)));
    let expected_ids: Vec<usize> = expected.iter().take(5).map(|e| e.0).collect();
    assert_eq!(ids(&out), expected_ids);
}

#[test]
fn score_key_follows_the_floats() {
    assert_eq!(score_key(0.0f32.to_bits()), 0);
    assert_eq!(score_key((-0.0f32).to_bits()), 0);
    assert_eq!(score_key(1.0f32.to_bits()), 0x3f80_0000);
    assert_eq!(score_key((-1.0f32).to_bits()), -0x3f80_0000);
    assert_eq!(score_key(u32::MAX), -0x7fff_ffff);
    let samples = [-3.5f32, -1.0, -1e-20, 0.0, 1e-20, 0.5, 2.0, 1e30];
    for w in samples.windows(2) {
        assert!(score_key(w[0].to_bits()) < score_key(w[1].to_bits()));
    }
}

#[test]
fn index_new_checks_the_row_count() {
    let rows = vec![vec![1.0f32, 0.0], vec![0.0, 1.0]];
    let built = VectorIndex::new(2, rows, vec!["only".to_string()]);
    assert!(matches!(built, Err(SearchError::IndexInconsistent)));
}

#[test]
fn index_new_checks_every_row_length() {
    let rows = vec![vec![1.0f32, 0.0], vec![0.0]];
    let built = VectorIndex::new(2, rows, vec!["a".to_string(), "b".to_string()]);
    assert!(matches!(built, Err(SearchError::DimensionMismatch)));
}

#[test]
fn index_lookups_are_bounds_checked() {
    let index = animals();
    assert_eq!(index.size(), 3);
    assert_eq!(index.dim(), 2);
    assert_eq!(index.row(2), Ok(&vec![0.9f32, 0.1]));
    assert_eq!(index.row(3), Err(SearchError::OutOfRange));
    assert_eq!(index.text(1), Ok(&"dog".to_string()));
    assert_eq!(index.text(3), Err(SearchError::OutOfRange));
}

#[test]
fn resolve_rejects_unknown_rows() {
    let index = animals();
    let answer = vec![SimilarityResult { id: 0, score: 0 }, SimilarityResult { id: 7, score: 0 }];
    assert!(matches!(index.resolve(&answer), Err(SearchError::OutOfRange)));
}

fn reference_top_k(scores: &[f32], k: usize) -> Vec<usize> {
    let mut all: Vec<(usize, f32)> = scores.iter().cloned().enumerate().collect();
    all.sort_by(|a, b| b.1.partial_cmp(&a.1).unwrap().then(a.0.cmp(&b.0)));
    all.iter().take(k).map(|e| e.0).collect()
}

#[test]
fn ranking_agrees_with_a_full_sort() {
    let mut state: u64 = 0x2545_f491_4f6c_dd1d;
    for n in [0usize, 1, 2, 3, 7, 16, 33, 100] {
        let mut scores = Vec::new();
        for _ in 0..n {
            state = state.wrapping_mul(6364136223846793005).wrapping_add(1442695040888963407);
            // few distinct values, so that ties are common
            scores.push(((state >> 33) % 11) as f32 / 4.0 - 1.0);
        }
        for k in 0..(n + 3) {
            let out = rank_top_k(&bits(&scores), k);
            assert_eq!(ids(&out), reference_top_k(&scores, k));
            for entry in out.iter() {
                assert_eq!(entry.score, scores[entry.id].to_bits());
            }
        }
    }
}

#[test]
fn ranking_of_sorted_and_reversed_lists() {
    let rising: Vec<f32> = (0..50).map(|i| i as f32).collect();
    let falling: Vec<f32> = (0..50).map(|i| -(i as f32)).collect();
    for k in [1usize, 2, 5, 49, 50, 51] {
        assert_eq!(ids(&rank_top_k(&bits(&rising), k)), reference_top_k(&rising, k));
        assert_eq!(ids(&rank_top_k(&bits(&falling), k)), reference_top_k(&falling, k));
    }
    let flat = vec![0.5f32; 20];
    assert_eq!(ids(&rank_top_k(&bits(&flat), 6)), vec![0, 1, 2, 3, 4, 5]);
}
