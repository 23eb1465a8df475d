use search_engine::index::{top_k, ScoredIndex};

fn sample_index() -> ScoredIndex {
    let mut idx = ScoredIndex::new();
    idx.insert_score(&"apple".to_string(), &"u1".to_string(), 10);
    idx.insert_score(&"apple".to_string(), &"u2".to_string(), 30);
    idx.insert_score(&"banana".to_string(), &"u1".to_string(), 5);
    idx
}

fn query(words: &[&str]) -> Vec<String> {
    words.iter().map(|s| s.to_string()).collect()
}

#[test]
fn search_aggregates_scores_over_query_terms() {
    let idx = sample_index();
    let results = idx.search(&query(&["apple", "banana"]), 10);
    assert_eq!(results.len(), 2);
    assert_eq!(results[0].0, "u2");
    assert_eq!(results[0].1, 30);
    assert_eq!(results[1].0, "u1");
    assert_eq!(results[1].1, 15);
}

#[test]
fn search_returns_at_most_k_results() {
    let idx = sample_index();
    let results = idx.search(&query(&["apple", "banana"]), 1);
    assert_eq!(results.len(), 1);
    assert_eq!(results[0].0, "u2");
}

#[test]
fn search_without_matches_is_empty() {
    let idx = sample_index();
    let results = idx.search(&query(&["cherry"]), 10);
    assert_eq!(results.len(), 0);
    let none = idx.search(&Vec::new(), 10);
    assert_eq!(none.len(), 0);
}

#[test]
fn repeated_query_terms_count_twice() {
    let idx = sample_index();
    let results = idx.search(&query(&["banana", "banana"]), 10);
    assert_eq!(results.len(), 1);
    assert_eq!(results[0].1, 10);
}

#[test]
fn top_k_orders_descending() {
    let entries = vec![
        ("a".to_string(), 3u64),
        ("b".to_string(), 9),
        ("c".to_string(), 1),
        ("d".to_string(), 7),
    ];
    let out = top_k(entries, 3);
    assert_eq!(out.len(), 3);
    assert_eq!(out[0], ("b".to_string(), 9));
    assert_eq!(out[1], ("d".to_string(), 7));
    assert_eq!(out[2], ("a".to_string(), 3));
}

#[test]
fn get_score_reads_the_recorded_pair() {
    let idx = sample_index();
    assert_eq!(
        idx.get_score(&"apple".to_string(), &"u2".to_string()),
        Some(30)
    );
    assert_eq!(idx.get_score(&"apple".to_string(), &"u3".to_string()), None);
    assert_eq!(idx.get_score(&"kiwi".to_string(), &"u1".to_string()), None);
    assert!(idx.is_well_formed());
}
