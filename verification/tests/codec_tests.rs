use search_engine::codec::{parse_index, render_index};
use search_engine::index::ScoredIndex;

fn sample_index() -> ScoredIndex {
    let mut idx = ScoredIndex::new();
    idx.insert_score(&"apple".to_string(), &"http://a".to_string(), 42);
    idx.insert_score(&"apple".to_string(), &"http://b".to_string(), 7);
    idx.insert_score(&"banana".to_string(), &"http://a".to_string(), 0);
    idx.insert_score(&"zebra".to_string(), &"http://c/page?q=1".to_string(), u64::MAX);
    idx
}

fn assert_same(a: &ScoredIndex, b: &ScoredIndex) {
    assert_eq!(a.scores.len(), b.scores.len());
    for (ea, eb) in a.scores.iter().zip(b.scores.iter()) {
        assert_eq!(ea.0, eb.0);
        assert_eq!(ea.1.len(), eb.1.len());
        for (pa, pb) in ea.1.iter().zip(eb.1.iter()) {
            assert_eq!(pa.0, pb.0);
            assert_eq!(pa.1, pb.1);
        }
    }
}

#[test]
fn round_trip_preserves_every_score() {
    let idx = sample_index();
    let wire = render_index(&idx);
    let back = parse_index(&wire).expect("rendered index must parse");
    assert_same(&idx, &back);
    assert!(back.is_well_formed());
}

#[test]
fn round_trip_of_empty_index() {
    let idx = ScoredIndex::new();
    let wire = render_index(&idx);
    assert_eq!(wire.iter().collect::<String>(), "0 ");
    let back = parse_index(&wire).expect("empty index must parse");
    assert_eq!(back.scores.len(), 0);
}

#[test]
fn wire_format_is_length_prefixed_text() {
    let mut idx = ScoredIndex::new();
    idx.insert_score(&"cat".to_string(), &"u".to_string(), 5);
    let wire: String = render_index(&idx).iter().collect();
    // one entry: term "cat", one posting: url "u" with score 5
    assert_eq!(wire, "1 3 cat1 1 u5 ");
}

#[test]
fn garbage_does_not_parse() {
    let junk: Vec<char> = "hello world".chars().collect();
    assert!(parse_index(&junk).is_none());
    let empty: Vec<char> = Vec::new();
    assert!(parse_index(&empty).is_none());
}

#[test]
fn truncated_text_does_not_parse() {
    let idx = sample_index();
    let mut wire = render_index(&idx);
    wire.pop();
    assert!(parse_index(&wire).is_none());
}

#[test]
fn trailing_text_does_not_parse() {
    let idx = sample_index();
    let mut wire = render_index(&idx);
    wire.push('x');
    assert!(parse_index(&wire).is_none());
}

#[test]
fn urls_with_spaces_and_digits_round_trip() {
    let mut idx = ScoredIndex::new();
    idx.insert_score(&"term".to_string(), &"u r l 1 2 3".to_string(), 9);
    idx.insert_score(&"term".to_string(), &"42 ".to_string(), 10);
    let wire = render_index(&idx);
    let back = parse_index(&wire).expect("must parse");
    assert_same(&idx, &back);
}
