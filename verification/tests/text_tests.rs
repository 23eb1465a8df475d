use search_engine::terms::{add_doc_freqs, count_words, TermCounts};
use search_engine::text::{query_terms, str_chars, tokenize};

#[test]
fn tokenize_lowercases_and_filters() {
    let ts = tokenize("The CAT, the hat! x2y");
    let got: Vec<String> = ts;
    // "x2y" cleans to "xy", two characters, dropped
    assert_eq!(got, vec!["the", "cat", "the", "hat"]);
}

#[test]
fn tokenize_drops_short_and_empty_words() {
    assert_eq!(tokenize(""), Vec::<String>::new());
    assert_eq!(tokenize("  a an 123 !! "), Vec::<String>::new());
    assert_eq!(tokenize("one-two"), vec!["onetwo"]);
}

#[test]
fn count_words_counts_occurrences() {
    let tc = count_words("apple pie apple strudel APPLE");
    assert_eq!(tc.get(&"apple".to_string()), Some(3));
    assert_eq!(tc.get(&"pie".to_string()), Some(1));
    assert_eq!(tc.get(&"strudel".to_string()), Some(1));
    assert_eq!(tc.get(&"cherry".to_string()), None);
}

#[test]
fn doc_freqs_count_pages_not_occurrences() {
    let mut df = TermCounts::new();
    let p1 = count_words("apple apple apple");
    let p2 = count_words("apple banana");
    add_doc_freqs(&mut df, &p1);
    add_doc_freqs(&mut df, &p2);
    assert_eq!(df.get(&"apple".to_string()), Some(2));
    assert_eq!(df.get(&"banana".to_string()), Some(1));
}

#[test]
fn query_terms_keep_short_words() {
    let qs = query_terms("  Berserk ANIME x  ");
    assert_eq!(qs, vec!["berserk", "anime", "x"]);
}

#[test]
fn str_chars_copies_exactly() {
    let v = str_chars("abc déf");
    let s: String = v.iter().collect();
    assert_eq!(s, "abc déf");
}
