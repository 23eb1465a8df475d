use search_engine::fixed::SCALE;
use search_engine::scheduler::{crawl_graph, SimPage};
use search_engine::scoring::{build_scored_index, log10_fixed, FALLBACK_AUTHORITY};
use search_engine::terms::{count_words, TermCounts};

fn page(url: &str, links: &[&str], body: &str) -> SimPage {
    SimPage {
        url: url.to_string(),
        body_text: body.to_string(),
        links: links.iter().map(|s| s.to_string()).collect(),
        is_partial: false,
    }
}

#[test]
fn log10_is_exact_on_powers_of_ten() {
    assert_eq!(log10_fixed(SCALE), 0);
    assert_eq!(log10_fixed(10 * SCALE), SCALE);
    assert_eq!(log10_fixed(100 * SCALE), 2 * SCALE);
    assert_eq!(log10_fixed(1_000_000 * SCALE), 6 * SCALE);
}

#[test]
fn log10_is_close_on_other_values() {
    // log10(2) = 0.30103, in billionths
    let two = log10_fixed(2 * SCALE);
    assert!(two > 301_020_000 && two < 301_040_000, "log10(2) ~ {}", two);
    // log10(50) = 1.69897
    let fifty = log10_fixed(50 * SCALE);
    assert!(
        fifty > 1_698_960_000 && fifty < 1_698_980_000,
        "log10(50) ~ {}",
        fifty
    );
}

#[test]
fn term_on_every_page_scores_zero() {
    // "common" appears on both pages: idf = log10(2/2) = 0, so its combined
    // score is zero everywhere, while rarer terms score above zero.
    let pages = vec![
        ("u1".to_string(), count_words("common apple")),
        ("u2".to_string(), count_words("common banana")),
    ];
    let mut df = TermCounts::new();
    df.bump(&"common".to_string());
    df.bump(&"common".to_string());
    df.bump(&"apple".to_string());
    df.bump(&"banana".to_string());
    let auth = TermCounts::new();
    let idx = build_scored_index(&pages, &df, &auth);
    assert_eq!(
        idx.get_score(&"common".to_string(), &"u1".to_string()),
        Some(0)
    );
    assert_eq!(
        idx.get_score(&"common".to_string(), &"u2".to_string()),
        Some(0)
    );
    assert!(idx.get_score(&"apple".to_string(), &"u1".to_string()).unwrap() > 0);
}

#[test]
fn unique_term_scores_exact_tf_idf() {
    // ten pages; "zebra" on exactly one: idf = log10(10) = 1.0 exactly.
    // On its page "zebra yak": tf = 1/2 = SCALE/2; relevance = tf * 1.0;
    // no authority entry, so the fallback 0.1 applies:
    // score = (SCALE/2) / 10 = 50_000_000.
    let mut pages = vec![("p0".to_string(), count_words("zebra yak"))];
    let mut df = TermCounts::new();
    df.bump(&"zebra".to_string());
    for i in 1..10 {
        pages.push((format!("p{}", i), count_words("yak cow")));
        df.bump(&"cow".to_string());
    }
    for _ in 0..10 {
        df.bump(&"yak".to_string());
    }
    let auth = TermCounts::new();
    let idx = build_scored_index(&pages, &df, &auth);
    assert_eq!(FALLBACK_AUTHORITY, SCALE / 10);
    assert_eq!(
        idx.get_score(&"zebra".to_string(), &"p0".to_string()),
        Some(50_000_000)
    );
    // "yak" is on every page: idf = 0
    assert_eq!(
        idx.get_score(&"yak".to_string(), &"p0".to_string()),
        Some(0)
    );
    // "zebra" is not on p1
    assert_eq!(idx.get_score(&"zebra".to_string(), &"p1".to_string()), None);
}

#[test]
fn empty_crawl_yields_empty_index() {
    let pages: Vec<(String, TermCounts)> = Vec::new();
    let df = TermCounts::new();
    let auth = TermCounts::new();
    let idx = build_scored_index(&pages, &df, &auth);
    assert_eq!(idx.scores.len(), 0);
}

#[test]
fn page_with_no_terms_contributes_nothing() {
    let pages = vec![
        ("empty".to_string(), count_words("a an of")),
        ("full".to_string(), count_words("apple")),
    ];
    let mut df = TermCounts::new();
    df.bump(&"apple".to_string());
    let auth = TermCounts::new();
    let idx = build_scored_index(&pages, &df, &auth);
    assert_eq!(idx.get_score(&"apple".to_string(), &"empty".to_string()), None);
    assert!(idx.get_score(&"apple".to_string(), &"full".to_string()).is_some());
}

#[test]
fn end_to_end_scenario_ranks_link_targets() {
    // seed a; a links to b and c; b links to c; c dangling. With limit 3
    // the whole graph is visited, three link graph entries exist, and the
    // authority order is c > b > a.
    let web = vec![
        page("a", &["b", "c"], "alpha content page"),
        page("b", &["c"], "beta content page"),
        page("c", &[], "gamma content page"),
    ];
    let s = crawl_graph(&web, vec!["a".to_string()], 3, 1);
    assert_eq!(s.visited.len(), 3);
    assert_eq!(s.data.link_from.len(), 3);
    let out = search_engine::pipeline::score_crawl(&s.data);
    let ra = out.authority.get(&"a".to_string()).unwrap();
    let rb = out.authority.get(&"b".to_string()).unwrap();
    let rc = out.authority.get(&"c".to_string()).unwrap();
    assert!(rc > rb, "c={} should outrank b={}", rc, rb);
    assert!(rb > ra, "b={} should outrank a={}", rb, ra);
    // the whole graph's authority mass is one unit
    let total: u64 = out.ranks.iter().copied().sum();
    assert_eq!(total, SCALE);
    // every page carries the common term, which therefore scores zero
    assert_eq!(
        out.index.get_score(&"content".to_string(), &"a".to_string()),
        Some(0)
    );
}
