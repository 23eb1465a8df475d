use search_engine::scheduler::{crawl_graph, CrawlScheduler, ScrapeResult, SimPage};

fn page(url: &str, links: &[&str], body: &str) -> SimPage {
    SimPage {
        url: url.to_string(),
        body_text: body.to_string(),
        links: links.iter().map(|s| s.to_string()).collect(),
        is_partial: false,
    }
}

fn small_web() -> Vec<SimPage> {
    vec![
        page("a", &["b", "c"], "alpha words here"),
        page("b", &["c"], "beta words here"),
        page("c", &[], "gamma words here"),
    ]
}

#[test]
fn crawl_visits_exactly_the_reachable_set() {
    let web = small_web();
    let s = crawl_graph(&web, vec!["a".to_string()], 10, 1);
    assert_eq!(s.visited.len(), 3);
    assert!(s.visited.contains(&"a".to_string()));
    assert!(s.visited.contains(&"b".to_string()));
    assert!(s.visited.contains(&"c".to_string()));
    assert_eq!(s.data.link_from.len(), 3);
}

#[test]
fn crawl_stops_at_the_page_limit() {
    let web = small_web();
    let s = crawl_graph(&web, vec!["a".to_string()], 2, 1);
    assert_eq!(s.visited.len(), 2);
}

#[test]
fn no_url_is_dispatched_twice() {
    // duplicate links and a cycle: the visited list must stay duplicate-free
    let web = vec![
        page("a", &["b", "b", "b", "a"], "one"),
        page("b", &["a", "a"], "two"),
    ];
    let s = crawl_graph(&web, vec!["a".to_string(), "a".to_string()], 10, 3);
    assert_eq!(s.visited.len(), 2);
    for i in 0..s.visited.len() {
        for j in 0..i {
            assert_ne!(s.visited[i], s.visited[j]);
        }
    }
}

#[test]
fn failed_fetches_contribute_nothing() {
    let web = small_web();
    let s = crawl_graph(&web, vec!["nowhere".to_string()], 10, 1);
    assert_eq!(s.visited.len(), 1);
    assert_eq!(s.data.pages.len(), 0);
    assert_eq!(s.data.page_terms.len(), 0);
    assert_eq!(s.data.link_from.len(), 0);
}

#[test]
fn empty_seed_list_crawls_nothing() {
    let web = small_web();
    let s = crawl_graph(&web, Vec::new(), 10, 1);
    assert_eq!(s.visited.len(), 0);
    assert_eq!(s.data.pages.len(), 0);
}

#[test]
fn partial_page_contributes_links_but_no_terms() {
    let web = vec![
        SimPage {
            url: "a".to_string(),
            body_text: "paywalled stub".to_string(),
            links: vec!["b".to_string()],
            is_partial: true,
        },
        page("b", &[], "full body text"),
    ];
    let s = crawl_graph(&web, vec!["a".to_string()], 10, 1);
    // the partial page's link was still followed
    assert_eq!(s.visited.len(), 2);
    // both pages were recorded, one flagged partial
    assert_eq!(s.data.pages.len(), 2);
    assert!(s.data.pages.iter().any(|p| p.is_partial));
    // but only the full page counts for scoring
    assert_eq!(s.data.page_terms.len(), 1);
    assert_eq!(s.data.page_terms[0].0, "b");
    assert_eq!(s.data.link_from.len(), 1);
}

#[test]
fn scheduler_caps_in_flight_tasks() {
    let mut s = CrawlScheduler::new(
        vec!["a".to_string(), "b".to_string(), "c".to_string()],
        10,
        2,
    );
    let first = s.try_dispatch();
    let second = s.try_dispatch();
    let third = s.try_dispatch();
    assert_eq!(first, Some("a".to_string()));
    assert_eq!(second, Some("b".to_string()));
    assert_eq!(third, None, "concurrency budget must block the third task");
    s.on_fetch_failed();
    let fourth = s.try_dispatch();
    assert_eq!(fourth, Some("c".to_string()));
}

#[test]
fn success_outcome_is_recorded() {
    let mut s = CrawlScheduler::new(vec!["a".to_string()], 10, 1);
    let url = s.try_dispatch().unwrap();
    let result = ScrapeResult {
        url: url.clone(),
        title: Some("Title".to_string()),
        body_text: "the quick brown fox jumps".to_string(),
        links: vec!["b".to_string()],
        is_partial: false,
        language: "en".to_string(),
    };
    s.on_fetch_success(&url, result);
    assert_eq!(s.in_flight, 0);
    assert_eq!(s.data.pages.len(), 1);
    assert_eq!(s.data.page_terms.len(), 1);
    // "the" appears once, "quick" once; two-letter words would be dropped
    let counts = &s.data.page_terms[0].1;
    assert_eq!(counts.get(&"quick".to_string()), Some(1));
    assert_eq!(counts.get(&"fox".to_string()), Some(1));
    assert_eq!(counts.get(&"absent".to_string()), None);
}
