use search_engine::fixed::SCALE;
use search_engine::graph::LinkGraph;
use search_engine::pagerank::calculate_pagerank;

fn sum(v: &[u64]) -> u64 {
    v.iter().copied().sum()
}

#[test]
fn empty_graph_yields_empty_ranks() {
    let g = LinkGraph::new();
    let ranks = calculate_pagerank(&g);
    assert_eq!(ranks.len(), 0);
}

#[test]
fn single_dangling_node_holds_all_mass() {
    let mut g = LinkGraph::new();
    g.add_node();
    let ranks = calculate_pagerank(&g);
    assert_eq!(ranks.len(), 1);
    assert_eq!(ranks[0], SCALE);
}

#[test]
fn authority_mass_is_conserved_exactly() {
    // a: 0 -> 1, 0 -> 2; 1 -> 2; 2 dangling
    let mut g = LinkGraph::new();
    g.add_node();
    g.add_node();
    g.add_node();
    g.add_edge(0, 1);
    g.add_edge(0, 2);
    g.add_edge(1, 2);
    let ranks = calculate_pagerank(&g);
    assert_eq!(ranks.len(), 3);
    assert_eq!(sum(&ranks), SCALE);
}

#[test]
fn mass_conserved_with_many_dangling_nodes() {
    // a ring feeding several dangling nodes
    let mut g = LinkGraph::new();
    for _ in 0..7 {
        g.add_node();
    }
    g.add_edge(0, 1);
    g.add_edge(1, 2);
    g.add_edge(2, 0);
    g.add_edge(0, 3);
    g.add_edge(1, 4);
    g.add_edge(2, 5);
    // nodes 3..6 dangling
    let ranks = calculate_pagerank(&g);
    assert_eq!(sum(&ranks), SCALE);
}

#[test]
fn self_loop_is_not_filtered() {
    let mut g = LinkGraph::new();
    g.add_node();
    g.add_node();
    g.add_edge(0, 0);
    g.add_edge(0, 1);
    g.add_edge(1, 0);
    let ranks = calculate_pagerank(&g);
    assert_eq!(sum(&ranks), SCALE);
    assert!(ranks[0] > 0 && ranks[1] > 0);
}

#[test]
fn low_out_degree_sources_pass_more_authority() {
    // x is linked by two pages of out-degree 1; y is linked by two pages of
    // out-degree 10 (nine filler targets each). x must end up above y.
    let mut g = LinkGraph::new();
    let x = g.add_node(); // 0
    let y = g.add_node(); // 1
    let s1 = g.add_node();
    let s2 = g.add_node();
    let t1 = g.add_node();
    let t2 = g.add_node();
    g.add_edge(s1, x);
    g.add_edge(s2, x);
    g.add_edge(t1, y);
    g.add_edge(t2, y);
    for _ in 0..9 {
        let f = g.add_node();
        g.add_edge(t1, f);
        let f2 = g.add_node();
        g.add_edge(t2, f2);
    }
    let ranks = calculate_pagerank(&g);
    assert_eq!(sum(&ranks), SCALE);
    assert!(
        ranks[x] > ranks[y],
        "expected dilution: {} <= {}",
        ranks[x],
        ranks[y]
    );
}

#[test]
fn unlinked_node_receives_only_base_rank() {
    // u receives no links; every other node is linked by someone. u's rank
    // must be the smallest.
    let mut g = LinkGraph::new();
    let u = g.add_node();
    let a = g.add_node();
    let b = g.add_node();
    g.add_edge(a, b);
    g.add_edge(b, a);
    g.add_edge(u, a);
    let ranks = calculate_pagerank(&g);
    assert_eq!(sum(&ranks), SCALE);
    assert!(ranks[u] < ranks[a]);
    assert!(ranks[u] < ranks[b]);
}
