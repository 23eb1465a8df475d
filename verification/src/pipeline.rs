//! From accumulated crawl data to the final scored index: build the link
//! graph over node identifiers, run the authority computation, and combine
//! it with the relevance scores.

use crate::fixed::{lemma_sum_elem_le, sum, SCALE};
use crate::graph::LinkGraph;
use crate::index::ScoredIndex;
use crate::pagerank::{calculate_pagerank, initial_ranks, run_from, MAX_ITERATIONS};
use crate::scheduler::{seq_has_view, CrawlData};
use crate::scoring::{build_scored_index, scored_lookup};
use crate::terms::{lemma_find_absent, lemma_find_at_index, lemma_find_some_index, TermCounts};
use vstd::prelude::*;

verus! {

/// Whether node `v` has an edge to the node whose url reads `x`.
pub open spec fn edge_matches(table: Seq<String>, g: LinkGraph, v: int, x: Seq<char>) -> bool {
    exists|t: int|
        0 <= t < table.len() && (#[trigger] table[t])@ == x && g.links_to(v, t as usize)
}

/// Finds the node id of a url.
fn url_id(table: &Vec<String>, u: &String) -> (r: Option<usize>)
    ensures
        match r {
            Some(i) => i < table@.len() && table@[i as int]@ == u@,
            None => forall|i: int| 0 <= i < table@.len() ==> (#[trigger] table@[i])@ != u@,
        },
{
    let mut i: usize = 0;
    while i < table.len()
        invariant
            i <= table@.len(),
            forall|j: int| 0 <= j < i ==> (#[trigger] table@[j])@ != u@,
        decreases table@.len() - i,
    {
        if table[i] == *u {
            return Some(i);
        }
        i += 1;
    }
    None
}

/// Builds the link graph from the recorded per-page link lists: every
/// source page becomes a node (source `v` is node `v`), every linked url
/// becomes a node, and node `v` has an edge to node `t` exactly when source
/// `v` lists node `t`'s url.
pub fn build_link_graph(link_from: &Vec<(String, Vec<String>)>) -> (r: (Vec<String>, LinkGraph))
    requires
        forall|i1: int, i2: int|
            0 <= i1 < i2 < link_from@.len() ==> (#[trigger] link_from@[i1]).0@ != (
            #[trigger] link_from@[i2]).0@,
    ensures
        r.1.wf(),
        r.0@.len() == r.1.n(),
        forall|i1: int, i2: int|
            0 <= i1 < i2 < r.0@.len() ==> (#[trigger] r.0@[i1])@ != (#[trigger] r.0@[i2])@,
        link_from@.len() <= r.0@.len(),
        forall|v: int| 0 <= v < link_from@.len() ==> (#[trigger] r.0@[v])@ == link_from@[v].0@,
        forall|v: int, j: int|
            0 <= v < link_from@.len() && 0 <= j < link_from@[v].1@.len() ==> edge_matches(
                r.0@,
                r.1,
                v,
                (#[trigger] link_from@[v].1@[j])@,
            ),
        forall|v: int, e: int|
            0 <= v < link_from@.len() && 0 <= e < r.1.edges_of(v).len() ==> seq_has_view(
                link_from@[v].1@,
                r.0@[(#[trigger] r.1.edges_of(v)[e]) as int]@,
            ),
        forall|v: int| link_from@.len() <= v < r.1.n() ==> (#[trigger] r.1.edges_of(v)).len() == 0,
{
    let mut table: Vec<String> = Vec::new();
    let mut g = LinkGraph::new();
    let mut v: usize = 0;
    while v < link_from.len()
        invariant
            forall|i1: int, i2: int|
                0 <= i1 < i2 < link_from@.len() ==> (#[trigger] link_from@[i1]).0@ != (
                #[trigger] link_from@[i2]).0@,
            v <= link_from@.len(),
            table@.len() == v,
            g.wf(),
            g.n() == v,
            forall|w: int| 0 <= w < v ==> (#[trigger] table@[w])@ == link_from@[w].0@,
            forall|w: int| 0 <= w < v ==> (#[trigger] g.edges_of(w)).len() == 0,
        decreases link_from@.len() - v,
    {
        table.push(link_from[v].0.clone());
        g.add_node();
        v += 1;
    }
    proof {
        assert forall|i1: int, i2: int|
            0 <= i1 < i2 < table@.len() implies (#[trigger] table@[i1])@ != (
        #[trigger] table@[i2])@ by {
            assert(table@[i1]@ == link_from@[i1].0@);
            assert(table@[i2]@ == link_from@[i2].0@);
        }
    }
    let m = link_from.len();
    let mut v2: usize = 0;
    while v2 < m
        invariant
            forall|i1: int, i2: int|
                0 <= i1 < i2 < link_from@.len() ==> (#[trigger] link_from@[i1]).0@ != (
                #[trigger] link_from@[i2]).0@,
            m == link_from@.len(),
            v2 <= m,
            m <= table@.len(),
            table@.len() == g.n(),
            g.wf(),
            forall|i1: int, i2: int|
                0 <= i1 < i2 < table@.len() ==> (#[trigger] table@[i1])@ != (
                #[trigger] table@[i2])@,
            forall|w: int| 0 <= w < m ==> (#[trigger] table@[w])@ == link_from@[w].0@,
            forall|w: int, j: int|
                0 <= w < v2 && 0 <= j < link_from@[w].1@.len() ==> edge_matches(
                    table@,
                    g,
                    w,
                    (#[trigger] link_from@[w].1@[j])@,
                ),
            forall|w: int, e: int|
                0 <= w < m && 0 <= e < g.edges_of(w).len() ==> seq_has_view(
                    link_from@[w].1@,
                    table@[(#[trigger] g.edges_of(w)[e]) as int]@,
                ),
            forall|w: int| v2 <= w < g.n() ==> w >= m ==> (#[trigger] g.edges_of(w)).len() == 0,
            forall|w: int| v2 <= w < m ==> (#[trigger] g.edges_of(w)).len() == 0,
        decreases m - v2,
    {
        let links_len = link_from[v2].1.len();
        let mut j: usize = 0;
        while j < links_len
            invariant
                forall|i1: int, i2: int|
                    0 <= i1 < i2 < link_from@.len() ==> (#[trigger] link_from@[i1]).0@ != (
                    #[trigger] link_from@[i2]).0@,
                m == link_from@.len(),
                v2 < m,
                links_len == link_from@[v2 as int].1@.len(),
                j <= links_len,
                m <= table@.len(),
                table@.len() == g.n(),
                g.wf(),
                forall|i1: int, i2: int|
                    0 <= i1 < i2 < table@.len() ==> (#[trigger] table@[i1])@ != (
                    #[trigger] table@[i2])@,
                forall|w: int| 0 <= w < m ==> (#[trigger] table@[w])@ == link_from@[w].0@,
                forall|w: int, jj: int|
                    0 <= w < v2 && 0 <= jj < link_from@[w].1@.len() ==> edge_matches(
                        table@,
                        g,
                        w,
                        (#[trigger] link_from@[w].1@[jj])@,
                    ),
                forall|jj: int|
                    0 <= jj < j ==> edge_matches(
                        table@,
                        g,
                        v2 as int,
                        (#[trigger] link_from@[v2 as int].1@[jj])@,
                    ),
                forall|w: int, e: int|
                    0 <= w < m && 0 <= e < g.edges_of(w).len() ==> seq_has_view(
                        link_from@[w].1@,
                        table@[(#[trigger] g.edges_of(w)[e]) as int]@,
                    ),
                forall|w: int| v2 < w < g.n() ==> w >= m ==> (#[trigger] g.edges_of(w)).len() == 0,
                forall|w: int| v2 < w < m ==> (#[trigger] g.edges_of(w)).len() == 0,
            decreases links_len - j,
        {
            let ghost table_pre = table@;
            let ghost g_pre = g;
            let link = &link_from[v2].1[j];
            let tid: usize = match url_id(&table, link) {
                Some(t) => t,
                None => {
                    table.push(link.clone());
                    let id = g.add_node();
                    proof {
                        assert(table@[id as int]@ == link@);
                        assert forall|i1: int, i2: int|
                            0 <= i1 < i2 < table@.len() implies (#[trigger] table@[i1])@ != (
                        #[trigger] table@[i2])@ by {
                            if i2 < table_pre.len() {
                                assert(table_pre[i1]@ != table_pre[i2]@);
                            } else {
                                assert(table@[i2]@ == link@);
                                assert(table_pre[i1]@ != link@);
                            }
                        }
                    }
                    id
                },
            };
            proof {
                assert(tid < table@.len());
                assert(table@[tid as int]@ == link@);
            }
            g.add_edge(v2, tid);
            proof {
                // edges already matched stay matched: the table only grew and
                // node v2's edge list only gained the new target
                assert forall|w: int, jj: int|
                    0 <= w < v2 && 0 <= jj < link_from@[w].1@.len() implies edge_matches(
                    table@,
                    g,
                    w,
                    (#[trigger] link_from@[w].1@[jj])@,
                ) by {
                    assert(edge_matches(table_pre, g_pre, w, link_from@[w].1@[jj]@));
                    let t = choose|t: int|
                        0 <= t < table_pre.len() && (#[trigger] table_pre[t])@
                            == link_from@[w].1@[jj]@ && g_pre.links_to(w, t as usize);
                    assert(table@[t]@ == link_from@[w].1@[jj]@);
                    assert(g.edges_of(w) == g_pre.edges_of(w));
                    assert(g.links_to(w, t as usize));
                }
                assert forall|jj: int|
                    0 <= jj <= j implies edge_matches(
                    table@,
                    g,
                    v2 as int,
                    (#[trigger] link_from@[v2 as int].1@[jj])@,
                ) by {
                    if jj < j {
                        assert(edge_matches(table_pre, g_pre, v2 as int, link_from@[v2 as int].1@[jj]@));
                        let t = choose|t: int|
                            0 <= t < table_pre.len() && (#[trigger] table_pre[t])@
                                == link_from@[v2 as int].1@[jj]@ && g_pre.links_to(
                                v2 as int,
                                t as usize,
                            );
                        assert(table@[t]@ == link_from@[v2 as int].1@[jj]@);
                        assert(g_pre.edges_of(v2 as int).contains(t as usize));
                        assert(g.links_to(v2 as int, t as usize)) by {
                            if !g_pre.links_to(v2 as int, tid) {
                                assert(g.edges_of(v2 as int) == g_pre.edges_of(v2 as int).push(
                                    tid,
                                ));
                                let e = choose|e: int|
                                    0 <= e < g_pre.edges_of(v2 as int).len() && g_pre.edges_of(
                                        v2 as int,
                                    )[e] == t as usize;
                                assert(g.edges_of(v2 as int)[e] == t as usize);
                            }
                        }
                    } else {
                        assert(g.links_to(v2 as int, tid));
                        assert(table@[tid as int]@ == link_from@[v2 as int].1@[jj]@);
                    }
                }
                // every edge of v2 still names a listed link
                assert forall|w: int, e: int|
                    0 <= w < m && 0 <= e < g.edges_of(w).len() implies seq_has_view(
                    link_from@[w].1@,
                    table@[(#[trigger] g.edges_of(w)[e]) as int]@,
                ) by {
                    if w == v2 as int && e >= g_pre.edges_of(w).len() {
                        assert(g.edges_of(w)[e] == tid);
                        assert(table@[tid as int]@ == link_from@[v2 as int].1@[j as int]@);
                        assert(seq_has_view(link_from@[w].1@, link_from@[v2 as int].1@[j as int]@));
                    } else {
                        assert(g_pre.edges_of(w)[e] == g.edges_of(w)[e]);
                        assert(seq_has_view(link_from@[w].1@, table_pre[g_pre.edges_of(w)[e] as int]@));
                        assert(table@[g.edges_of(w)[e] as int]@ == table_pre[g_pre.edges_of(
                            w,
                        )[e] as int]@);
                    }
                }
            }
            j += 1;
        }
        v2 += 1;
    }
    (table, g)
}


/// Pairs each url of the table with its computed authority score.
pub fn authority_assoc(table: &Vec<String>, ranks: &Vec<u64>) -> (a: TermCounts)
    requires
        forall|i1: int, i2: int|
            0 <= i1 < i2 < table@.len() ==> (#[trigger] table@[i1])@ != (#[trigger] table@[i2])@,
        ranks@.len() == table@.len(),
        forall|i: int| 0 <= i < ranks@.len() ==> (#[trigger] ranks@[i]) <= SCALE,
    ensures
        a.wf(),
        forall|i: int|
            0 <= i < table@.len() ==> #[trigger] a.count_of(table@[i]@) == Some(ranks@[i]),
        forall|u: Seq<char>| !seq_has_view(table@, u) ==> #[trigger] a.count_of(u) is None,
        forall|u: Seq<char>| (#[trigger] a.count_of(u)) matches Some(r) ==> r <= SCALE,
{
    let mut entries: Vec<(String, u64)> = Vec::new();
    let mut i: usize = 0;
    while i < table.len()
        invariant
            forall|i1: int, i2: int|
                0 <= i1 < i2 < table@.len() ==> (#[trigger] table@[i1])@ != (
                #[trigger] table@[i2])@,
            ranks@.len() == table@.len(),
            i <= table@.len(),
            entries@.len() == i,
            forall|j: int|
                0 <= j < i ==> (#[trigger] entries@[j]).0@ == table@[j]@ && entries@[j].1
                    == ranks@[j],
        decreases table@.len() - i,
    {
        entries.push((table[i].clone(), ranks[i]));
        i += 1;
    }
    let a = TermCounts { entries };
    proof {
        assert forall|i1: int, i2: int|
            0 <= i1 < i2 < a.entries@.len() implies (#[trigger] a.entries@[i1]).0@ != (
        #[trigger] a.entries@[i2]).0@ by {
            assert(table@[i1]@ != table@[i2]@);
        }
        assert forall|w: int|
            0 <= w < table@.len() implies #[trigger] a.count_of(table@[w]@) == Some(
            ranks@[w],
        ) by {
            lemma_find_at_index(a.entries@, w);
        }
        assert forall|u: Seq<char>| !seq_has_view(table@, u) implies #[trigger] a.count_of(
            u,
        ) is None by {
            assert forall|w: int|
                0 <= w < a.entries@.len() implies (#[trigger] a.entries@[w]).0@ != u by {
                if a.entries@[w].0@ == u {
                    assert(table@[w]@ == u);
                    assert(seq_has_view(table@, u));
                }
            }
            lemma_find_absent(a.entries@, u);
        }
        assert forall|u: Seq<char>| ((#[trigger] a.count_of(u)) matches Some(r) ==> r
            <= SCALE) by {
            if a.count_of(u) is Some {
                lemma_find_some_index(a.entries@, u);
                let w = choose|w: int|
                    0 <= w < a.entries@.len() && (#[trigger] a.entries@[w]).0@ == u
                        && a.entries@[w].1 == a.count_of(u)->Some_0;
                assert(a.entries@[w].1 == ranks@[w]);
            }
        }
    }
    a
}

/// The artifacts of one scoring run.
pub struct ScoringOutcome {
    /// Every url of the link graph, indexed by node id.
    pub table: Vec<String>,
    /// The link graph over node ids.
    pub graph: LinkGraph,
    /// The authority score of each node.
    pub ranks: Vec<u64>,
    /// Authority scores keyed by url.
    pub authority: TermCounts,
    /// The final scored index.
    pub index: ScoredIndex,
}

/// Runs the whole scoring pipeline over frozen crawl data: builds the link
/// graph, computes the authority of every node — one whole unit of mass,
/// conserved exactly — and combines TF-IDF relevance with authority into
/// the scored index.
pub fn score_crawl(data: &CrawlData) -> (out: ScoringOutcome)
    requires
        data.wf(),
        data.page_terms@.len() <= SCALE,
    ensures
        out.graph.wf(),
        out.table@.len() == out.graph.n(),
        data.link_from@.len() <= out.table@.len(),
        forall|v: int|
            0 <= v < data.link_from@.len() ==> (#[trigger] out.table@[v])@
                == data.link_from@[v].0@,
        out.ranks@.len() == out.graph.n(),
        out.graph.n() > 0 ==> out.ranks@ == run_from(
            out.graph,
            initial_ranks(out.graph.n()),
            MAX_ITERATIONS as nat,
        ),
        out.graph.n() > 0 ==> sum(out.ranks@) == SCALE,
        out.authority.wf(),
        forall|i: int|
            0 <= i < out.table@.len() ==> #[trigger] out.authority.count_of(out.table@[i]@)
                == Some(out.ranks@[i]),
        forall|u: Seq<char>|
            !seq_has_view(out.table@, u) ==> #[trigger] out.authority.count_of(u) is None,
        out.index.wf(),
        forall|t: Seq<char>, u: Seq<char>|
            #[trigger] out.index.score_at(t, u) == scored_lookup(
                data.page_terms@,
                data.page_terms@.len() as u64,
                data.doc_freqs,
                out.authority,
                t,
                u,
            ),
{
    proof {
        assert forall|i1: int, i2: int|
            0 <= i1 < i2 < data.link_from@.len() implies (#[trigger] data.link_from@[i1]).0@ != (
        #[trigger] data.link_from@[i2]).0@ by {
            assert(data.link_from@[i1].0@ == data.page_terms@[i1].0@);
            assert(data.link_from@[i2].0@ == data.page_terms@[i2].0@);
            assert(data.page_terms@[i1].0@ != data.page_terms@[i2].0@);
        }
    }
    let (table, graph) = build_link_graph(&data.link_from);
    let ranks = calculate_pagerank(&graph);
    proof {
        if graph.n() > 0 {
            assert forall|i: int| 0 <= i < ranks@.len() implies (#[trigger] ranks@[i])
                <= SCALE by {
                lemma_sum_elem_le(ranks@, i);
            }
        }
    }
    let authority = authority_assoc(&table, &ranks);
    let index = build_scored_index(&data.page_terms, &data.doc_freqs, &authority);
    ScoringOutcome { table, graph, ranks, authority, index }
}

} // verus!
