//! The crawl scheduler: a frontier queue, a visited set with at-most-once
//! dispatch, a bounded in-flight budget, and the data completed fetch tasks
//! accumulate.
//!
//! The scheduler is a state machine: a driver asks it for the next url to
//! fetch ([`CrawlScheduler::try_dispatch`]) and reports every outcome back
//! ([`CrawlScheduler::on_fetch_success`], [`CrawlScheduler::on_fetch_failed`]).
//! No url is ever dispatched twice: the visited list stays duplicate-free.

use crate::terms::{add_doc_freqs, count_words, occ, TermCounts};
use crate::text::terms_of;
use std::collections::VecDeque;
use vstd::prelude::*;

verus! {

/// What one successful fetch+extract attempt yielded.
pub struct ScrapeResult {
    /// Canonical url of the page, after redirects.
    pub url: String,
    /// The page's title, if it has one.
    pub title: Option<String>,
    /// The page's visible text.
    pub body_text: String,
    /// Outbound absolute links, fragments stripped.
    pub links: Vec<String>,
    /// Whether only partial (paywalled) content was available.
    pub is_partial: bool,
    /// Detected language tag.
    pub language: String,
}

/// Whether some string of `v` reads `x`.
pub open spec fn seq_has_view(v: Seq<String>, x: Seq<char>) -> bool {
    exists|i: int| 0 <= i < v.len() && (#[trigger] v[i])@ == x
}

/// The frontier after the leading already-visited entries are dropped: the
/// first entry of the result, if any, is the next url to dispatch.
pub open spec fn drop_visited(f: Seq<String>, visited: Seq<String>) -> Seq<String>
    decreases f.len(),
{
    if f.len() == 0 {
        f
    } else if seq_has_view(visited, f[0]@) {
        drop_visited(f.drop_first(), visited)
    } else {
        f
    }
}

/// Dropped frontier entries are all visited: every frontier url is either
/// visited or still in the remaining frontier.
pub proof fn lemma_drop_visited_covers(f: Seq<String>, visited: Seq<String>, i: int)
    requires
        0 <= i < f.len(),
    ensures
        seq_has_view(visited, f[i]@) || seq_has_view(drop_visited(f, visited), f[i]@),
    decreases f.len(),
{
    if f.len() > 0 {
        if seq_has_view(visited, f[0]@) {
            if i > 0 {
                assert(f.drop_first()[i - 1] == f[i]);
                lemma_drop_visited_covers(f.drop_first(), visited, i - 1);
            }
        } else {
            assert(drop_visited(f, visited)[i] == f[i]);
        }
    }
}

/// An exhausted frontier holds only visited urls.
pub proof fn lemma_drop_visited_empty(f: Seq<String>, visited: Seq<String>, i: int)
    requires
        drop_visited(f, visited).len() == 0,
        0 <= i < f.len(),
    ensures
        seq_has_view(visited, f[i]@),
{
    lemma_drop_visited_covers(f, visited, i);
}

/// Looks `x` up among the strings of `v`.
fn contains_view(v: &Vec<String>, x: &String) -> (r: bool)
    ensures
        r == seq_has_view(v@, x@),
{
    let mut i: usize = 0;
    while i < v.len()
        invariant
            i <= v@.len(),
            forall|j: int| 0 <= j < i ==> (#[trigger] v@[j])@ != x@,
        decreases v@.len() - i,
    {
        if v[i] == *x {
            return true;
        }
        i += 1;
    }
    proof {
        if seq_has_view(v@, x@) {
            let j = choose|j: int| 0 <= j < v@.len() && (#[trigger] v@[j])@ == x@;
            assert(v@[j]@ != x@);
        }
    }
    false
}

/// Copies a vector of strings.
fn clone_strings(v: &Vec<String>) -> (r: Vec<String>)
    ensures
        r@ =~= v@,
{
    let mut r: Vec<String> = Vec::new();
    let mut i: usize = 0;
    while i < v.len()
        invariant
            i <= v@.len(),
            r@.len() == i,
            forall|j: int| 0 <= j < i ==> r@[j] == v@[j],
        decreases v@.len() - i,
    {
        r.push(v[i].clone());
        i += 1;
    }
    r
}

/// The data a crawl accumulates: every recorded page, and — for non-partial
/// pages only — term counts, document frequencies and link graph entries.
pub struct CrawlData {
    /// Every successfully fetched page, in completion order.
    pub pages: Vec<ScrapeResult>,
    /// Per non-partial page: its url and its term counts.
    pub page_terms: Vec<(String, TermCounts)>,
    /// For each term, the number of non-partial pages holding it.
    pub doc_freqs: TermCounts,
    /// Link graph entries: per non-partial page, its url and outbound links.
    pub link_from: Vec<(String, Vec<String>)>,
}

/// Whether a non-partial page with url `u` was recorded.
pub open spec fn page_recorded(data: CrawlData, u: Seq<char>) -> bool {
    exists|i: int| 0 <= i < data.page_terms@.len() && (#[trigger] data.page_terms@[i]).0@ == u
}

impl CrawlData {
    /// Well-formed: page urls are distinct, counts are well-formed maps,
    /// document frequencies count between one and all recorded pages, and
    /// the link graph entries run parallel to the pages.
    pub open spec fn wf(self) -> bool {
        &&& forall|i1: int, i2: int|
            0 <= i1 < i2 < self.page_terms@.len() ==> (#[trigger] self.page_terms@[i1]).0@ != (
            #[trigger] self.page_terms@[i2]).0@
        &&& forall|i: int|
            0 <= i < self.page_terms@.len() ==> (#[trigger] self.page_terms@[i]).1.wf()
                && self.page_terms@[i].1.total_spec() <= u64::MAX
        &&& self.doc_freqs.wf()
        &&& forall|t: Seq<char>|
            (#[trigger] self.doc_freqs.count_of(t)) matches Some(c) ==> 1 <= c
                <= self.page_terms@.len()
        &&& self.link_from@.len() == self.page_terms@.len()
        &&& forall|i: int|
            0 <= i < self.link_from@.len() ==> (#[trigger] self.link_from@[i]).0@
                == self.page_terms@[i].0@
    }
}

/// The crawl scheduler state.
pub struct CrawlScheduler {
    /// Urls awaiting a fetch attempt, in first-in first-out order; may hold
    /// duplicates, which dispatch discards.
    pub frontier: VecDeque<String>,
    /// Every url dispatched so far, in dispatch order; duplicate-free.
    pub visited: Vec<String>,
    /// Number of dispatched fetches not yet reported back.
    pub in_flight: usize,
    /// The crawl stops once this many urls were dispatched.
    pub page_limit: usize,
    /// Upper bound on concurrently in-flight fetches.
    pub concurrency: usize,
    /// What completed tasks accumulated.
    pub data: CrawlData,
}

impl CrawlScheduler {
    /// Well-formed scheduler state; in particular, no url was dispatched
    /// twice.
    pub open spec fn wf(self) -> bool {
        &&& forall|i1: int, i2: int|
            0 <= i1 < i2 < self.visited@.len() ==> (#[trigger] self.visited@[i1])@ != (
            #[trigger] self.visited@[i2])@
        &&& self.visited@.len() <= self.page_limit
        &&& self.in_flight <= self.concurrency
        &&& 1 <= self.concurrency
        &&& self.page_limit < u64::MAX
        &&& self.data.pages@.len() + self.in_flight <= self.visited@.len()
        &&& self.data.page_terms@.len() <= self.data.pages@.len()
        &&& self.data.wf()
    }

    /// Whether `u` was dispatched already.
    pub open spec fn visited_has(self, u: Seq<char>) -> bool {
        seq_has_view(self.visited@, u)
    }

    /// Whether `u` awaits dispatch in the frontier.
    pub open spec fn frontier_has(self, u: Seq<char>) -> bool {
        seq_has_view(self.frontier@, u)
    }

    /// Sets a crawl up: the frontier holds the seed urls, nothing is
    /// visited or in flight yet.
    pub fn new(seeds: Vec<String>, page_limit: usize, concurrency: usize) -> (s: Self)
        requires
            1 <= concurrency,
            page_limit < u64::MAX,
        ensures
            s.wf(),
            s.frontier@ == seeds@,
            s.visited@.len() == 0,
            s.in_flight == 0,
            s.page_limit == page_limit,
            s.concurrency == concurrency,
            s.data.pages@.len() == 0,
            s.data.page_terms@.len() == 0,
            s.data.link_from@.len() == 0,
            forall|t: Seq<char>| #[trigger] s.data.doc_freqs.count_of(t) == None::<u64>,
    {
        let mut frontier: VecDeque<String> = VecDeque::new();
        let mut i: usize = 0;
        while i < seeds.len()
            invariant
                i <= seeds@.len(),
                frontier@.len() == i,
                forall|j: int| 0 <= j < i ==> frontier@[j] == seeds@[j],
            decreases seeds@.len() - i,
        {
            frontier.push_back(seeds[i].clone());
            i += 1;
        }
        proof {
            assert(frontier@ =~= seeds@);
        }
        CrawlScheduler {
            frontier,
            visited: Vec::new(),
            in_flight: 0,
            page_limit,
            concurrency,
            data: CrawlData {
                pages: Vec::new(),
                page_terms: Vec::new(),
                doc_freqs: TermCounts::new(),
                link_from: Vec::new(),
            },
        }
    }

    /// Takes the next url to fetch, if the crawl may and can dispatch one:
    /// frontier entries already visited are discarded, and the first fresh
    /// one is atomically marked visited — so no url is ever handed out
    /// twice — and counted in flight. `None` means the in-flight budget or
    /// the page limit is exhausted, or no fresh url remains.
    pub fn try_dispatch(&mut self) -> (r: Option<String>)
        requires
            old(self).wf(),
        ensures
            final(self).wf(),
            final(self).visited@.len() >= old(self).visited@.len(),
            final(self).page_limit == old(self).page_limit,
            final(self).concurrency == old(self).concurrency,
            final(self).data == old(self).data,
            match r {
                Some(u) => {
                    let rest = drop_visited(old(self).frontier@, old(self).visited@);
                    &&& old(self).in_flight < old(self).concurrency
                    &&& old(self).visited@.len() < old(self).page_limit
                    &&& rest.len() > 0
                    &&& u == rest[0]
                    &&& !seq_has_view(old(self).visited@, u@)
                    &&& final(self).frontier@ == rest.drop_first()
                    &&& final(self).visited@ == old(self).visited@.push(u)
                    &&& final(self).in_flight == old(self).in_flight + 1
                },
                None => {
                    &&& final(self).visited@ == old(self).visited@
                    &&& final(self).in_flight == old(self).in_flight
                    &&& (old(self).in_flight == old(self).concurrency || old(self).visited@.len()
                        == old(self).page_limit || drop_visited(
                        old(self).frontier@,
                        old(self).visited@,
                    ).len() == 0)
                    &&& (old(self).in_flight < old(self).concurrency && old(self).visited@.len()
                        < old(self).page_limit ==> final(self).frontier@ == drop_visited(
                        old(self).frontier@,
                        old(self).visited@,
                    ))
                    &&& (final(self).frontier@ == old(self).frontier@ || final(self).frontier@
                        == drop_visited(old(self).frontier@, old(self).visited@))
                },
            },
    {
        if self.in_flight >= self.concurrency || self.visited.len() >= self.page_limit {
            return None;
        }
        loop
            invariant_except_break
                self.visited@ == old(self).visited@,
                self.in_flight == old(self).in_flight,
                self.page_limit == old(self).page_limit,
                self.concurrency == old(self).concurrency,
                self.data == old(self).data,
                old(self).wf(),
                self.in_flight < self.concurrency,
                self.visited@.len() < self.page_limit,
                drop_visited(old(self).frontier@, old(self).visited@) == drop_visited(
                    self.frontier@,
                    self.visited@,
                ),
            decreases self.frontier@.len(),
        {
            let ghost f_before = self.frontier@;
            match self.frontier.pop_front() {
                None => {
                    proof {
                        assert(drop_visited(f_before, self.visited@).len() == 0);
                    }
                    return None;
                },
                Some(u) => {
                    proof {
                        assert(self.frontier@ =~= f_before.drop_first());
                    }
                    if contains_view(&self.visited, &u) {
                        proof {
                            assert(seq_has_view(self.visited@, f_before[0]@));
                            assert(drop_visited(f_before, self.visited@) == drop_visited(
                                self.frontier@,
                                self.visited@,
                            ));
                        }
                    } else {
                        let dispatched = u.clone();
                        self.visited.push(u);
                        self.in_flight = self.in_flight + 1;
                        proof {
                            let rest = drop_visited(old(self).frontier@, old(self).visited@);
                            assert(!seq_has_view(old(self).visited@, f_before[0]@));
                            assert(rest == f_before);
                            assert(rest[0] == self.visited@.last());
                            assert(rest.drop_first() == self.frontier@);
                            assert forall|i1: int, i2: int|
                                0 <= i1 < i2 < self.visited@.len() implies (
                            #[trigger] self.visited@[i1])@ != (#[trigger] self.visited@[i2])@ by {
                                if i2 < self.visited@.len() - 1 {
                                    assert(old(self).visited@[i1]@ != old(self).visited@[i2]@);
                                } else {
                                    assert(!seq_has_view(old(self).visited@, self.visited@[i2]@));
                                    if self.visited@[i1]@ == self.visited@[i2]@ {
                                        assert(seq_has_view(
                                            old(self).visited@,
                                            self.visited@[i2]@,
                                        ));
                                    }
                                }
                            }
                        }
                        return Some(dispatched);
                    }
                },
            }
        }
    }

    /// Reports a failed or timed-out fetch: the page is discarded, nothing
    /// else changes.
    pub fn on_fetch_failed(&mut self)
        requires
            old(self).wf(),
            old(self).in_flight > 0,
        ensures
            final(self).wf(),
            final(self).in_flight == old(self).in_flight - 1,
            final(self).frontier@ == old(self).frontier@,
            final(self).visited@ == old(self).visited@,
            final(self).page_limit == old(self).page_limit,
            final(self).concurrency == old(self).concurrency,
            final(self).data == old(self).data,
    {
        self.in_flight = self.in_flight - 1;
    }
}


impl CrawlScheduler {
    /// Reports a successful fetch of the dispatched url `url`: every
    /// extracted link joins the frontier (duplicates and all — dispatch
    /// deduplicates), the page is recorded, and — unless the page is
    /// partial or its url was already recorded — its term counts, its
    /// document frequency contributions and its link graph entry are
    /// accumulated. A partial page contributes links but no terms.
    pub fn on_fetch_success(&mut self, url: &String, result: ScrapeResult)
        requires
            old(self).wf(),
            old(self).in_flight > 0,
        ensures
            final(self).wf(),
            final(self).in_flight == old(self).in_flight - 1,
            final(self).visited@ == old(self).visited@,
            final(self).page_limit == old(self).page_limit,
            final(self).concurrency == old(self).concurrency,
            final(self).frontier@ == old(self).frontier@ + result.links@,
            final(self).data.pages@ == old(self).data.pages@.push(result),
            result.is_partial || page_recorded(old(self).data, url@) ==> {
                &&& final(self).data.page_terms@ == old(self).data.page_terms@
                &&& final(self).data.doc_freqs == old(self).data.doc_freqs
                &&& final(self).data.link_from@ == old(self).data.link_from@
            },
            !result.is_partial && !page_recorded(old(self).data, url@) ==> {
                &&& final(self).data.page_terms@.len() == old(self).data.page_terms@.len() + 1
                &&& final(self).data.page_terms@.drop_last() == old(self).data.page_terms@
                &&& final(self).data.page_terms@.last().0@ == url@
                &&& forall|t: Seq<char>|
                    #[trigger] final(self).data.page_terms@.last().1.count_of(t) == (if occ(
                        terms_of(result.body_text@),
                        t,
                    ) > 0 {
                        Some(occ(terms_of(result.body_text@), t) as u64)
                    } else {
                        None::<u64>
                    })
                &&& final(self).data.page_terms@.last().1.total_spec() == terms_of(
                    result.body_text@,
                ).len()
                &&& forall|t: Seq<char>|
                    #[trigger] final(self).data.doc_freqs.count_of(t) == (match old(
                        self,
                    ).data.doc_freqs.count_of(t) {
                        Some(c) => Some(
                            (c + if occ(terms_of(result.body_text@), t) > 0 {
                                1int
                            } else {
                                0int
                            }) as u64,
                        ),
                        None => if occ(terms_of(result.body_text@), t) > 0 {
                            Some(1u64)
                        } else {
                            None::<u64>
                        },
                    })
                &&& final(self).data.link_from@.drop_last() == old(self).data.link_from@
                &&& final(self).data.link_from@.last().0@ == url@
                &&& final(self).data.link_from@.last().1@ == result.links@
            },
    {
        self.in_flight = self.in_flight - 1;
        let mut i: usize = 0;
        let ghost f0 = self.frontier@;
        while i < result.links.len()
            invariant
                i <= result.links@.len(),
                self.frontier@ == f0 + result.links@.take(i as int),
                self.visited@ == old(self).visited@,
                self.in_flight == old(self).in_flight - 1,
                self.page_limit == old(self).page_limit,
                self.concurrency == old(self).concurrency,
                self.data == old(self).data,
                old(self).wf(),
            decreases result.links@.len() - i,
        {
            proof {
                assert(f0 + result.links@.take(i + 1) =~= (f0 + result.links@.take(i as int)).push(
                    result.links@[i as int],
                ));
            }
            self.frontier.push_back(result.links[i].clone());
            i += 1;
        }
        proof {
            assert(self.frontier@ =~= f0 + result.links@);
        }
        let partial = result.is_partial;
        let already = contains_page(&self.data.page_terms, url);
        if !partial && !already {
            let counts = count_words(result.body_text.as_str());
            let ghost pt0 = self.data.page_terms@;
            let ghost df0 = self.data.doc_freqs;
            proof {
                assert forall|t: Seq<char>| ((#[trigger] self.data.doc_freqs.count_of(t)) matches
                    Some(c) ==> c < u64::MAX) by {
                    assert(self.data.page_terms@.len() <= self.page_limit);
                }
            }
            add_doc_freqs(&mut self.data.doc_freqs, &counts);
            self.data.page_terms.push((url.clone(), counts));
            self.data.link_from.push((url.clone(), clone_strings(&result.links)));
            proof {
                assert(self.data.page_terms@.drop_last() =~= pt0);
                assert(self.data.link_from@.drop_last() =~= old(self).data.link_from@);
                assert(self.data.page_terms@.last().0@ == url@);
                assert forall|i1: int, i2: int|
                    0 <= i1 < i2 < self.data.page_terms@.len() implies (
                #[trigger] self.data.page_terms@[i1]).0@ != (
                #[trigger] self.data.page_terms@[i2]).0@ by {
                    if i2 < pt0.len() {
                        assert(pt0[i1].0@ != pt0[i2].0@);
                    } else {
                        assert(self.data.page_terms@[i2].0@ == url@);
                        assert(!page_recorded(old(self).data, url@));
                        if pt0[i1].0@ == url@ {
                            assert(page_recorded(old(self).data, url@));
                        }
                    }
                }
                assert forall|t: Seq<char>| ((#[trigger] self.data.doc_freqs.count_of(t)) matches
                    Some(c) ==> 1 <= c <= self.data.page_terms@.len()) by {
                    if df0.count_of(t) is Some {
                        assert(1 <= df0.count_of(t)->Some_0 <= pt0.len());
                    }
                }
            }
        }
        self.data.pages.push(result);
        proof {
            assert(self.data.pages@.drop_last() =~= old(self).data.pages@);
        }
    }
}

/// Looks a url up among the recorded pages.
fn contains_page(v: &Vec<(String, TermCounts)>, x: &String) -> (r: bool)
    ensures
        r == exists|i: int| 0 <= i < v@.len() && (#[trigger] v@[i]).0@ == x@,
{
    let mut i: usize = 0;
    while i < v.len()
        invariant
            i <= v@.len(),
            forall|j: int| 0 <= j < i ==> (#[trigger] v@[j]).0@ != x@,
        decreases v@.len() - i,
    {
        if v[i].0 == *x {
            return true;
        }
        i += 1;
    }
    proof {
        if exists|j: int| 0 <= j < v@.len() && (#[trigger] v@[j]).0@ == x@ {
            let j = choose|j: int| 0 <= j < v@.len() && (#[trigger] v@[j]).0@ == x@;
            assert(v@[j].0@ != x@);
        }
    }
    false
}


/// A page of an in-memory web, for crawls driven without network I/O.
pub struct SimPage {
    /// The page's url.
    pub url: String,
    /// The page's visible text.
    pub body_text: String,
    /// Outbound links.
    pub links: Vec<String>,
    /// Whether the page only offers partial content.
    pub is_partial: bool,
}

/// Whether `x` is a link of a web page whose url is among `among`.
pub open spec fn linked_from_among(web: Seq<SimPage>, among: Seq<String>, x: Seq<char>) -> bool {
    exists|w: int, l: int|
        0 <= w < web.len() && seq_has_view(among, (#[trigger] web[w]).url@) && 0 <= l
            < web[w].links@.len() && (#[trigger] web[w].links@[l])@ == x
}

/// The urls reachable from the seeds in at most `k` link steps: a seed, or
/// a link of a reachable web page.
pub open spec fn reachable_within(
    web: Seq<SimPage>,
    seeds: Seq<String>,
    k: nat,
    x: Seq<char>,
) -> bool
    decreases k,
{
    seq_has_view(seeds, x) || (k > 0 && exists|w: int, l: int|
        0 <= w < web.len() && reachable_within(web, seeds, (k - 1) as nat, (#[trigger] web[w]).url@)
            && 0 <= l < web[w].links@.len() && (#[trigger] web[w].links@[l])@ == x)
}

/// Reachability only grows with the step budget.
pub proof fn lemma_reachable_mono(
    web: Seq<SimPage>,
    seeds: Seq<String>,
    k: nat,
    k2: nat,
    x: Seq<char>,
)
    requires
        k <= k2,
        reachable_within(web, seeds, k, x),
    ensures
        reachable_within(web, seeds, k2, x),
    decreases k,
{
    if !seq_has_view(seeds, x) {
        let (w, l) = choose|w: int, l: int|
            0 <= w < web.len() && reachable_within(web, seeds, (k - 1) as nat, (
            #[trigger] web[w]).url@) && 0 <= l < web[w].links@.len() && (
            #[trigger] web[w].links@[l])@ == x;
        lemma_reachable_mono(web, seeds, (k - 1) as nat, (k2 - 1) as nat, web[w].url@);
    }
}

/// Every entry of the remaining frontier was already in the frontier before.
proof fn lemma_drop_visited_sub(f: Seq<String>, visited: Seq<String>, j: int)
    requires
        0 <= j < drop_visited(f, visited).len(),
    ensures
        f.contains(drop_visited(f, visited)[j]),
    decreases f.len(),
{
    if f.len() > 0 {
        if seq_has_view(visited, f[0]@) {
            lemma_drop_visited_sub(f.drop_first(), visited, j);
            let r = drop_visited(f, visited);
            let i = choose|i: int| 0 <= i < f.drop_first().len() && f.drop_first()[i] == r[j];
            assert(f[i + 1] == r[j]);
        } else {
            assert(drop_visited(f, visited)[j] == f[j]);
        }
    }
}

/// Looks a url up in the web.
fn web_lookup<'a>(web: &'a Vec<SimPage>, u: &String) -> (r: Option<&'a SimPage>)
    ensures
        match r {
            Some(p) => exists|w: int|
                0 <= w < web@.len() && (#[trigger] web@[w]).url@ == u@ && web@[w] == *p,
            None => forall|w: int| 0 <= w < web@.len() ==> (#[trigger] web@[w]).url@ != u@,
        },
{
    let mut i: usize = 0;
    while i < web.len()
        invariant
            i <= web@.len(),
            forall|j: int| 0 <= j < i ==> (#[trigger] web@[j]).url@ != u@,
        decreases web@.len() - i,
    {
        if web[i].url == *u {
            return Some(&web[i]);
        }
        i += 1;
    }
    None
}

/// Runs a whole crawl over an in-memory web, one fetch at a time: a
/// dispatched url that names a web page succeeds with that page's links and
/// text, any other dispatch fails.
///
/// The crawl always terminates. No url is ever dispatched twice, and at
/// most `page_limit` urls are dispatched. Every visited url is a seed or a
/// link of a visited web page. And unless the crawl stopped at its page
/// limit, it ran the frontier dry: every seed was visited, and every link
/// of every visited web page was visited too — the crawl covered exactly
/// what was reachable.
pub fn crawl_graph(
    web: &Vec<SimPage>,
    seeds: Vec<String>,
    page_limit: usize,
    concurrency: usize,
) -> (s: CrawlScheduler)
    requires
        1 <= concurrency,
        page_limit < u64::MAX,
        forall|w1: int, w2: int|
            0 <= w1 < w2 < web@.len() ==> (#[trigger] web@[w1]).url@ != (#[trigger] web@[w2]).url@,
    ensures
        s.wf(),
        s.in_flight == 0,
        s.page_limit == page_limit,
        s.visited@.len() <= page_limit,
        forall|i1: int, i2: int|
            0 <= i1 < i2 < s.visited@.len() ==> (#[trigger] s.visited@[i1])@ != (
            #[trigger] s.visited@[i2])@,
        forall|i: int|
            0 <= i < s.visited@.len() ==> seq_has_view(seeds@, (#[trigger] s.visited@[i])@)
                || linked_from_among(web@, s.visited@.take(i), s.visited@[i]@),
        s.visited@.len() == page_limit || {
            &&& forall|i: int|
                0 <= i < seeds@.len() ==> s.visited_has((#[trigger] seeds@[i])@)
            &&& forall|w: int, l: int|
                0 <= w < web@.len() && s.visited_has((#[trigger] web@[w]).url@) && 0 <= l
                    < web@[w].links@.len() ==> s.visited_has((#[trigger] web@[w].links@[l])@)
        },
{
    let mut s = CrawlScheduler::new(seeds, page_limit, concurrency);
    loop
        invariant_except_break
            s.wf(),
            s.in_flight == 0,
            s.page_limit == page_limit,
            s.concurrency == concurrency,
            forall|w1: int, w2: int|
                0 <= w1 < w2 < web@.len() ==> (#[trigger] web@[w1]).url@ != (
                #[trigger] web@[w2]).url@,
            forall|i: int|
                0 <= i < seeds@.len() ==> s.visited_has((#[trigger] seeds@[i])@)
                    || s.frontier_has(seeds@[i]@),
            forall|w: int, l: int|
                0 <= w < web@.len() && s.visited_has((#[trigger] web@[w]).url@) && 0 <= l
                    < web@[w].links@.len() ==> s.visited_has((#[trigger] web@[w].links@[l])@)
                    || s.frontier_has(web@[w].links@[l]@),
            forall|i: int|
                0 <= i < s.visited@.len() ==> seq_has_view(seeds@, (#[trigger] s.visited@[i])@)
                    || linked_from_among(web@, s.visited@.take(i), s.visited@[i]@),
            forall|j: int|
                0 <= j < s.frontier@.len() ==> seq_has_view(seeds@, (#[trigger] s.frontier@[j])@)
                    || linked_from_among(web@, s.visited@, s.frontier@[j]@),
        ensures
            s.wf(),
            s.in_flight == 0,
            s.page_limit == page_limit,
            forall|i: int|
                0 <= i < s.visited@.len() ==> seq_has_view(seeds@, (#[trigger] s.visited@[i])@)
                    || linked_from_among(web@, s.visited@.take(i), s.visited@[i]@),
            s.visited@.len() == page_limit || {
                &&& forall|i: int|
                    0 <= i < seeds@.len() ==> s.visited_has((#[trigger] seeds@[i])@)
                &&& forall|w: int, l: int|
                    0 <= w < web@.len() && s.visited_has((#[trigger] web@[w]).url@) && 0 <= l
                        < web@[w].links@.len() ==> s.visited_has((#[trigger] web@[w].links@[l])@)
            },
        decreases s.page_limit - s.visited@.len(),
    {
        let ghost s_pre = s;
        match s.try_dispatch() {
            None => {
                proof {
                    if s.visited@.len() != page_limit {
                    assert(drop_visited(s_pre.frontier@, s_pre.visited@).len() == 0);
                    assert forall|j: int|
                        0 <= j < s_pre.frontier@.len() implies seq_has_view(
                        s.visited@,
                        (#[trigger] s_pre.frontier@[j])@,
                    ) by {
                        lemma_drop_visited_empty(s_pre.frontier@, s_pre.visited@, j);
                    }
                    assert forall|i: int|
                        0 <= i < seeds@.len() implies s.visited_has(
                        (#[trigger] seeds@[i])@,
                    ) by {
                        if s_pre.frontier_has(seeds@[i]@) {
                            let j = choose|j: int|
                                0 <= j < s_pre.frontier@.len() && (#[trigger] s_pre.frontier@[j])@
                                    == seeds@[i]@;
                            assert(seq_has_view(s.visited@, s_pre.frontier@[j]@));
                        }
                    }
                    assert forall|w: int, l: int|
                        0 <= w < web@.len() && s.visited_has((#[trigger] web@[w]).url@) && 0 <= l
                            < web@[w].links@.len() implies s.visited_has(
                        (#[trigger] web@[w].links@[l])@,
                    ) by {
                        if s_pre.frontier_has(web@[w].links@[l]@) {
                            let j = choose|j: int|
                                0 <= j < s_pre.frontier@.len() && (#[trigger] s_pre.frontier@[j])@
                                    == web@[w].links@[l]@;
                            assert(seq_has_view(s.visited@, s_pre.frontier@[j]@));
                        }
                    }
                    }
                }
                break ;
            },
            Some(u) => {
                proof {
                    lemma_dispatch_keeps_cover(s_pre, s, u, web@, seeds@);
                }
                let outcome = web_lookup(web, &u);
                match outcome {
                    Some(page) => {
                        let result = ScrapeResult {
                            url: u.clone(),
                            title: None,
                            body_text: page.body_text.clone(),
                            links: clone_strings(&page.links),
                            is_partial: page.is_partial,
                            language: String::new(),
                        };
                        let ghost s_mid = s;
                        let ghost links = result.links@;
                        s.on_fetch_success(&u, result);
                        proof {
                            assert(s_mid.visited@.last() == u);
                            assert(s_mid.visited@[s_mid.visited@.len() - 1]@ == u@);
                            assert(s_mid.visited_has(u@));
                            let w = choose|w: int|
                                0 <= w < web@.len() && (#[trigger] web@[w]).url@ == u@ && web@[w]
                                    == *page;
                            assert(web@[w].links@.len() == links.len());
                            assert(forall|l: int|
                                0 <= l < links.len() ==> (#[trigger] web@[w].links@[l])
                                    == page.links@[l]);
                            assert forall|l: int|
                                0 <= l < links.len() implies (#[trigger] web@[w].links@[l])@
                                == links[l]@ by {
                                assert(links[l] == page.links@[l]);
                            }
                            lemma_success_keeps_cover(s_mid, s, u@, links, web@, seeds@);
                        }
                    },
                    None => {
                        s.on_fetch_failed();
                    },
                }
            },
        }
    }
    s
}


/// After a dispatch, the cover invariants still hold — except that the
/// links of a web page whose url was just dispatched are not yet due.
proof fn lemma_dispatch_keeps_cover(
    pre: CrawlScheduler,
    post: CrawlScheduler,
    u: String,
    web: Seq<SimPage>,
    seeds: Seq<String>,
)
    requires
        ({
            let rest = drop_visited(pre.frontier@, pre.visited@);
            &&& rest.len() > 0
            &&& u == rest[0]
            &&& post.frontier@ == rest.drop_first()
            &&& post.visited@ == pre.visited@.push(u)
        }),
        forall|i: int|
            0 <= i < seeds.len() ==> pre.visited_has((#[trigger] seeds[i])@) || pre.frontier_has(
                seeds[i]@,
            ),
        forall|w: int, l: int|
            0 <= w < web.len() && pre.visited_has((#[trigger] web[w]).url@) && 0 <= l
                < web[w].links@.len() ==> pre.visited_has((#[trigger] web[w].links@[l])@)
                || pre.frontier_has(web[w].links@[l]@),
        forall|i: int|
            0 <= i < pre.visited@.len() ==> seq_has_view(seeds, (#[trigger] pre.visited@[i])@)
                || linked_from_among(web, pre.visited@.take(i), pre.visited@[i]@),
        forall|j: int|
            0 <= j < pre.frontier@.len() ==> seq_has_view(seeds, (#[trigger] pre.frontier@[j])@)
                || linked_from_among(web, pre.visited@, pre.frontier@[j]@),
    ensures
        forall|i: int|
            0 <= i < seeds.len() ==> post.visited_has((#[trigger] seeds[i])@) || post.frontier_has(
                seeds[i]@,
            ),
        forall|w: int, l: int|
            0 <= w < web.len() && post.visited_has((#[trigger] web[w]).url@) && web[w].url@ != u@
                && 0 <= l < web[w].links@.len() ==> post.visited_has(
                (#[trigger] web[w].links@[l])@,
            ) || post.frontier_has(web[w].links@[l]@),
        forall|i: int|
            0 <= i < post.visited@.len() ==> seq_has_view(seeds, (#[trigger] post.visited@[i])@)
                || linked_from_among(web, post.visited@.take(i), post.visited@[i]@),
        forall|j: int|
            0 <= j < post.frontier@.len() ==> seq_has_view(seeds, (#[trigger] post.frontier@[j])@)
                || linked_from_among(web, post.visited@, post.frontier@[j]@),
{
    let rest = drop_visited(pre.frontier@, pre.visited@);
    // pre-visited urls stay visited
    assert forall|x: Seq<char>| seq_has_view(pre.visited@, x) implies seq_has_view(
        post.visited@,
        x,
    ) by {
        let i = choose|i: int| 0 <= i < pre.visited@.len() && (#[trigger] pre.visited@[i])@ == x;
        assert(post.visited@[i]@ == x);
    }
    // a pre-frontier url is now visited or still in the frontier
    assert forall|x: Seq<char>| seq_has_view(pre.frontier@, x) implies seq_has_view(
        post.visited@,
        x,
    ) || seq_has_view(post.frontier@, x) by {
        let j = choose|j: int| 0 <= j < pre.frontier@.len() && (#[trigger] pre.frontier@[j])@ == x;
        lemma_drop_visited_covers(pre.frontier@, pre.visited@, j);
        if seq_has_view(pre.visited@, x) {
        } else {
            assert(seq_has_view(rest, x));
            let r = choose|r: int| 0 <= r < rest.len() && (#[trigger] rest[r])@ == x;
            if r == 0 {
                assert(post.visited@.last()@ == x);
            } else {
                assert(post.frontier@[r - 1]@ == x);
            }
        }
    }
    // provenance of the one new visited url: it came from the old frontier
    assert forall|i: int|
        0 <= i < post.visited@.len() implies seq_has_view(seeds, (#[trigger] post.visited@[i])@)
            || linked_from_among(web, post.visited@.take(i), post.visited@[i]@) by {
        if i < pre.visited@.len() {
            assert(seq_has_view(seeds, pre.visited@[i]@) || linked_from_among(
                web,
                pre.visited@.take(i),
                pre.visited@[i]@,
            ));
            assert(post.visited@.take(i) =~= pre.visited@.take(i));
            assert(post.visited@[i] == pre.visited@[i]);
        } else {
            lemma_drop_visited_sub(pre.frontier@, pre.visited@, 0);
            let j = choose|j: int|
                0 <= j < pre.frontier@.len() && #[trigger] pre.frontier@[j] == rest[0];
            assert(seq_has_view(seeds, pre.frontier@[j]@) || linked_from_among(
                web,
                pre.visited@,
                pre.frontier@[j]@,
            ));
            assert(post.visited@.take(i) =~= pre.visited@);
            assert(post.visited@[i] == rest[0]);
        }
    }
    // provenance of the remaining frontier
    assert forall|j: int|
        0 <= j < post.frontier@.len() implies seq_has_view(seeds, (#[trigger] post.frontier@[j])@)
            || linked_from_among(web, post.visited@, post.frontier@[j]@) by {
        lemma_drop_visited_sub(pre.frontier@, pre.visited@, j + 1);
        assert(rest[j + 1] == post.frontier@[j]);
        let j0 = choose|j0: int|
            0 <= j0 < pre.frontier@.len() && #[trigger] pre.frontier@[j0] == rest[j + 1];
        assert(seq_has_view(seeds, pre.frontier@[j0]@) || linked_from_among(
            web,
            pre.visited@,
            pre.frontier@[j0]@,
        ));
        if linked_from_among(web, pre.visited@, pre.frontier@[j0]@) {
            lemma_linked_among_monotone(web, pre.visited@, post.visited@, pre.frontier@[j0]@);
        }
    }
}

/// A link justified among some urls stays justified among an extension of
/// them.
proof fn lemma_linked_among_monotone(
    web: Seq<SimPage>,
    a: Seq<String>,
    b: Seq<String>,
    x: Seq<char>,
)
    requires
        linked_from_among(web, a, x),
        a.len() <= b.len(),
        forall|i: int| 0 <= i < a.len() ==> (#[trigger] b[i]) == a[i],
    ensures
        linked_from_among(web, b, x),
{
    let (w, l) = choose|w: int, l: int|
        0 <= w < web.len() && seq_has_view(a, (#[trigger] web[w]).url@) && 0 <= l
            < web[w].links@.len() && (#[trigger] web[w].links@[l])@ == x;
    let i = choose|i: int| 0 <= i < a.len() && (#[trigger] a[i])@ == web[w].url@;
    assert(b[i]@ == web[w].url@);
    assert(seq_has_view(b, web[w].url@));
    assert(0 <= w < web.len() && seq_has_view(b, web[w].url@) && 0 <= l < web[w].links@.len()
        && web[w].links@[l]@ == x);
}

/// After a successful fetch, the cover invariants hold in full: the links
/// of the fetched page just joined the frontier.
proof fn lemma_success_keeps_cover(
    pre: CrawlScheduler,
    post: CrawlScheduler,
    u: Seq<char>,
    links: Seq<String>,
    web: Seq<SimPage>,
    seeds: Seq<String>,
)
    requires
        post.visited@ == pre.visited@,
        post.frontier@ == pre.frontier@ + links,
        pre.visited_has(u),
        exists|w: int|
            0 <= w < web.len() && (#[trigger] web[w]).url@ == u && web[w].links@.len()
                == links.len() && forall|l: int|
                0 <= l < links.len() ==> (#[trigger] web[w].links@[l])@ == links[l]@,
        forall|i: int|
            0 <= i < seeds.len() ==> pre.visited_has((#[trigger] seeds[i])@) || pre.frontier_has(
                seeds[i]@,
            ),
        forall|w: int, l: int|
            0 <= w < web.len() && pre.visited_has((#[trigger] web[w]).url@) && web[w].url@ != u
                && 0 <= l < web[w].links@.len() ==> pre.visited_has(
                (#[trigger] web[w].links@[l])@,
            ) || pre.frontier_has(web[w].links@[l]@),
        forall|w1: int, w2: int|
            0 <= w1 < w2 < web.len() ==> (#[trigger] web[w1]).url@ != (#[trigger] web[w2]).url@,
        forall|i: int|
            0 <= i < pre.visited@.len() ==> seq_has_view(seeds, (#[trigger] pre.visited@[i])@)
                || linked_from_among(web, pre.visited@.take(i), pre.visited@[i]@),
        forall|j: int|
            0 <= j < pre.frontier@.len() ==> seq_has_view(seeds, (#[trigger] pre.frontier@[j])@)
                || linked_from_among(web, pre.visited@, pre.frontier@[j]@),
    ensures
        forall|i: int|
            0 <= i < seeds.len() ==> post.visited_has((#[trigger] seeds[i])@) || post.frontier_has(
                seeds[i]@,
            ),
        forall|w: int, l: int|
            0 <= w < web.len() && post.visited_has((#[trigger] web[w]).url@) && 0 <= l
                < web[w].links@.len() ==> post.visited_has((#[trigger] web[w].links@[l])@)
                || post.frontier_has(web[w].links@[l]@),
        forall|i: int|
            0 <= i < post.visited@.len() ==> seq_has_view(seeds, (#[trigger] post.visited@[i])@)
                || linked_from_among(web, post.visited@.take(i), post.visited@[i]@),
        forall|j: int|
            0 <= j < post.frontier@.len() ==> seq_has_view(seeds, (#[trigger] post.frontier@[j])@)
                || linked_from_among(web, post.visited@, post.frontier@[j]@),
{
    let w0 = choose|w: int|
        0 <= w < web.len() && (#[trigger] web[w]).url@ == u && web[w].links@.len() == links.len()
            && forall|l: int| 0 <= l < links.len() ==> (#[trigger] web[w].links@[l])@ == links[l]@;
    assert forall|x: Seq<char>| seq_has_view(pre.frontier@, x) implies seq_has_view(
        post.frontier@,
        x,
    ) by {
        let j = choose|j: int| 0 <= j < pre.frontier@.len() && (#[trigger] pre.frontier@[j])@ == x;
        assert(post.frontier@[j]@ == x);
    }
    assert forall|w: int, l: int|
        0 <= w < web.len() && post.visited_has((#[trigger] web[w]).url@) && 0 <= l
            < web[w].links@.len() implies post.visited_has((#[trigger] web[w].links@[l])@)
            || post.frontier_has(web[w].links@[l]@) by {
        if web[w].url@ == u {
            assert(w == w0) by {
                if w != w0 {
                    assert(web[w].url@ != web[w0].url@);
                }
            }
            assert(post.frontier@[pre.frontier@.len() + l]@ == web[w].links@[l]@);
        } else {
            assert(pre.visited_has(web[w].url@));
        }
    }
    assert forall|i: int|
        0 <= i < post.visited@.len() implies seq_has_view(seeds, (#[trigger] post.visited@[i])@)
            || linked_from_among(web, post.visited@.take(i), post.visited@[i]@) by {
        assert(post.visited@.take(i) == pre.visited@.take(i));
        assert(post.visited@[i] == pre.visited@[i]);
    }
    assert forall|j: int|
        0 <= j < post.frontier@.len() implies seq_has_view(seeds, (#[trigger] post.frontier@[j])@)
            || linked_from_among(web, post.visited@, post.frontier@[j]@) by {
        if j < pre.frontier@.len() {
            assert(post.frontier@[j] == pre.frontier@[j]);
        } else {
            assert(post.frontier@[j] == links[j - pre.frontier@.len()]);
            assert(web[w0].links@[j - pre.frontier@.len()]@ == post.frontier@[j]@);
            assert(seq_has_view(post.visited@, u));
            assert(linked_from_among(web, post.visited@, post.frontier@[j]@));
        }
    }
}


/// A crawl that ran its frontier dry visited every reachable url: seeds
/// are visited, and links of visited pages are visited, so reachability at
/// any depth is covered.
pub proof fn lemma_exhausted_crawl_visits_reachable(
    web: Seq<SimPage>,
    seeds: Seq<String>,
    s: CrawlScheduler,
    k: nat,
    x: Seq<char>,
)
    requires
        forall|i: int| 0 <= i < seeds.len() ==> s.visited_has((#[trigger] seeds[i])@),
        forall|w: int, l: int|
            0 <= w < web.len() && s.visited_has((#[trigger] web[w]).url@) && 0 <= l
                < web[w].links@.len() ==> s.visited_has((#[trigger] web[w].links@[l])@),
        reachable_within(web, seeds, k, x),
    ensures
        s.visited_has(x),
    decreases k,
{
    if seq_has_view(seeds, x) {
        let i = choose|i: int| 0 <= i < seeds.len() && (#[trigger] seeds[i])@ == x;
        assert(s.visited_has(seeds[i]@));
    } else {
        let (w, l) = choose|w: int, l: int|
            0 <= w < web.len() && reachable_within(web, seeds, (k - 1) as nat, (
            #[trigger] web[w]).url@) && 0 <= l < web[w].links@.len() && (
            #[trigger] web[w].links@[l])@ == x;
        lemma_exhausted_crawl_visits_reachable(web, seeds, s, (k - 1) as nat, web[w].url@);
    }
}

/// Only reachable urls are ever visited: the url dispatched `i`-th is
/// reachable from the seeds within `i` link steps.
pub proof fn lemma_visited_urls_reachable(
    web: Seq<SimPage>,
    seeds: Seq<String>,
    s: CrawlScheduler,
    i: int,
)
    requires
        forall|i1: int|
            0 <= i1 < s.visited@.len() ==> seq_has_view(seeds, (#[trigger] s.visited@[i1])@)
                || linked_from_among(web, s.visited@.take(i1), s.visited@[i1]@),
        0 <= i < s.visited@.len(),
    ensures
        reachable_within(web, seeds, i as nat, s.visited@[i]@),
    decreases i,
{
    if !seq_has_view(seeds, s.visited@[i]@) {
        let (w, l) = choose|w: int, l: int|
            0 <= w < web.len() && seq_has_view(s.visited@.take(i), (#[trigger] web[w]).url@) && 0
                <= l < web[w].links@.len() && (#[trigger] web[w].links@[l])@ == s.visited@[i]@;
        let j = choose|j: int|
            0 <= j < s.visited@.take(i).len() && (#[trigger] s.visited@.take(i)[j])@
                == web[w].url@;
        assert(s.visited@[j]@ == web[w].url@);
        lemma_visited_urls_reachable(web, seeds, s, j);
        lemma_reachable_mono(web, seeds, j as nat, (i - 1) as nat, web[w].url@);
        assert(reachable_within(web, seeds, i as nat, s.visited@[i]@));
    }
}

} // verus!
