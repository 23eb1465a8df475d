//! The scored index: for every term, the combined score of each page it
//! appears on; and ranked queries over it.

use crate::fixed::sat_add_spec;
use crate::terms::{
    find, lemma_find_absent, lemma_find_at_index, lemma_find_first_match, lemma_find_none_absent,
    lemma_find_push, lemma_find_some_index, lemma_find_update, TermCounts,
};
use vstd::prelude::*;
use vstd::multiset::Multiset;
use vstd::seq_lib::group_to_multiset_ensures;

verus! {

/// The final artifact of an indexing run: a map from terms to postings,
/// each posting holding a url and the combined score of that page for the
/// term.
pub struct ScoredIndex {
    /// The (term, postings) entries.
    pub scores: Vec<(String, Vec<(String, u64)>)>,
}

impl ScoredIndex {
    /// Well-formed: terms are distinct, and within one term's postings so
    /// are the urls.
    pub open spec fn wf(self) -> bool {
        &&& forall|i1: int, i2: int|
            0 <= i1 < i2 < self.scores@.len() ==> (#[trigger] self.scores@[i1]).0@ != (
            #[trigger] self.scores@[i2]).0@
        &&& forall|i: int, j1: int, j2: int|
            0 <= i < self.scores@.len() && 0 <= j1 < j2 < self.scores@[i].1@.len() ==> (
            #[trigger] self.scores@[i].1@[j1]).0@ != (#[trigger] self.scores@[i].1@[j2]).0@
    }

    /// The score recorded for `url` under `term`, if any.
    pub open spec fn score_at(self, term: Seq<char>, url: Seq<char>) -> Option<u64> {
        match find(self.scores@, term) {
            Some(row) => find(row@, url),
            None => None,
        }
    }

    /// Creates an empty index.
    pub fn new() -> (idx: Self)
        ensures
            idx.wf(),
            idx.scores@.len() == 0,
            forall|t: Seq<char>, u: Seq<char>| #[trigger] idx.score_at(t, u) == None::<u64>,
    {
        ScoredIndex { scores: Vec::new() }
    }

    /// Records the score of a (term, url) pair not present yet.
    pub fn insert_score(&mut self, term: &String, url: &String, sc: u64)
        requires
            old(self).wf(),
            old(self).score_at(term@, url@) is None,
        ensures
            final(self).wf(),
            forall|t: Seq<char>, u: Seq<char>|
                #[trigger] final(self).score_at(t, u) == if t == term@ && u == url@ {
                    Some(sc)
                } else {
                    old(self).score_at(t, u)
                },
    {
        let ghost rows0 = self.scores@;
        let mut i: usize = 0;
        while i < self.scores.len()
            invariant
                *self == *old(self),
                old(self).wf(),
                old(self).score_at(term@, url@) is None,
                rows0 == self.scores@,
                i <= rows0.len(),
                forall|j: int| 0 <= j < i ==> (#[trigger] rows0[j]).0@ != term@,
            decreases rows0.len() - i,
        {
            if self.scores[i].0 == *term {
                proof {
                    lemma_find_first_match(rows0, i as int, term@);
                    lemma_find_none_absent(rows0[i as int].1@, url@);
                }
                let mut entry = self.scores.remove(i);
                let ghost row0 = entry.1@;
                entry.1.push((url.clone(), sc));
                let ghost entry_new = entry;
                self.scores.insert(i, entry);
                proof {
                    assert(self.scores@ =~= rows0.update(i as int, entry_new));
                    assert(entry_new.0@ == term@);
                    assert(entry_new.1@ =~= row0.push((entry_new.1@.last().0, sc)));
                    assert(entry_new.1@.last().0@ == url@);
                    assert forall|t: Seq<char>, u: Seq<char>|
                        #[trigger] self.score_at(t, u) == (if t == term@ && u == url@ {
                            Some(sc)
                        } else {
                            old(self).score_at(t, u)
                        }) by {
                        lemma_find_update(rows0, i as int, entry_new, t);
                        if t == term@ {
                            lemma_find_push(row0, entry_new.1@.last(), u);
                        }
                    }
                    assert forall|i1: int, i2: int|
                        0 <= i1 < i2 < self.scores@.len() implies (#[trigger] self.scores@[i1]).0@
                        != (#[trigger] self.scores@[i2]).0@ by {
                        assert(rows0[i1].0@ != rows0[i2].0@);
                        assert(self.scores@[i1].0@ == rows0[i1].0@);
                        assert(self.scores@[i2].0@ == rows0[i2].0@);
                    }
                    assert forall|w: int, j1: int, j2: int|
                        0 <= w < self.scores@.len() && 0 <= j1 < j2
                            < self.scores@[w].1@.len() implies (
                    #[trigger] self.scores@[w].1@[j1]).0@ != (
                    #[trigger] self.scores@[w].1@[j2]).0@ by {
                        if w == i as int {
                            if j2 < row0.len() {
                                assert(rows0[w].1@[j1].0@ != rows0[w].1@[j2].0@);
                            } else {
                                assert(self.scores@[w].1@[j2].0@ == url@);
                                assert(rows0[w].1@[j1].0@ != url@);
                            }
                        } else {
                            assert(rows0[w].1@[j1].0@ != rows0[w].1@[j2].0@);
                        }
                    }
                }
                return ;
            }
            i += 1;
        }
        proof {
            lemma_find_absent(rows0, term@);
        }
        let mut row: Vec<(String, u64)> = Vec::new();
        row.push((url.clone(), sc));
        self.scores.push((term.clone(), row));
        proof {
            let entry_new = self.scores@.last();
            assert(self.scores@ =~= rows0.push(entry_new));
            assert(entry_new.0@ == term@);
            assert(entry_new.1@.len() == 1);
            assert(entry_new.1@[0].0@ == url@);
            assert forall|t: Seq<char>, u: Seq<char>|
                #[trigger] self.score_at(t, u) == (if t == term@ && u == url@ {
                    Some(sc)
                } else {
                    old(self).score_at(t, u)
                }) by {
                lemma_find_push(rows0, entry_new, t);
                if t == term@ {
                    assert(entry_new.1@.drop_first() =~= Seq::<(String, u64)>::empty());
                    assert(find(Seq::<(String, u64)>::empty(), u) == None::<u64>);
                    assert(entry_new.1@[0].1 == sc);
                    assert(find(entry_new.1@, u) == if u == url@ {
                        Some(sc)
                    } else {
                        None::<u64>
                    });
                }
            }
            assert forall|i1: int, i2: int|
                0 <= i1 < i2 < self.scores@.len() implies (#[trigger] self.scores@[i1]).0@ != (
            #[trigger] self.scores@[i2]).0@ by {
                if i2 < rows0.len() {
                    assert(rows0[i1].0@ != rows0[i2].0@);
                } else {
                    assert(self.scores@[i2].0@ == term@);
                    assert(rows0[i1].0@ != term@);
                }
            }
            assert forall|w: int, j1: int, j2: int|
                0 <= w < self.scores@.len() && 0 <= j1 < j2 < self.scores@[w].1@.len() implies (
            #[trigger] self.scores@[w].1@[j1]).0@ != (#[trigger] self.scores@[w].1@[j2]).0@ by {
                if w < rows0.len() {
                    assert(rows0[w].1@[j1].0@ != rows0[w].1@[j2].0@);
                }
            }
        }
    }
}


/// Sum of two optional scores: present on either side carries over, present
/// on both adds with saturation.
pub open spec fn combine(a: Option<u64>, b: Option<u64>) -> Option<u64> {
    match (a, b) {
        (Option::None, Option::None) => None,
        (Option::Some(x), Option::None) => Some(x),
        (Option::None, Option::Some(y)) => Some(y),
        (Option::Some(x), Option::Some(y)) => Some(sat_add_spec(x, y)),
    }
}

/// The aggregate score of `url` for the query terms `qs`: the sum of its
/// scores under each term, absent when no term scores it. A repeated query
/// term counts twice.
pub open spec fn agg(idx: ScoredIndex, qs: Seq<Seq<char>>, u: Seq<char>) -> Option<u64>
    decreases qs.len(),
{
    if qs.len() == 0 {
        None
    } else {
        combine(agg(idx, qs.drop_last(), u), idx.score_at(qs.last(), u))
    }
}

impl ScoredIndex {
    /// Returns the postings recorded for a term.
    pub fn row_of(&self, term: &String) -> (r: Option<&Vec<(String, u64)>>)
        ensures
            match r {
                Some(row) => find(self.scores@, term@) == Some(*row),
                None => find(self.scores@, term@) is None,
            },
    {
        let mut i: usize = 0;
        while i < self.scores.len()
            invariant
                i <= self.scores@.len(),
                forall|j: int| 0 <= j < i ==> (#[trigger] self.scores@[j]).0@ != term@,
            decreases self.scores@.len() - i,
        {
            if self.scores[i].0 == *term {
                proof {
                    lemma_find_first_match(self.scores@, i as int, term@);
                }
                return Some(&self.scores[i].1);
            }
            i += 1;
        }
        proof {
            lemma_find_absent(self.scores@, term@);
        }
        None
    }

    /// Sums, url by url, the scores of every query term: the resulting map
    /// holds exactly the aggregate score of each url that some term scores.
    pub fn aggregate_scores(&self, query: &Vec<String>) -> (rm: TermCounts)
        requires
            self.wf(),
        ensures
            rm.wf(),
            forall|u: Seq<char>| #[trigger] rm.count_of(u) == agg(*self, query.deep_view(), u),
    {
        let ghost qvs = query.deep_view();
        let mut rm = TermCounts::new();
        let mut i: usize = 0;
        proof {
            assert(qvs.take(0) =~= Seq::<Seq<char>>::empty());
        }
        while i < query.len()
            invariant
                self.wf(),
                qvs == query.deep_view(),
                qvs.len() == query@.len(),
                i <= query@.len(),
                rm.wf(),
                forall|u: Seq<char>| #[trigger] rm.count_of(u) == agg(*self, qvs.take(i as int), u),
            decreases query@.len() - i,
        {
            proof {
                assert(qvs.take(i + 1).drop_last() =~= qvs.take(i as int));
                assert(qvs.take(i + 1).last() == query@[i as int]@);
            }
            match self.row_of(&query[i]) {
                None => {
                    proof {
                        assert forall|u: Seq<char>| #[trigger] rm.count_of(u) == agg(
                            *self,
                            qvs.take(i + 1),
                            u,
                        ) by {
                            assert(self.score_at(qvs[i as int], u) is None);
                        }
                    }
                },
                Some(row) => {
                    let ghost row_seq = row@;
                    let ghost pre = rm;
                    proof {
                        lemma_find_some_index(self.scores@, query@[i as int]@);
                        let w = choose|w: int|
                            0 <= w < self.scores@.len() && (#[trigger] self.scores@[w]).0@
                                == query@[i as int]@ && self.scores@[w].1 == find(
                                self.scores@,
                                query@[i as int]@,
                            )->Some_0;
                        assert(self.scores@[w].1@ == row_seq);
                        assert forall|j1: int, j2: int|
                            0 <= j1 < j2 < row_seq.len() implies (#[trigger] row_seq[j1]).0@ != (
                        #[trigger] row_seq[j2]).0@ by {
                            assert(self.scores@[w].1@[j1].0@ != self.scores@[w].1@[j2].0@);
                        }
                        assert(rm.count_of(row_seq[0].0@) == agg(*self, qvs.take(i as int), row_seq[0].0@)) by {}
                        assert(find(row_seq.take(0), row_seq[0].0@) == None::<u64>) by {
                            assert(row_seq.take(0) =~= Seq::<(String, u64)>::empty());
                        }
                    }
                    let mut j: usize = 0;
                    proof {
                        assert(row_seq.take(0) =~= Seq::<(String, u64)>::empty());
                    }
                    while j < row.len()
                        invariant
                            row_seq == row@,
                            j <= row_seq.len(),
                            forall|j1: int, j2: int|
                                0 <= j1 < j2 < row_seq.len() ==> (#[trigger] row_seq[j1]).0@ != (
                                #[trigger] row_seq[j2]).0@,
                            rm.wf(),
                            forall|u: Seq<char>|
                                #[trigger] rm.count_of(u) == combine(
                                    pre.count_of(u),
                                    find(row_seq.take(j as int), u),
                                ),
                        decreases row_seq.len() - j,
                    {
                        let url = &row[j].0;
                        let sc = row[j].1;
                        let ghost rm_pre = rm;
                        rm.accumulate(url, sc);
                        proof {
                            assert(row_seq.take(j + 1) =~= row_seq.take(j as int).push(
                                row_seq[j as int],
                            ));
                            assert forall|j1: int|
                                0 <= j1 < j implies (#[trigger] row_seq.take(j as int)[j1]).0@
                                != row_seq[j as int].0@ by {
                                assert(row_seq[j1].0@ != row_seq[j as int].0@);
                            }
                            assert forall|u: Seq<char>| #[trigger] rm.count_of(u) == combine(
                                pre.count_of(u),
                                find(row_seq.take(j + 1), u),
                            ) by {
                                lemma_find_push(row_seq.take(j as int), row_seq[j as int], u);
                                if u == url@ {
                                    assert(find(row_seq.take(j as int), u) == None::<u64>) by {
                                        lemma_find_at_index(row_seq, j as int);
                                        if find(row_seq.take(j as int), u) is Some {
                                            lemma_find_some_index(row_seq.take(j as int), u);
                                            let j1 = choose|j1: int|
                                                0 <= j1 < j && (#[trigger] row_seq.take(
                                                    j as int,
                                                )[j1]).0@ == u;
                                            assert(row_seq[j1].0@ != row_seq[j as int].0@);
                                        }
                                    }
                                }
                            }
                        }
                        j += 1;
                    }
                    proof {
                        assert(row_seq.take(row_seq.len() as int) =~= row_seq);
                        assert forall|u: Seq<char>| #[trigger] rm.count_of(u) == agg(
                            *self,
                            qvs.take(i + 1),
                            u,
                        ) by {
                            assert(self.score_at(qvs[i as int], u) == find(row_seq, u));
                        }
                    }
                },
            }
            i += 1;
        }
        proof {
            assert(qvs.take(query@.len() as int) =~= qvs);
        }
        rm
    }
}

/// Ranks score entries: returns the `k` highest-scoring pairs in descending
/// score order. Whatever is left behind scores no more than the last pair
/// returned.
pub fn top_k(entries: Vec<(String, u64)>, k: usize) -> (out: Vec<(String, u64)>)
    ensures
        out@.len() == if k <= entries@.len() {
            k as int
        } else {
            entries@.len() as int
        },
        forall|i1: int, i2: int| 0 <= i1 < i2 < out@.len() ==> out@[i1].1 >= out@[i2].1,
        out@.to_multiset().subset_of(entries@.to_multiset()),
        out@.len() < k ==> out@.to_multiset() == entries@.to_multiset(),
        forall|p: (String, u64)|
            entries@.to_multiset().count(p) > out@.to_multiset().count(p) && out@.len() > 0
                ==> p.1 <= out@.last().1,
{
    broadcast use group_to_multiset_ensures;
    broadcast use vstd::multiset::group_multiset_axioms;

    let ghost orig = entries@;
    let mut work = entries;
    let mut out: Vec<(String, u64)> = Vec::new();
    proof {
        assert(out@.to_multiset().add(work@.to_multiset()) =~= orig.to_multiset());
    }
    while out.len() < k && work.len() > 0
        invariant
            out@.to_multiset().add(work@.to_multiset()) =~= orig.to_multiset(),
            out@.len() + work@.len() == orig.len(),
            out@.len() <= k,
            forall|i1: int, i2: int| 0 <= i1 < i2 < out@.len() ==> out@[i1].1 >= out@[i2].1,
            forall|j: int|
                0 <= j < work@.len() && out@.len() > 0 ==> (#[trigger] work@[j]).1 <= out@.last().1,
        decreases work@.len(),
    {
        let mut best: usize = 0;
        let mut m: usize = 1;
        while m < work.len()
            invariant
                work@.len() > 0,
                best < work@.len(),
                m <= work@.len(),
                forall|j: int| 0 <= j < m ==> (#[trigger] work@[j]).1 <= work@[best as int].1,
            decreases work@.len() - m,
        {
            if work[m].1 > work[best].1 {
                best = m;
            }
            m += 1;
        }
        let ghost work_pre = work@;
        let ghost out_pre = out@;
        let chosen = work.remove(best);
        out.push(chosen);
        proof {
            work_pre.to_multiset_ensures();
            out_pre.to_multiset_ensures();
            work@.to_multiset_ensures();
            out@.to_multiset_ensures();
            assert(work@ == work_pre.remove(best as int));
            assert(out@ == out_pre.push(chosen));
            assert(work_pre.to_multiset().count(chosen) > 0) by {
                assert(work_pre[best as int] == chosen);
                assert(work_pre.contains(chosen));
            }
            assert(out@.to_multiset().add(work@.to_multiset()) =~= orig.to_multiset());
            assert forall|j: int|
                0 <= j < work@.len() implies (#[trigger] work@[j]).1 <= out@.last().1 by {
                if j < best {
                    assert(work@[j] == work_pre[j]);
                } else {
                    assert(work@[j] == work_pre[j + 1]);
                }
            }
            assert forall|i1: int, i2: int|
                0 <= i1 < i2 < out@.len() implies out@[i1].1 >= out@[i2].1 by {
                if i2 < out_pre.len() {
                    assert(out_pre[i1].1 >= out_pre[i2].1);
                } else if out_pre.len() > 0 {
                    assert(work_pre.contains(chosen));
                    assert(chosen.1 <= out_pre.last().1);
                }
            }
        }
    }
    proof {
        work@.to_multiset_ensures();
        out@.to_multiset_ensures();
        orig.to_multiset_ensures();
        if out@.len() < k {
            assert(work@.len() == 0);
            assert(work@.to_multiset() =~= Multiset::<(String, u64)>::empty());
            assert(out@.to_multiset() =~= orig.to_multiset());
        }
        assert forall|p: (String, u64)|
            orig.to_multiset().count(p) > out@.to_multiset().count(p) && out@.len()
                > 0 implies p.1 <= out@.last().1 by {
            assert(work@.to_multiset().count(p) > 0);
            assert(work@.contains(p));
            let j = choose|j: int| 0 <= j < work@.len() && work@[j] == p;
            assert(work@[j].1 <= out@.last().1);
        }
        assert(out@.to_multiset().subset_of(orig.to_multiset())) by {
            assert forall|p: (String, u64)|
                #[trigger] out@.to_multiset().count(p) <= orig.to_multiset().count(p) by {
                assert(orig.to_multiset().count(p) == out@.to_multiset().count(p)
                    + work@.to_multiset().count(p));
            }
        }
    }
    out
}


impl ScoredIndex {
    /// Evaluates a free-text query: sums, for every url, its scores under
    /// the query terms, and returns the `k` best urls in descending score
    /// order. A url that some query term scores and that is not returned
    /// only exists when `k` results were returned, and it scores no more
    /// than the last of them.
    pub fn search(&self, query: &Vec<String>, k: usize) -> (results: Vec<(String, u64)>)
        requires
            self.wf(),
        ensures
            results@.len() <= k,
            forall|i1: int, i2: int|
                0 <= i1 < i2 < results@.len() ==> results@[i1].1 >= results@[i2].1,
            forall|i: int|
                0 <= i < results@.len() ==> agg(*self, query.deep_view(), (
                #[trigger] results@[i]).0@) == Some(results@[i].1),
            forall|u: Seq<char>|
                (#[trigger] agg(*self, query.deep_view(), u)) is Some && !(exists|i: int|
                    0 <= i < results@.len() && (#[trigger] results@[i]).0@ == u) ==> results@.len()
                    == k && (results@.len() > 0 ==> agg(*self, query.deep_view(), u)->Some_0
                    <= results@.last().1),
    {
        broadcast use group_to_multiset_ensures;
        broadcast use vstd::multiset::group_multiset_axioms;

        let ghost qdv = query.deep_view();
        let rm = self.aggregate_scores(query);
        let ghost rme = rm.entries@;
        let results = top_k(rm.entries, k);
        proof {
            rme.to_multiset_ensures();
            results@.to_multiset_ensures();
            assert forall|i: int|
                0 <= i < results@.len() implies agg(*self, qdv, (#[trigger] results@[i]).0@)
                == Some(results@[i].1) by {
                assert(results@.contains(results@[i]));
                assert(results@.to_multiset().count(results@[i]) > 0);
                assert(rme.to_multiset().count(results@[i]) > 0);
                assert(rme.contains(results@[i]));
                let j = choose|j: int| 0 <= j < rme.len() && rme[j] == results@[i];
                lemma_find_at_index(rme, j);
                assert(rm.count_of(results@[i].0@) == Some(results@[i].1));
            }
            assert forall|u: Seq<char>|
                (#[trigger] agg(*self, qdv, u)) is Some && !(exists|i: int|
                    0 <= i < results@.len() && (#[trigger] results@[i]).0@
                        == u) implies results@.len() == k && (results@.len() > 0 ==> agg(
                *self,
                qdv,
                u,
            )->Some_0 <= results@.last().1) by {
                assert(rm.count_of(u) == agg(*self, qdv, u));
                lemma_find_some_index(rme, u);
                let j = choose|j: int|
                    0 <= j < rme.len() && (#[trigger] rme[j]).0@ == u && rme[j].1 == find(
                        rme,
                        u,
                    )->Some_0;
                let p = rme[j];
                assert(rme.contains(p));
                assert(rme.to_multiset().count(p) > 0);
                assert(results@.to_multiset().count(p) == 0) by {
                    if results@.to_multiset().count(p) > 0 {
                        assert(results@.contains(p));
                        let i = choose|i: int| 0 <= i < results@.len() && results@[i] == p;
                        assert(results@[i].0@ == u);
                    }
                }
                if results@.len() < k {
                    assert(results@.to_multiset() == rme.to_multiset());
                }
                assert(results@.len() == k);
                if results@.len() > 0 {
                    assert(rme.to_multiset().count(p) > results@.to_multiset().count(p));
                    assert(p.1 <= results@.last().1);
                }
            }
        }
        results
    }
}


/// Whether the keys of an association list are pairwise distinct.
fn keys_distinct<V>(v: &Vec<(String, V)>) -> (r: bool)
    ensures
        r == forall|i1: int, i2: int|
            0 <= i1 < i2 < v@.len() ==> (#[trigger] v@[i1]).0@ != (#[trigger] v@[i2]).0@,
{
    let mut i: usize = 0;
    while i < v.len()
        invariant
            i <= v@.len(),
            forall|i1: int, i2: int|
                0 <= i1 < i2 < i ==> (#[trigger] v@[i1]).0@ != (#[trigger] v@[i2]).0@,
        decreases v@.len() - i,
    {
        let mut j: usize = 0;
        while j < i
            invariant
                j <= i < v@.len(),
                forall|i1: int, i2: int|
                    0 <= i1 < i2 < i ==> (#[trigger] v@[i1]).0@ != (#[trigger] v@[i2]).0@,
                forall|j1: int| 0 <= j1 < j ==> (#[trigger] v@[j1]).0@ != v@[i as int].0@,
            decreases i - j,
        {
            if v[j].0 == v[i].0 {
                return false;
            }
            j += 1;
        }
        i += 1;
    }
    true
}

impl ScoredIndex {
    /// Checks well-formedness: distinct terms, and distinct urls within
    /// each term's postings. A freshly parsed index should pass this check
    /// before it is queried.
    pub fn is_well_formed(&self) -> (r: bool)
        ensures
            r == self.wf(),
    {
        if !keys_distinct(&self.scores) {
            return false;
        }
        let mut i: usize = 0;
        while i < self.scores.len()
            invariant
                i <= self.scores@.len(),
                forall|i1: int, i2: int|
                    0 <= i1 < i2 < self.scores@.len() ==> (#[trigger] self.scores@[i1]).0@ != (
                    #[trigger] self.scores@[i2]).0@,
                forall|w: int, j1: int, j2: int|
                    0 <= w < i && 0 <= j1 < j2 < self.scores@[w].1@.len() ==> (
                    #[trigger] self.scores@[w].1@[j1]).0@ != (
                    #[trigger] self.scores@[w].1@[j2]).0@,
            decreases self.scores@.len() - i,
        {
            if !keys_distinct(&self.scores[i].1) {
                return false;
            }
            i += 1;
        }
        true
    }
}


impl ScoredIndex {
    /// Reads the score recorded for a (term, url) pair.
    pub fn get_score(&self, term: &String, url: &String) -> (r: Option<u64>)
        ensures
            r == self.score_at(term@, url@),
    {
        match self.row_of(term) {
            None => None,
            Some(row) => {
                let mut j: usize = 0;
                while j < row.len()
                    invariant
                        find(self.scores@, term@) == Some(*row),
                        j <= row@.len(),
                        forall|q: int| 0 <= q < j ==> (#[trigger] row@[q]).0@ != url@,
                    decreases row@.len() - j,
                {
                    if row[j].0 == *url {
                        proof {
                            lemma_find_first_match(row@, j as int, url@);
                        }
                        return Some(row[j].1);
                    }
                    j += 1;
                }
                proof {
                    lemma_find_absent(row@, url@);
                }
                None
            },
        }
    }
}

} // verus!
