//! Term accumulators: per-page term counts and document frequencies, held as
//! association lists with distinct keys.

use crate::fixed::{sat_add, sat_add_spec};
use crate::text::{terms_of, tokenize};
use vstd::prelude::*;

verus! {

/// First-match lookup in an association list keyed by strings.
pub open spec fn find<V>(entries: Seq<(String, V)>, k: Seq<char>) -> Option<V>
    decreases entries.len(),
{
    if entries.len() == 0 {
        None
    } else if entries[0].0@ == k {
        Some(entries[0].1)
    } else {
        find(entries.drop_first(), k)
    }
}

/// Sum of all counts of an association list.
pub open spec fn sum_counts(entries: Seq<(String, u64)>) -> int
    decreases entries.len(),
{
    if entries.len() == 0 {
        0
    } else {
        sum_counts(entries.drop_last()) + entries.last().1
    }
}

/// Number of occurrences of `t` in a sequence of terms.
pub open spec fn occ(ts: Seq<Seq<char>>, t: Seq<char>) -> int
    decreases ts.len(),
{
    if ts.len() == 0 {
        0
    } else {
        occ(ts.drop_last(), t) + if ts.last() == t {
            1int
        } else {
            0int
        }
    }
}

/// A term occurs at most as often as there are terms.
pub proof fn lemma_occ_le(ts: Seq<Seq<char>>, t: Seq<char>)
    ensures
        0 <= occ(ts, t) <= ts.len(),
    decreases ts.len(),
{
    if ts.len() > 0 {
        lemma_occ_le(ts.drop_last(), t);
    }
}

pub(crate) proof fn lemma_find_absent<V>(entries: Seq<(String, V)>, k: Seq<char>)
    requires
        forall|i: int| 0 <= i < entries.len() ==> (#[trigger] entries[i]).0@ != k,
    ensures
        find(entries, k) == None::<V>,
    decreases entries.len(),
{
    if entries.len() > 0 {
        assert(entries[0].0@ != k);
        assert forall|i: int|
            0 <= i < entries.drop_first().len() implies (#[trigger] entries.drop_first()[i]).0@
            != k by {
            assert(entries.drop_first()[i] == entries[i + 1]);
        }
        lemma_find_absent(entries.drop_first(), k);
    }
}

/// If a key is not found, no entry holds it.
pub(crate) proof fn lemma_find_none_absent<V>(entries: Seq<(String, V)>, k: Seq<char>)
    requires
        find(entries, k) is None,
    ensures
        forall|i: int| 0 <= i < entries.len() ==> (#[trigger] entries[i]).0@ != k,
    decreases entries.len(),
{
    if entries.len() > 0 {
        lemma_find_none_absent(entries.drop_first(), k);
        assert forall|i: int| 0 <= i < entries.len() implies (#[trigger] entries[i]).0@ != k by {
            if i > 0 {
                assert(entries.drop_first()[i - 1] == entries[i]);
            }
        }
    }
}

pub(crate) proof fn lemma_find_first_match<V>(entries: Seq<(String, V)>, i: int, k: Seq<char>)
    requires
        0 <= i < entries.len(),
        entries[i].0@ == k,
        forall|j: int| 0 <= j < i ==> (#[trigger] entries[j]).0@ != k,
    ensures
        find(entries, k) == Some(entries[i].1),
    decreases i,
{
    if i > 0 {
        assert forall|j: int|
            0 <= j < i - 1 implies (#[trigger] entries.drop_first()[j]).0@ != k by {
            assert(entries.drop_first()[j] == entries[j + 1]);
        }
        assert(entries.drop_first()[i - 1] == entries[i]);
        lemma_find_first_match(entries.drop_first(), i - 1, k);
    }
}

pub(crate) proof fn lemma_find_update<V>(entries: Seq<(String, V)>, i: int, v: (String, V), k: Seq<char>)
    requires
        0 <= i < entries.len(),
        v.0@ == entries[i].0@,
        forall|i1: int, i2: int|
            0 <= i1 < i2 < entries.len() ==> (#[trigger] entries[i1]).0@ != (
            #[trigger] entries[i2]).0@,
    ensures
        find(entries.update(i, v), k) == if k == v.0@ {
            Some(v.1)
        } else {
            find(entries, k)
        },
    decreases i,
{
    let upd = entries.update(i, v);
    if i == 0 {
        if k != v.0@ {
            assert(upd.drop_first() =~= entries.drop_first());
        }
    } else {
        assert(upd[0] == entries[0]);
        if k == entries[0].0@ {
            assert(entries[0].0@ != entries[i].0@);
        } else {
            assert(upd.drop_first() =~= entries.drop_first().update(i - 1, v));
            assert(entries.drop_first()[i - 1] == entries[i]);
            assert forall|i1: int, i2: int|
                0 <= i1 < i2 < entries.drop_first().len() implies (
            #[trigger] entries.drop_first()[i1]).0@ != (#[trigger] entries.drop_first()[i2]).0@ by {
                assert(entries.drop_first()[i1] == entries[i1 + 1]);
                assert(entries.drop_first()[i2] == entries[i2 + 1]);
            }
            lemma_find_update(entries.drop_first(), i - 1, v, k);
        }
    }
}

pub(crate) proof fn lemma_find_push<V>(entries: Seq<(String, V)>, v: (String, V), k: Seq<char>)
    requires
        forall|i: int| 0 <= i < entries.len() ==> (#[trigger] entries[i]).0@ != v.0@,
    ensures
        find(entries.push(v), k) == if k == v.0@ {
            Some(v.1)
        } else {
            find(entries, k)
        },
    decreases entries.len(),
{
    if entries.len() == 0 {
        if k != v.0@ {
            assert(find(entries.push(v), k) == find(entries.push(v).drop_first(), k));
        }
    } else {
        assert(entries.push(v)[0] == entries[0]);
        if k == entries[0].0@ {
            assert(entries[0].0@ != v.0@);
        } else {
            assert(entries.push(v).drop_first() =~= entries.drop_first().push(v));
            assert forall|i: int|
                0 <= i < entries.drop_first().len() implies (
            #[trigger] entries.drop_first()[i]).0@ != v.0@ by {
                assert(entries.drop_first()[i] == entries[i + 1]);
            }
            lemma_find_push(entries.drop_first(), v, k);
        }
    }
}

pub(crate) proof fn lemma_sum_counts_nonneg(entries: Seq<(String, u64)>)
    ensures
        sum_counts(entries) >= 0,
    decreases entries.len(),
{
    if entries.len() > 0 {
        lemma_sum_counts_nonneg(entries.drop_last());
    }
}

pub(crate) proof fn lemma_sum_counts_take_succ(entries: Seq<(String, u64)>, i: int)
    requires
        0 <= i < entries.len(),
    ensures
        sum_counts(entries.take(i + 1)) == sum_counts(entries.take(i)) + entries[i].1,
{
    assert(entries.take(i + 1).drop_last() =~= entries.take(i));
}

pub(crate) proof fn lemma_sum_counts_take_le(entries: Seq<(String, u64)>, i: int)
    requires
        0 <= i <= entries.len(),
    ensures
        sum_counts(entries.take(i)) <= sum_counts(entries),
    decreases entries.len() - i,
{
    if i == entries.len() {
        assert(entries.take(i) =~= entries);
    } else {
        lemma_sum_counts_take_succ(entries, i);
        lemma_sum_counts_take_le(entries, i + 1);
    }
}

/// Each count is at most the total.
pub(crate) proof fn lemma_sum_counts_elem_le(entries: Seq<(String, u64)>, i: int)
    requires
        0 <= i < entries.len(),
    ensures
        entries[i].1 <= sum_counts(entries),
    decreases entries.len(),
{
    lemma_sum_counts_nonneg(entries.drop_last());
    if i < entries.len() - 1 {
        lemma_sum_counts_elem_le(entries.drop_last(), i);
    }
}

proof fn lemma_sum_counts_update(entries: Seq<(String, u64)>, i: int, v: (String, u64))
    requires
        0 <= i < entries.len(),
    ensures
        sum_counts(entries.update(i, v)) == sum_counts(entries) - entries[i].1 + v.1,
    decreases entries.len(),
{
    if i == entries.len() - 1 {
        assert(entries.update(i, v).drop_last() =~= entries.drop_last());
    } else {
        assert(entries.update(i, v).drop_last() =~= entries.drop_last().update(i, v));
        lemma_sum_counts_update(entries.drop_last(), i, v);
    }
}

proof fn lemma_sum_counts_push(entries: Seq<(String, u64)>, v: (String, u64))
    ensures
        sum_counts(entries.push(v)) == sum_counts(entries) + v.1,
{
    assert(entries.push(v).drop_last() =~= entries);
}


/// A found value sits in some entry.
pub(crate) proof fn lemma_find_some_index<V>(entries: Seq<(String, V)>, k: Seq<char>)
    requires
        find(entries, k) is Some,
    ensures
        exists|i: int|
            0 <= i < entries.len() && (#[trigger] entries[i]).0@ == k && entries[i].1 == find(
                entries,
                k,
            )->Some_0,
    decreases entries.len(),
{
    if entries[0].0@ == k {
        assert(entries[0].0@ == k && entries[0].1 == find(entries, k)->Some_0);
    } else {
        lemma_find_some_index(entries.drop_first(), k);
        let i = choose|i: int|
            0 <= i < entries.drop_first().len() && (#[trigger] entries.drop_first()[i]).0@ == k
                && entries.drop_first()[i].1 == find(entries.drop_first(), k)->Some_0;
        assert(entries[i + 1] == entries.drop_first()[i]);
    }
}

/// With distinct keys, every entry is what `find` returns for its key.
pub(crate) proof fn lemma_find_at_index<V>(entries: Seq<(String, V)>, i: int)
    requires
        0 <= i < entries.len(),
        forall|i1: int, i2: int|
            0 <= i1 < i2 < entries.len() ==> (#[trigger] entries[i1]).0@ != (
            #[trigger] entries[i2]).0@,
    ensures
        find(entries, entries[i].0@) == Some(entries[i].1),
{
    assert forall|j: int| 0 <= j < i implies (#[trigger] entries[j]).0@ != entries[i].0@ by {
        assert(entries[j].0@ != entries[i].0@);
    }
    lemma_find_first_match(entries, i, entries[i].0@);
}

/// A map from terms to `u64` counts, with no term listed twice.
pub struct TermCounts {
    /// The (term, count) entries.
    pub entries: Vec<(String, u64)>,
}

impl TermCounts {
    /// Well-formed: keys are distinct.
    pub open spec fn wf(self) -> bool {
        forall|i1: int, i2: int|
            0 <= i1 < i2 < self.entries@.len() ==> (#[trigger] self.entries@[i1]).0@ != (
            #[trigger] self.entries@[i2]).0@
    }

    /// The count recorded for term `k`, if any.
    pub open spec fn count_of(self, k: Seq<char>) -> Option<u64> {
        find(self.entries@, k)
    }

    /// Total of all counts.
    pub open spec fn total_spec(self) -> int {
        sum_counts(self.entries@)
    }

    /// Creates an empty map.
    pub fn new() -> (tc: Self)
        ensures
            tc.wf(),
            tc.entries@.len() == 0,
            forall|k: Seq<char>| #[trigger] tc.count_of(k) == None::<u64>,
            tc.total_spec() == 0,
    {
        TermCounts { entries: Vec::new() }
    }

    /// Number of distinct terms recorded.
    pub fn len(&self) -> (n: usize)
        ensures
            n == self.entries@.len(),
    {
        self.entries.len()
    }

    /// Looks a term up.
    pub fn get(&self, k: &String) -> (r: Option<u64>)
        ensures
            r == self.count_of(k@),
    {
        let mut i: usize = 0;
        while i < self.entries.len()
            invariant
                i <= self.entries@.len(),
                forall|j: int| 0 <= j < i ==> (#[trigger] self.entries@[j]).0@ != k@,
            decreases self.entries@.len() - i,
        {
            if self.entries[i].0 == *k {
                proof {
                    lemma_find_first_match(self.entries@, i as int, k@);
                }
                return Some(self.entries[i].1);
            }
            i += 1;
        }
        proof {
            lemma_find_absent(self.entries@, k@);
        }
        None
    }

    /// Raises the count of `k` by one (a fresh term starts at one).
    pub fn bump(&mut self, k: &String)
        requires
            old(self).wf(),
            old(self).count_of(k@) matches Some(c) ==> c < u64::MAX,
        ensures
            final(self).wf(),
            final(self).count_of(k@) == match old(self).count_of(k@) {
                Some(c) => Some((c + 1) as u64),
                None => Some(1u64),
            },
            forall|t: Seq<char>|
                t != k@ ==> #[trigger] final(self).count_of(t) == old(self).count_of(t),
            final(self).total_spec() == old(self).total_spec() + 1,
            old(self).count_of(k@) is Some ==> final(self).entries@.len() == old(
                self,
            ).entries@.len(),
            old(self).count_of(k@) is None ==> final(self).entries@.len() == old(
                self,
            ).entries@.len() + 1,
    {
        let ghost entries0 = self.entries@;
        let mut i: usize = 0;
        while i < self.entries.len()
            invariant
                *self == *old(self),
                old(self).wf(),
                old(self).count_of(k@) matches Some(c) ==> c < u64::MAX,
                entries0 == self.entries@,
                i <= entries0.len(),
                forall|j: int| 0 <= j < i ==> (#[trigger] entries0[j]).0@ != k@,
            decreases entries0.len() - i,
        {
            if self.entries[i].0 == *k {
                proof {
                    lemma_find_first_match(entries0, i as int, k@);
                }
                let c = self.entries[i].1;
                let key = self.entries[i].0.clone();
                self.entries[i] = (key, c + 1);
                proof {
                    assert(self.entries@ =~= entries0.update(i as int, self.entries@[i as int]));
                    lemma_find_update(entries0, i as int, self.entries@[i as int], k@);
                    assert forall|t: Seq<char>|
                        t != k@ implies #[trigger] find(self.entries@, t) == find(
                        entries0,
                        t,
                    ) by {
                        lemma_find_update(entries0, i as int, self.entries@[i as int], t);
                    }
                    lemma_sum_counts_update(entries0, i as int, self.entries@[i as int]);
                    assert forall|i1: int, i2: int|
                        0 <= i1 < i2 < self.entries@.len() implies (
                    #[trigger] self.entries@[i1]).0@ != (#[trigger] self.entries@[i2]).0@ by {
                        assert(entries0[i1].0@ != entries0[i2].0@);
                    }
                }
                return ;
            }
            i += 1;
        }
        proof {
            lemma_find_absent(entries0, k@);
        }
        self.entries.push((k.clone(), 1));
        proof {
            assert(self.entries@ =~= entries0.push(self.entries@.last()));
            assert(self.entries@.last().0@ == k@);
            lemma_find_push(entries0, self.entries@.last(), k@);
            assert forall|t: Seq<char>|
                t != k@ implies #[trigger] find(self.entries@, t) == find(entries0, t) by {
                lemma_find_push(entries0, self.entries@.last(), t);
            }
            lemma_sum_counts_push(entries0, self.entries@.last());
            assert forall|i1: int, i2: int|
                0 <= i1 < i2 < self.entries@.len() implies (#[trigger] self.entries@[i1]).0@ != (
            #[trigger] self.entries@[i2]).0@ by {
                if i2 < entries0.len() {
                    assert(entries0[i1].0@ != entries0[i2].0@);
                } else {
                    assert(self.entries@[i2].0@ == k@);
                }
            }
        }
    }

    /// Adds `v` to the value of `k`, clamping at `u64::MAX`; a fresh key
    /// starts at `v`.
    pub fn accumulate(&mut self, k: &String, v: u64)
        requires
            old(self).wf(),
        ensures
            final(self).wf(),
            final(self).count_of(k@) == match old(self).count_of(k@) {
                Some(c) => Some(sat_add_spec(c, v)),
                None => Some(v),
            },
            forall|t: Seq<char>|
                t != k@ ==> #[trigger] final(self).count_of(t) == old(self).count_of(t),
    {
        let ghost entries0 = self.entries@;
        let mut i: usize = 0;
        while i < self.entries.len()
            invariant
                *self == *old(self),
                old(self).wf(),
                entries0 == self.entries@,
                i <= entries0.len(),
                forall|j: int| 0 <= j < i ==> (#[trigger] entries0[j]).0@ != k@,
            decreases entries0.len() - i,
        {
            if self.entries[i].0 == *k {
                proof {
                    lemma_find_first_match(entries0, i as int, k@);
                }
                let c = self.entries[i].1;
                let key = self.entries[i].0.clone();
                let cv = sat_add(c, v);
                self.entries[i] = (key, cv);
                proof {
                    assert(self.entries@ =~= entries0.update(i as int, self.entries@[i as int]));
                    lemma_find_update(entries0, i as int, self.entries@[i as int], k@);
                    assert forall|t: Seq<char>|
                        t != k@ implies #[trigger] find(self.entries@, t) == find(
                        entries0,
                        t,
                    ) by {
                        lemma_find_update(entries0, i as int, self.entries@[i as int], t);
                    }
                    assert forall|i1: int, i2: int|
                        0 <= i1 < i2 < self.entries@.len() implies (
                    #[trigger] self.entries@[i1]).0@ != (#[trigger] self.entries@[i2]).0@ by {
                        assert(entries0[i1].0@ != entries0[i2].0@);
                    }
                }
                return ;
            }
            i += 1;
        }
        proof {
            lemma_find_absent(entries0, k@);
        }
        self.entries.push((k.clone(), v));
        proof {
            assert(self.entries@ =~= entries0.push(self.entries@.last()));
            assert(self.entries@.last().0@ == k@);
            lemma_find_push(entries0, self.entries@.last(), k@);
            assert forall|t: Seq<char>|
                t != k@ implies #[trigger] find(self.entries@, t) == find(entries0, t) by {
                lemma_find_push(entries0, self.entries@.last(), t);
            }
            assert forall|i1: int, i2: int|
                0 <= i1 < i2 < self.entries@.len() implies (#[trigger] self.entries@[i1]).0@ != (
            #[trigger] self.entries@[i2]).0@ by {
                if i2 < entries0.len() {
                    assert(entries0[i1].0@ != entries0[i2].0@);
                } else {
                    assert(self.entries@[i2].0@ == k@);
                }
            }
        }
    }

    /// Total of all counts: the page's total term count.
    pub fn total(&self) -> (t: u64)
        requires
            self.total_spec() <= u64::MAX,
        ensures
            t == self.total_spec(),
    {
        let mut acc: u64 = 0;
        let mut i: usize = 0;
        proof {
            assert(self.entries@.take(0) =~= Seq::<(String, u64)>::empty());
        }
        while i < self.entries.len()
            invariant
                self.total_spec() <= u64::MAX,
                i <= self.entries@.len(),
                acc == sum_counts(self.entries@.take(i as int)),
            decreases self.entries@.len() - i,
        {
            proof {
                lemma_sum_counts_take_succ(self.entries@, i as int);
                lemma_sum_counts_take_le(self.entries@, i + 1);
                lemma_sum_counts_nonneg(self.entries@.take(i + 1));
            }
            acc = acc + self.entries[i].1;
            i += 1;
        }
        proof {
            assert(self.entries@.take(self.entries@.len() as int) =~= self.entries@);
        }
        acc
    }
}

/// Counts the terms of a text: the count of every term equals its number of
/// occurrences among [`terms_of`] the text, and the counts total exactly the
/// number of term occurrences.
pub fn count_words(s: &str) -> (tc: TermCounts)
    ensures
        tc.wf(),
        forall|t: Seq<char>|
            #[trigger] tc.count_of(t) == if occ(terms_of(s@), t) > 0 {
                Some(occ(terms_of(s@), t) as u64)
            } else {
                None::<u64>
            },
        tc.total_spec() == terms_of(s@).len(),
        terms_of(s@).len() <= usize::MAX,
{
    let ts = tokenize(s);
    let ghost tvs = ts.deep_view();
    let mut tc = TermCounts::new();
    let mut i: usize = 0;
    proof {
        assert(tvs.take(0) =~= Seq::<Seq<char>>::empty());
    }
    let n = ts.len();
    while i < n
        invariant
            n == ts@.len(),
            tvs == ts.deep_view(),
            tvs.len() == n,
            i <= n,
            tc.wf(),
            forall|t: Seq<char>|
                #[trigger] tc.count_of(t) == if occ(tvs.take(i as int), t) > 0 {
                    Some(occ(tvs.take(i as int), t) as u64)
                } else {
                    None::<u64>
                },
            tc.total_spec() == i,
        decreases n - i,
    {
        let w = &ts[i];
        proof {
            assert(tvs[i as int] == w@);
            lemma_occ_le(tvs.take(i as int), w@);
        }
        tc.bump(w);
        proof {
            assert forall|t: Seq<char>| true implies #[trigger] occ(tvs.take(i + 1), t) == occ(
                tvs.take(i as int),
                t,
            ) + (if t == w@ {
                1int
            } else {
                0int
            }) by {
                assert(tvs.take(i + 1).drop_last() =~= tvs.take(i as int));
                assert(tvs.take(i + 1).last() == w@);
            }
            assert forall|t: Seq<char>| true implies #[trigger] tc.count_of(t) == (if occ(
                tvs.take(i + 1),
                t,
            ) > 0 {
                Some(occ(tvs.take(i + 1), t) as u64)
            } else {
                None::<u64>
            }) by {
                lemma_occ_le(tvs.take(i as int), t);
            }
        }
        i += 1;
    }
    proof {
        assert(tvs.take(n as int) =~= tvs);
        assert(tvs =~= terms_of(s@));
    }
    tc
}

/// Whether any of the first `j` entries holds the term `t`.
pub open spec fn key_among(entries: Seq<(String, u64)>, j: int, t: Seq<char>) -> bool {
    exists|i: int| 0 <= i < j && (#[trigger] entries[i]).0@ == t
}

/// Folds one page's terms into the document frequencies: every term of the
/// page raises its document count by one, every other count is unchanged.
pub fn add_doc_freqs(df: &mut TermCounts, page: &TermCounts)
    requires
        old(df).wf(),
        page.wf(),
        forall|t: Seq<char>| (#[trigger] old(df).count_of(t)) matches Some(c) ==> c < u64::MAX,
    ensures
        final(df).wf(),
        forall|t: Seq<char>|
            #[trigger] final(df).count_of(t) == match old(df).count_of(t) {
                Some(c) => Some(
                    if page.count_of(t) is Some {
                        (c + 1) as u64
                    } else {
                        c
                    },
                ),
                None => if page.count_of(t) is Some {
                    Some(1u64)
                } else {
                    None::<u64>
                },
            },
{
    let ghost pes = page.entries@;
    let mut j: usize = 0;
    while j < page.entries.len()
        invariant
            df.wf(),
            page.wf(),
            pes == page.entries@,
            j <= pes.len(),
            forall|t: Seq<char>| (#[trigger] old(df).count_of(t)) matches Some(c) ==> c < u64::MAX,
            forall|t: Seq<char>|
                #[trigger] df.count_of(t) == match old(df).count_of(t) {
                    Some(c) => Some(
                        if key_among(pes, j as int, t) {
                            (c + 1) as u64
                        } else {
                            c
                        },
                    ),
                    None => if key_among(pes, j as int, t) {
                        Some(1u64)
                    } else {
                        None::<u64>
                    },
                },
        decreases pes.len() - j,
    {
        let k = &page.entries[j].0;
        proof {
            assert(!key_among(pes, j as int, k@)) by {
                if key_among(pes, j as int, k@) {
                    let i = choose|i: int| 0 <= i < j && (#[trigger] pes[i]).0@ == k@;
                    assert(pes[i].0@ != pes[j as int].0@);
                }
            }
        }
        df.bump(k);
        proof {
            assert(key_among(pes, j as int + 1, k@)) by {
                assert(pes[j as int].0@ == k@);
            }
            assert forall|t: Seq<char>|
                t != k@ implies key_among(pes, j as int + 1, t) == key_among(
                pes,
                j as int,
                t,
            ) by {
                if key_among(pes, j as int + 1, t) {
                    let i = choose|i: int| 0 <= i < j + 1 && (#[trigger] pes[i]).0@ == t;
                    assert(i != j);
                    assert(key_among(pes, j as int, t));
                }
            }
        }
        j += 1;
    }
    proof {
        assert forall|t: Seq<char>|
            #[trigger] key_among(pes, pes.len() as int, t) == (page.count_of(t) is Some) by {
            if key_among(pes, pes.len() as int, t) {
                let i = choose|i: int| 0 <= i < pes.len() && (#[trigger] pes[i]).0@ == t;
                lemma_find_first_match_any(pes, i, t);
            } else {
                assert forall|i: int| 0 <= i < pes.len() implies (#[trigger] pes[i]).0@ != t by {
                    if pes[i].0@ == t {
                        assert(key_among(pes, pes.len() as int, t));
                    }
                }
                lemma_find_absent(pes, t);
            }
        }
    }
}

pub(crate) proof fn lemma_find_first_match_any<V>(entries: Seq<(String, V)>, i: int, k: Seq<char>)
    requires
        0 <= i < entries.len(),
        entries[i].0@ == k,
    ensures
        find(entries, k) is Some,
    decreases i,
{
    if entries[0].0@ != k {
        assert(entries.drop_first()[i - 1] == entries[i]);
        lemma_find_first_match_any(entries.drop_first(), i - 1, k);
    }
}

} // verus!
