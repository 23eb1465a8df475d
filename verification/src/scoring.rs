//! The relevance scorer and score combiner: TF-IDF in fixed-point
//! arithmetic, multiplied with the authority score into the scored index.

use crate::fixed::{mul_div_scaled, mul_div_small, SCALE};
use crate::index::ScoredIndex;
use crate::terms::{
    find, lemma_find_at_index, lemma_find_push, lemma_sum_counts_elem_le, TermCounts,
};
use vstd::arithmetic::div_mod::{
    lemma_div_is_ordered, lemma_div_multiples_vanish, lemma_fundamental_div_mod,
    lemma_fundamental_div_mod_converse,
};
use vstd::arithmetic::mul::lemma_mul_inequality;
use vstd::prelude::*;

verus! {

/// The authority score assumed for a page that the link graph never ranked.
pub const FALLBACK_AUTHORITY: u64 = SCALE / 10;

/// Integer part of `log10(x / SCALE)`, for `x >= SCALE`.
pub open spec fn log10_ip(x: int) -> int
    decreases x,
{
    if x >= 10 * SCALE {
        1 + log10_ip(x / 10)
    } else {
        0
    }
}

/// What is left of `x` after the whole powers of ten are divided out.
pub open spec fn log10_residual(x: int) -> int
    decreases x,
{
    if x >= 10 * SCALE {
        log10_residual(x / 10)
    } else {
        x
    }
}

/// Fractional part of the base-10 logarithm of `x / SCALE`, to `n` binary
/// digits, each digit worth `half`: squaring the argument doubles the
/// logarithm, and a factor of ten beyond one whole unit sets the next digit.
pub open spec fn log10_frac(x: int, n: nat, half: int) -> int
    decreases n,
{
    if n == 0 {
        0
    } else {
        let y = x * x / (SCALE as int);
        if y >= 10 * SCALE {
            half + log10_frac(y / 10, (n - 1) as nat, half / 2)
        } else {
            log10_frac(y, (n - 1) as nat, half / 2)
        }
    }
}

/// Number of fractional digits the logarithm is computed to.
pub const LOG_ROUNDS: usize = 30;

/// The fixed-point base-10 logarithm of `x / SCALE`, scaled by `SCALE`.
pub open spec fn log10_spec(x: int) -> int {
    log10_ip(x) * SCALE + log10_frac(log10_residual(x), LOG_ROUNDS as nat, SCALE as int / 2)
}

/// Powers of ten.
pub open spec fn pow10(n: nat) -> int
    decreases n,
{
    if n == 0 {
        1
    } else {
        10 * pow10((n - 1) as nat)
    }
}

proof fn lemma_log10_frac_bounds(x: int, n: nat, half: int)
    requires
        0 <= half,
    ensures
        0 <= log10_frac(x, n, half) <= 2 * half,
    decreases n,
{
    if n > 0 {
        let y = x * x / (SCALE as int);
        if y >= 10 * SCALE {
            lemma_log10_frac_bounds(y / 10, (n - 1) as nat, half / 2);
        } else {
            lemma_log10_frac_bounds(y, (n - 1) as nat, half / 2);
        }
    }
}

/// The logarithm of one whole unit is exactly zero.
pub proof fn lemma_log10_of_one()
    ensures
        log10_spec(SCALE as int) == 0,
{
    lemma_log10_frac_zero(LOG_ROUNDS as nat, (SCALE as int) / 2);
}

proof fn lemma_log10_frac_zero(n: nat, half: int)
    ensures
        log10_frac(SCALE as int, n, half) == 0,
    decreases n,
{
    if n > 0 {
        assert((SCALE as int) * (SCALE as int) / (SCALE as int) == SCALE) by {
            lemma_div_multiples_vanish(SCALE as int, SCALE as int);
        }
        lemma_log10_frac_zero((n - 1) as nat, half / 2);
    }
}

/// The logarithm of a whole power of ten is exact: `log10_spec` of
/// `pow10(e) * SCALE` is `e * SCALE`.
pub proof fn lemma_log10_of_pow10(e: nat)
    ensures
        log10_spec(pow10(e) * SCALE) == e * SCALE,
    decreases e,
{
    lemma_pow10_positive(e);
    if e == 0 {
        lemma_log10_of_one();
    } else {
        lemma_log10_of_pow10((e - 1) as nat);
        let x = pow10(e) * SCALE;
        assert(x == 10 * (pow10((e - 1) as nat) * SCALE));
        lemma_pow10_positive((e - 1) as nat);
        assert(x >= 10 * SCALE) by {
            assert(pow10((e - 1) as nat) * SCALE >= SCALE) by (nonlinear_arith)
                requires
                    pow10((e - 1) as nat) >= 1,
                    SCALE > 0,
            ;
        }
        assert(x / 10 == pow10((e - 1) as nat) * SCALE) by {
            lemma_div_multiples_vanish(pow10((e - 1) as nat) * SCALE, 10);
        }
        assert(log10_ip(x) == 1 + log10_ip(pow10((e - 1) as nat) * SCALE));
        assert(log10_residual(x) == log10_residual(pow10((e - 1) as nat) * SCALE));
        assert(e * SCALE == (e - 1) * SCALE + SCALE) by (nonlinear_arith);
    }
}

proof fn lemma_pow10_positive(n: nat)
    ensures
        pow10(n) >= 1,
    decreases n,
{
    if n > 0 {
        lemma_pow10_positive((n - 1) as nat);
    }
}

proof fn lemma_pow10_increases(n: nat, m: nat)
    requires
        n <= m,
    ensures
        pow10(n) <= pow10(m),
    decreases m,
{
    if n < m {
        lemma_pow10_increases(n, (m - 1) as nat);
        lemma_pow10_positive((m - 1) as nat);
    }
}

/// Computes the fixed-point base-10 logarithm of `x / SCALE`.
///
/// The result is at most ten whole units, and is exactly zero for one whole
/// unit (so a term on every page scores zero relevance).
pub fn log10_fixed(x: u64) -> (r: u64)
    requires
        SCALE <= x,
        x <= SCALE * SCALE,
    ensures
        r == log10_spec(x as int),
        r <= 10 * SCALE,
{
    let ghost x0 = x as int;
    let mut x = x;
    let mut ip: u64 = 0;
    while x >= 10 * SCALE
        invariant
            SCALE <= x,
            log10_ip(x0) == ip + log10_ip(x as int),
            log10_residual(x0) == log10_residual(x as int),
            x * pow10(ip as nat) <= SCALE * SCALE,
            ip <= 9,
        decreases x,
    {
        proof {
            lemma_fundamental_div_mod(x as int, 10);
            lemma_pow10_positive(ip as nat);
            assert((x as int / 10) * pow10((ip + 1) as nat) <= x * pow10(ip as nat)) by {
                assert((x as int / 10) * pow10((ip + 1) as nat) == ((x as int / 10) * 10) * pow10(
                    ip as nat,
                )) by (nonlinear_arith);
                lemma_mul_inequality((x as int / 10) * 10, x as int, pow10(ip as nat));
            }
            assert(ip + 1 <= 9) by {
                if ip + 1 > 9 {
                    lemma_pow10_increases(10, (ip + 1) as nat);
                    assert(pow10(10) == 10000000000) by {
                        reveal_with_fuel(pow10, 11);
                    }
                    assert((x as int / 10) * pow10((ip + 1) as nat) >= SCALE * 10000000000) by (
                    nonlinear_arith)
                        requires
                            (x as int / 10) >= SCALE,
                            pow10((ip + 1) as nat) >= 10000000000,
                            SCALE > 0,
                    ;
                }
            }
        }
        x = x / 10;
        ip = ip + 1;
    }
    let mut frac: u64 = 0;
    let mut half: u64 = SCALE / 2;
    let mut n: usize = LOG_ROUNDS;
    let ghost xr = x as int;
    while n > 0
        invariant
            x < 10 * SCALE,
            frac + log10_frac(x as int, n as nat, half as int) == log10_frac(
                xr,
                LOG_ROUNDS as nat,
                (SCALE as int) / 2,
            ),
            frac + 2 * half <= SCALE,
        decreases n,
    {
        proof {
            assert((x as int) * (x as int) <= (10 * SCALE - 1) * (10 * SCALE - 1)) by (
            nonlinear_arith)
                requires
                    0 <= x <= 10 * SCALE - 1,
            ;
            lemma_div_is_ordered(
                (x as int) * (x as int),
                (10 * SCALE - 1) * (10 * SCALE - 1),
                SCALE as int,
            );
            assert((10 * SCALE - 1) * (10 * SCALE - 1) / (SCALE as int) == 100 * SCALE - 20) by {
                assert((10 * SCALE - 1) * (10 * SCALE - 1) == (100 * SCALE - 20) * (SCALE as int)
                    + 1) by (nonlinear_arith);
                lemma_fundamental_div_mod_converse(
                    (10 * SCALE - 1) * (10 * SCALE - 1),
                    SCALE as int,
                    100 * SCALE - 20,
                    1,
                );
            }
            assert(0 <= (x as int) * (x as int) / (SCALE as int));
            lemma_log10_frac_bounds((x as int) * (x as int) / (SCALE as int), (n - 1) as nat, (
            half as int) / 2);
            lemma_log10_frac_bounds(((x as int) * (x as int) / (SCALE as int)) / 10, (n - 1) as nat, (
            half as int) / 2);
        }
        let y: u64 = (((x as u128) * (x as u128)) / (SCALE as u128)) as u64;
        if y >= 10 * SCALE {
            x = y / 10;
            frac = frac + half;
        } else {
            x = y;
        }
        half = half / 2;
        n -= 1;
    }
    proof {
        lemma_log10_frac_bounds(xr, LOG_ROUNDS as nat, (SCALE as int) / 2);
        assert(ip * SCALE <= 9 * SCALE) by (nonlinear_arith)
            requires
                0 <= ip <= 9,
                SCALE > 0,
        ;
    }
    ip * SCALE + frac
}


/// Fixed-point term frequency: the share of the page's term occurrences
/// that belong to this term.
pub open spec fn tf_of(count: u64, total: u64) -> int {
    count * SCALE / (total as int)
}

/// The ratio of all documents to the documents holding the term, in fixed
/// point.
pub open spec fn idf_ratio(total_docs: u64, df: u64) -> int {
    total_docs * SCALE / (df as int)
}

/// Fixed-point inverse document frequency: `log10` of [`idf_ratio`].
pub open spec fn idf_of(total_docs: u64, df: u64) -> int {
    log10_spec(idf_ratio(total_docs, df))
}

/// Fixed-point relevance: term frequency times inverse document frequency.
pub open spec fn relevance_of(count: u64, total: u64, total_docs: u64, df: u64) -> int {
    tf_of(count, total) * idf_of(total_docs, df) / (SCALE as int)
}

/// The final score of a (term, page) pair: relevance times authority.
pub open spec fn combined_score(count: u64, total: u64, total_docs: u64, df: u64, auth: u64) -> int {
    relevance_of(count, total, total_docs, df) * auth / (SCALE as int)
}

/// The document frequency used for a term: the recorded count, floored at
/// one for a term missing from the accumulator.
pub open spec fn df_val(df: TermCounts, t: Seq<char>) -> u64 {
    match df.count_of(t) {
        Some(d) => d,
        None => 1u64,
    }
}

/// The authority score used for a url: the computed rank, or the fallback
/// for a page the graph never ranked.
pub open spec fn auth_val(auth: TermCounts, u: Seq<char>) -> u64 {
    match auth.count_of(u) {
        Some(a) => a,
        None => FALLBACK_AUTHORITY,
    }
}

/// Scores one (term, page) pair.
pub fn score_term(count: u64, total: u64, total_docs: u64, df: u64, auth: u64) -> (r: u64)
    requires
        0 < total,
        count <= total,
        0 < df <= total_docs,
        total_docs <= SCALE,
        auth <= SCALE,
    ensures
        r == combined_score(count, total, total_docs, df, auth),
        r <= 10 * SCALE,
{
    let tf = mul_div_scaled(count, SCALE, total);
    proof {
        lemma_mul_inequality(total_docs as int, SCALE as int, SCALE as int);
        assert(total_docs * SCALE <= u64::MAX);
        lemma_mul_inequality(df as int, total_docs as int, SCALE as int);
        lemma_div_is_ordered((df * SCALE) as int, (total_docs * SCALE) as int, df as int);
        lemma_div_multiples_vanish(SCALE as int, df as int);
        assert(df * SCALE == (df as int) * (SCALE as int)) by (nonlinear_arith);
    }
    let ratio = mul_div_small(total_docs, SCALE, df);
    proof {
        assert(SCALE <= ratio);
        assert(ratio <= SCALE * SCALE);
    }
    let idf = log10_fixed(ratio);
    let rel = mul_div_scaled(tf, idf, SCALE);
    let r = mul_div_scaled(auth, rel, SCALE);
    proof {
        assert(auth * rel == rel * auth) by (nonlinear_arith);
    }
    r
}

/// The score one page yields for a term it holds.
pub open spec fn page_term_score(
    p: (String, TermCounts),
    total_docs: u64,
    df: TermCounts,
    auth: TermCounts,
    t: Seq<char>,
) -> u64 {
    combined_score(
        p.1.count_of(t)->Some_0,
        p.1.total_spec() as u64,
        total_docs,
        df_val(df, t),
        auth_val(auth, p.0@),
    ) as u64
}

/// What the scored index holds for url `u` under term `t`: the score of the
/// page with url `u`, provided it has a positive term total and holds `t`.
pub open spec fn scored_lookup(
    pages: Seq<(String, TermCounts)>,
    total_docs: u64,
    df: TermCounts,
    auth: TermCounts,
    t: Seq<char>,
    u: Seq<char>,
) -> Option<u64>
    decreases pages.len(),
{
    if pages.len() == 0 {
        None
    } else {
        let p = pages.last();
        if p.0@ == u && p.1.total_spec() > 0 && p.1.count_of(t) is Some {
            Some(page_term_score(p, total_docs, df, auth, t))
        } else {
            scored_lookup(pages.drop_last(), total_docs, df, auth, t, u)
        }
    }
}

proof fn lemma_scored_lookup_absent(
    pages: Seq<(String, TermCounts)>,
    total_docs: u64,
    df: TermCounts,
    auth: TermCounts,
    t: Seq<char>,
    u: Seq<char>,
)
    requires
        forall|i: int| 0 <= i < pages.len() ==> (#[trigger] pages[i]).0@ != u,
    ensures
        scored_lookup(pages, total_docs, df, auth, t, u) is None,
    decreases pages.len(),
{
    if pages.len() > 0 {
        assert(pages.last() == pages[pages.len() - 1]);
        lemma_scored_lookup_absent(pages.drop_last(), total_docs, df, auth, t, u);
    }
}

/// Builds the scored index from the non-partial pages' term counts, the
/// document frequencies, and the authority scores: every page with a
/// positive term total contributes, for each of its terms, TF-IDF relevance
/// times the page's authority.
pub fn build_scored_index(
    pages: &Vec<(String, TermCounts)>,
    df: &TermCounts,
    auth: &TermCounts,
) -> (idx: ScoredIndex)
    requires
        forall|i1: int, i2: int|
            0 <= i1 < i2 < pages@.len() ==> (#[trigger] pages@[i1]).0@ != (
            #[trigger] pages@[i2]).0@,
        forall|i: int|
            0 <= i < pages@.len() ==> (#[trigger] pages@[i]).1.wf() && pages@[i].1.total_spec()
                <= u64::MAX,
        df.wf(),
        auth.wf(),
        pages@.len() <= SCALE,
        forall|t: Seq<char>| (#[trigger] df.count_of(t)) matches Some(d) ==> 1 <= d <= pages@.len(),
        forall|u: Seq<char>| (#[trigger] auth.count_of(u)) matches Some(a) ==> a <= SCALE,
    ensures
        idx.wf(),
        forall|t: Seq<char>, u: Seq<char>|
            #[trigger] idx.score_at(t, u) == scored_lookup(
                pages@,
                pages@.len() as u64,
                *df,
                *auth,
                t,
                u,
            ),
{
    let total_docs: u64 = pages.len() as u64;
    let mut idx = ScoredIndex::new();
    let mut i: usize = 0;
    proof {
        assert(pages@.take(0) =~= Seq::<(String, TermCounts)>::empty());
    }
    while i < pages.len()
        invariant
            total_docs == pages@.len(),
            forall|i1: int, i2: int|
                0 <= i1 < i2 < pages@.len() ==> (#[trigger] pages@[i1]).0@ != (
                #[trigger] pages@[i2]).0@,
            forall|i1: int|
                0 <= i1 < pages@.len() ==> (#[trigger] pages@[i1]).1.wf()
                    && pages@[i1].1.total_spec() <= u64::MAX,
            df.wf(),
            auth.wf(),
            pages@.len() <= SCALE,
            forall|t: Seq<char>|
                (#[trigger] df.count_of(t)) matches Some(d) ==> 1 <= d <= pages@.len(),
            forall|u: Seq<char>| (#[trigger] auth.count_of(u)) matches Some(a) ==> a <= SCALE,
            i <= pages@.len(),
            idx.wf(),
            forall|t: Seq<char>, u: Seq<char>|
                #[trigger] idx.score_at(t, u) == scored_lookup(
                    pages@.take(i as int),
                    total_docs,
                    *df,
                    *auth,
                    t,
                    u,
                ),
        decreases pages@.len() - i,
    {
        let ghost pre = pages@.take(i as int);
        let ghost cur = pages@[i as int];
        proof {
            assert(pages@.take(i + 1).drop_last() =~= pre);
            assert(pages@.take(i + 1).last() == cur);
            assert forall|j: int| 0 <= j < pre.len() implies (#[trigger] pre[j]).0@
                != cur.0@ by {
                assert(pre[j] == pages@[j]);
            }
        }
        let total = pages[i].1.total();
        if total > 0 {
            let mut j: usize = 0;
            proof {
                assert(cur.1.entries@.take(0) =~= Seq::<(String, u64)>::empty());
            }
            while j < pages[i].1.entries.len()
                invariant
                    total_docs == pages@.len(),
                    forall|i1: int, i2: int|
                        0 <= i1 < i2 < pages@.len() ==> (#[trigger] pages@[i1]).0@ != (
                        #[trigger] pages@[i2]).0@,
                    df.wf(),
                    auth.wf(),
                    pages@.len() <= SCALE,
                    forall|t: Seq<char>|
                        (#[trigger] df.count_of(t)) matches Some(d) ==> 1 <= d <= pages@.len(),
                    forall|u: Seq<char>|
                        (#[trigger] auth.count_of(u)) matches Some(a) ==> a <= SCALE,
                    i < pages@.len(),
                    cur == pages@[i as int],
                    pre == pages@.take(i as int),
                    cur.1.wf(),
                    cur.1.total_spec() <= u64::MAX,
                    total == cur.1.total_spec(),
                    total > 0,
                    j <= cur.1.entries@.len(),
                    idx.wf(),
                    forall|t: Seq<char>, u: Seq<char>|
                        #[trigger] idx.score_at(t, u) == (if u == cur.0@ && find(
                            cur.1.entries@.take(j as int),
                            t,
                        ) is Some {
                            Some(page_term_score(cur, total_docs, *df, *auth, t))
                        } else {
                            scored_lookup(pre, total_docs, *df, *auth, t, u)
                        }),
                decreases cur.1.entries@.len() - j,
            {
                let count = pages[i].1.entries[j].1;
                proof {
                    lemma_sum_counts_elem_le(cur.1.entries@, j as int);
                    lemma_find_at_index(cur.1.entries@, j as int);
                }
                let d: u64 = match df.get(&pages[i].1.entries[j].0) {
                    Some(d0) => d0,
                    None => 1,
                };
                let a: u64 = match auth.get(&pages[i].0) {
                    Some(a0) => a0,
                    None => FALLBACK_AUTHORITY,
                };
                let sc = score_term(count, total, total_docs, d, a);
                proof {
                    let t0 = cur.1.entries@[j as int].0@;
                    assert(find(cur.1.entries@.take(j as int), t0) is None) by {
                        if find(cur.1.entries@.take(j as int), t0) is Some {
                            crate::terms::lemma_find_some_index(
                                cur.1.entries@.take(j as int),
                                t0,
                            );
                            let j1 = choose|j1: int|
                                0 <= j1 < j && (#[trigger] cur.1.entries@.take(j as int)[j1]).0@
                                    == t0;
                            assert(cur.1.entries@[j1].0@ != cur.1.entries@[j as int].0@);
                        }
                    }
                    lemma_scored_lookup_absent(pre, total_docs, *df, *auth, t0, cur.0@);
                    assert(idx.score_at(t0, cur.0@) is None);
                }
                idx.insert_score(&pages[i].1.entries[j].0, &pages[i].0, sc);
                proof {
                    let t0 = cur.1.entries@[j as int].0@;
                    assert(cur.1.entries@.take(j + 1) =~= cur.1.entries@.take(j as int).push(
                        cur.1.entries@[j as int],
                    ));
                    assert(cur.1.count_of(t0) == Some(count));
                    assert(sc == page_term_score(cur, total_docs, *df, *auth, t0)) by {
                        assert(d == df_val(*df, t0));
                        assert(a == auth_val(*auth, cur.0@));
                        assert(combined_score(count, total, total_docs, d, a) <= 10 * SCALE);
                    }
                    assert forall|t: Seq<char>, u: Seq<char>|
                        #[trigger] idx.score_at(t, u) == (if u == cur.0@ && find(
                            cur.1.entries@.take(j + 1),
                            t,
                        ) is Some {
                            Some(page_term_score(cur, total_docs, *df, *auth, t))
                        } else {
                            scored_lookup(pre, total_docs, *df, *auth, t, u)
                        }) by {
                        lemma_find_push(
                            cur.1.entries@.take(j as int),
                            cur.1.entries@[j as int],
                            t,
                        );
                    }
                }
                j += 1;
            }
            proof {
                assert(cur.1.entries@.take(cur.1.entries@.len() as int) =~= cur.1.entries@);
                assert forall|t: Seq<char>, u: Seq<char>|
                    #[trigger] idx.score_at(t, u) == scored_lookup(
                    pages@.take(i + 1),
                    total_docs,
                    *df,
                    *auth,
                    t,
                    u,
                ) by {
                    if u == cur.0@ {
                        if find(cur.1.entries@, t) is Some {
                            assert(cur.1.count_of(t) is Some);
                        } else {
                            assert(cur.1.count_of(t) is None);
                            lemma_scored_lookup_absent(pre, total_docs, *df, *auth, t, u);
                        }
                    }
                }
            }
        } else {
            proof {
                assert forall|t: Seq<char>, u: Seq<char>|
                    #[trigger] idx.score_at(t, u) == scored_lookup(
                    pages@.take(i + 1),
                    total_docs,
                    *df,
                    *auth,
                    t,
                    u,
                ) by {
                    assert(cur.1.total_spec() == 0);
                }
            }
        }
        i += 1;
    }
    proof {
        assert(pages@.take(pages@.len() as int) =~= pages@);
    }
    idx
}


/// A term on every page scores zero inverse document frequency: with the
/// document frequency equal to the document count, the ratio is one whole
/// unit and its logarithm is exactly zero.
pub proof fn lemma_idf_term_on_every_page(total_docs: u64, df: u64)
    requires
        0 < total_docs,
        df == total_docs,
    ensures
        idf_of(total_docs, df) == 0,
{
    assert(total_docs * SCALE / (df as int) == SCALE) by {
        assert(total_docs * SCALE == (df as int) * (SCALE as int)) by (nonlinear_arith)
            requires
                df == total_docs,
        ;
        lemma_div_multiples_vanish(SCALE as int, df as int);
    }
    lemma_log10_of_one();
}

/// A term on exactly one page out of a whole power of ten scores exactly
/// that power as its inverse document frequency.
pub proof fn lemma_idf_term_on_one_page(total_docs: u64, e: nat)
    requires
        total_docs == pow10(e),
        pow10(e) * SCALE <= u64::MAX,
    ensures
        idf_of(total_docs, 1) == e * SCALE,
{
    assert(total_docs * SCALE / 1int == total_docs * SCALE) by {
        lemma_fundamental_div_mod_converse(
            (total_docs * SCALE) as int,
            1,
            (total_docs * SCALE) as int,
            0,
        );
    }
    lemma_log10_of_pow10(e);
}

} // verus!
