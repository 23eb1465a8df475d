//! Serialization of the scored index: a length-prefixed text format that
//! round-trips exactly — parsing a rendered index yields the same terms,
//! urls and scores.
//!
//! Wire form: every number is written in decimal followed by one space;
//! a string is written as its character count followed by its characters.
//! The index is its entry count, then per term the term, its posting count,
//! and per posting the url and the score.

use crate::index::ScoredIndex;
use crate::text::{str_chars, string_from_chars};
use vstd::prelude::*;
use vstd::string::StrSliceExecFns;

verus! {

/// The mathematical content of a scored index: per term, the postings.
pub open spec fn index_model(es: Seq<(String, Vec<(String, u64)>)>) -> Seq<
    (Seq<char>, Seq<(Seq<char>, u64)>),
> {
    Seq::new(
        es.len(),
        |i: int|
            (
                es[i].0@,
                Seq::new(es[i].1@.len(), |j: int| (es[i].1@[j].0@, es[i].1@[j].1)),
            ),
    )
}

/// The decimal digit characters.
pub open spec fn digit_char(d: int) -> char {
    if d == 0 {
        '0'
    } else if d == 1 {
        '1'
    } else if d == 2 {
        '2'
    } else if d == 3 {
        '3'
    } else if d == 4 {
        '4'
    } else if d == 5 {
        '5'
    } else if d == 6 {
        '6'
    } else if d == 7 {
        '7'
    } else if d == 8 {
        '8'
    } else {
        '9'
    }
}

/// Whether `c` is a decimal digit character.
pub open spec fn is_digit_char(c: char) -> bool {
    c == '0' || c == '1' || c == '2' || c == '3' || c == '4' || c == '5' || c == '6' || c == '7'
        || c == '8' || c == '9'
}

/// The value of a digit character.
pub open spec fn digit_val(c: char) -> int {
    if c == '0' {
        0
    } else if c == '1' {
        1
    } else if c == '2' {
        2
    } else if c == '3' {
        3
    } else if c == '4' {
        4
    } else if c == '5' {
        5
    } else if c == '6' {
        6
    } else if c == '7' {
        7
    } else if c == '8' {
        8
    } else {
        9
    }
}

/// The decimal digits of `n`, most significant first.
pub open spec fn digits_spec(n: int) -> Seq<char>
    decreases n,
{
    if n < 10 {
        seq![digit_char(n)]
    } else {
        digits_spec(n / 10).push(digit_char(n % 10))
    }
}

/// A rendered number: its digits and a closing space.
pub open spec fn render_u64_spec(n: u64) -> Seq<char> {
    digits_spec(n as int).push(' ')
}

/// A rendered string: its character count, then its characters.
pub open spec fn render_str_spec(s: Seq<char>) -> Seq<char> {
    render_u64_spec(s.len() as u64) + s
}

/// A rendered posting: the url, then the score.
pub open spec fn render_posting_spec(p: (Seq<char>, u64)) -> Seq<char> {
    render_str_spec(p.0) + render_u64_spec(p.1)
}

/// Rendered postings, in order.
pub open spec fn render_postings_spec(ps: Seq<(Seq<char>, u64)>) -> Seq<char>
    decreases ps.len(),
{
    if ps.len() == 0 {
        Seq::empty()
    } else {
        render_posting_spec(ps[0]) + render_postings_spec(ps.drop_first())
    }
}

/// A rendered term entry: the term, its posting count, its postings.
pub open spec fn render_entry_spec(e: (Seq<char>, Seq<(Seq<char>, u64)>)) -> Seq<char> {
    render_str_spec(e.0) + render_u64_spec(e.1.len() as u64) + render_postings_spec(e.1)
}

/// Rendered term entries, in order.
pub open spec fn render_entries_spec(es: Seq<(Seq<char>, Seq<(Seq<char>, u64)>)>) -> Seq<char>
    decreases es.len(),
{
    if es.len() == 0 {
        Seq::empty()
    } else {
        render_entry_spec(es[0]) + render_entries_spec(es.drop_first())
    }
}

/// The whole rendered index: its entry count, then its entries.
pub open spec fn render_index_spec(es: Seq<(Seq<char>, Seq<(Seq<char>, u64)>)>) -> Seq<char> {
    render_u64_spec(es.len() as u64) + render_entries_spec(es)
}

/// Parses a number: digits folded into `acc` until the closing space.
pub open spec fn parse_u64_rec(s: Seq<char>, acc: u64) -> Option<(u64, Seq<char>)>
    decreases s.len(),
{
    if s.len() == 0 {
        None
    } else if s[0] == ' ' {
        Some((acc, s.drop_first()))
    } else if is_digit_char(s[0]) {
        if acc * 10 + digit_val(s[0]) > u64::MAX {
            None
        } else {
            parse_u64_rec(s.drop_first(), (acc * 10 + digit_val(s[0])) as u64)
        }
    } else {
        None
    }
}

/// Parses a number from the front of `s`.
pub open spec fn parse_u64_spec(s: Seq<char>) -> Option<(u64, Seq<char>)> {
    parse_u64_rec(s, 0)
}

/// Parses a length-prefixed string from the front of `s`.
pub open spec fn parse_str_spec(s: Seq<char>) -> Option<(Seq<char>, Seq<char>)> {
    match parse_u64_spec(s) {
        None => None,
        Some((len, rest)) => if rest.len() >= len {
            Some((rest.take(len as int), rest.skip(len as int)))
        } else {
            None
        },
    }
}

/// Parses `k` postings from the front of `s`.
pub open spec fn parse_postings_spec(s: Seq<char>, k: nat) -> Option<
    (Seq<(Seq<char>, u64)>, Seq<char>),
>
    decreases k,
{
    if k == 0 {
        Some((Seq::empty(), s))
    } else {
        match parse_str_spec(s) {
            None => None,
            Some((url, rest1)) => match parse_u64_spec(rest1) {
                None => None,
                Some((sc, rest2)) => match parse_postings_spec(rest2, (k - 1) as nat) {
                    None => None,
                    Some((ps, rest3)) => Some((seq![(url, sc)] + ps, rest3)),
                },
            },
        }
    }
}

/// Parses `k` term entries from the front of `s`.
pub open spec fn parse_entries_spec(s: Seq<char>, k: nat) -> Option<
    (Seq<(Seq<char>, Seq<(Seq<char>, u64)>)>, Seq<char>),
>
    decreases k,
{
    if k == 0 {
        Some((Seq::empty(), s))
    } else {
        match parse_str_spec(s) {
            None => None,
            Some((term, rest1)) => match parse_u64_spec(rest1) {
                None => None,
                Some((cnt, rest2)) => match parse_postings_spec(rest2, cnt as nat) {
                    None => None,
                    Some((ps, rest3)) => match parse_entries_spec(rest3, (k - 1) as nat) {
                        None => None,
                        Some((es, rest4)) => Some((seq![(term, ps)] + es, rest4)),
                    },
                },
            },
        }
    }
}

/// Parses a whole rendered index; the input must be consumed exactly.
pub open spec fn parse_index_spec(s: Seq<char>) -> Option<
    Seq<(Seq<char>, Seq<(Seq<char>, u64)>)>,
> {
    match parse_u64_spec(s) {
        None => None,
        Some((cnt, rest)) => match parse_entries_spec(rest, cnt as nat) {
            None => None,
            Some((es, rest2)) => if rest2.len() == 0 {
                Some(es)
            } else {
                None
            },
        },
    }
}

/// Number of decimal digits of `n`.
pub open spec fn num_digits(n: int) -> nat
    decreases n,
{
    if n < 10 {
        1
    } else {
        num_digits(n / 10) + 1
    }
}

/// Powers of ten, for the digit-consumption argument.
pub open spec fn ten_pow(k: nat) -> int
    decreases k,
{
    if k == 0 {
        1
    } else {
        10 * ten_pow((k - 1) as nat)
    }
}

proof fn lemma_digits_consume(n: int, acc: u64, tail: Seq<char>)
    requires
        0 <= n,
        acc * ten_pow(num_digits(n)) + n <= u64::MAX,
    ensures
        parse_u64_rec(digits_spec(n) + tail, acc) == parse_u64_rec(
            tail,
            (acc * ten_pow(num_digits(n)) + n) as u64,
        ),
    decreases n,
{
    if n < 10 {
        let s = digits_spec(n) + tail;
        assert(s[0] == digit_char(n));
        assert(is_digit_char(digit_char(n)));
        assert(digit_char(n) != ' ');
        assert(digit_val(digit_char(n)) == n);
        assert(s.drop_first() =~= tail);
        assert(ten_pow(0) == 1);
        assert(ten_pow(1) == 10);
        assert(acc * 10 + n <= u64::MAX);
    } else {
        let d = n % 10;
        let m = n / 10;
        assert(0 <= d < 10 && 0 <= m) by {
            vstd::arithmetic::div_mod::lemma_fundamental_div_mod(n, 10);
            vstd::arithmetic::div_mod::lemma_mod_division_less_than_divisor(n, 10);
            vstd::arithmetic::div_mod::lemma_div_pos_is_pos(n, 10);
        }
        assert(digits_spec(n) + tail =~= digits_spec(m) + (seq![digit_char(d)] + tail));
        let acc2 = acc * ten_pow(num_digits(m)) + m;
        assert(num_digits(n) == num_digits(m) + 1);
        assert(ten_pow(num_digits(n)) == 10 * ten_pow(num_digits(m)));
        assert(acc2 * 10 + d == acc * ten_pow(num_digits(n)) + n) by {
            assert((acc * ten_pow(num_digits(m)) + m) * 10 == acc * (10 * ten_pow(
                num_digits(m),
            )) + m * 10) by (nonlinear_arith);
            assert(m * 10 + d == n) by {
                vstd::arithmetic::div_mod::lemma_fundamental_div_mod(n, 10);
            }
        }
        assert(0 <= acc2 * 10 + d) by {
            lemma_ten_pow_pos(num_digits(m));
            assert(acc * ten_pow(num_digits(m)) >= 0) by (nonlinear_arith)
                requires
                    acc >= 0,
                    ten_pow(num_digits(m)) >= 1,
            ;
        }
        lemma_digits_consume(m, acc, seq![digit_char(d)] + tail);
        let s2 = seq![digit_char(d)] + tail;
        assert(s2[0] == digit_char(d));
        assert(is_digit_char(digit_char(d)));
        assert(digit_char(d) != ' ');
        assert(digit_val(digit_char(d)) == d);
        assert(s2.drop_first() =~= tail);
        assert(parse_u64_rec(s2, acc2 as u64) == parse_u64_rec(tail, (acc2 * 10 + d) as u64));
    }
}

proof fn lemma_ten_pow_pos(k: nat)
    ensures
        ten_pow(k) >= 1,
    decreases k,
{
    if k > 0 {
        lemma_ten_pow_pos((k - 1) as nat);
    }
}

/// Parsing a rendered number yields the number and the rest.
proof fn lemma_u64_round(n: u64, rest: Seq<char>)
    ensures
        parse_u64_spec(render_u64_spec(n) + rest) == Some((n, rest)),
{
    assert(render_u64_spec(n) + rest =~= digits_spec(n as int) + (seq![' '] + rest));
    lemma_ten_pow_pos(num_digits(n as int));
    lemma_digits_consume(n as int, 0, seq![' '] + rest);
    let s2 = seq![' '] + rest;
    assert(s2[0] == ' ');
    assert(s2.drop_first() =~= rest);
}

/// Parsing a rendered string yields the string and the rest.
proof fn lemma_str_round(x: Seq<char>, rest: Seq<char>)
    requires
        x.len() <= u64::MAX,
    ensures
        parse_str_spec(render_str_spec(x) + rest) == Some((x, rest)),
{
    assert(render_str_spec(x) + rest =~= render_u64_spec(x.len() as u64) + (x + rest));
    lemma_u64_round(x.len() as u64, x + rest);
    assert((x + rest).take(x.len() as int) =~= x);
    assert((x + rest).skip(x.len() as int) =~= rest);
}

/// Every string of the model fits the length prefix.
pub open spec fn model_wire_ok(m: Seq<(Seq<char>, Seq<(Seq<char>, u64)>)>) -> bool {
    &&& m.len() <= u64::MAX
    &&& forall|i: int|
        0 <= i < m.len() ==> (#[trigger] m[i]).0.len() <= u64::MAX && m[i].1.len() <= u64::MAX
            && forall|j: int| 0 <= j < m[i].1.len() ==> (#[trigger] m[i].1[j]).0.len() <= u64::MAX
}

proof fn lemma_postings_round(ps: Seq<(Seq<char>, u64)>, rest: Seq<char>)
    requires
        forall|j: int| 0 <= j < ps.len() ==> (#[trigger] ps[j]).0.len() <= u64::MAX,
        ps.len() <= u64::MAX,
    ensures
        parse_postings_spec(render_postings_spec(ps) + rest, ps.len() as nat) == Some((ps, rest)),
    decreases ps.len(),
{
    if ps.len() == 0 {
        assert(render_postings_spec(ps) + rest =~= rest);
        assert(Seq::<(Seq<char>, u64)>::empty() =~= ps);
    } else {
        let p = ps[0];
        assert(render_postings_spec(ps) + rest =~= render_str_spec(p.0) + (render_u64_spec(p.1) + (
        render_postings_spec(ps.drop_first()) + rest)));
        lemma_str_round(p.0, render_u64_spec(p.1) + (render_postings_spec(ps.drop_first()) + rest));
        lemma_u64_round(p.1, render_postings_spec(ps.drop_first()) + rest);
        assert forall|j: int|
            0 <= j < ps.drop_first().len() implies (#[trigger] ps.drop_first()[j]).0.len()
            <= u64::MAX by {
            assert(ps.drop_first()[j] == ps[j + 1]);
        }
        lemma_postings_round(ps.drop_first(), rest);
        assert(seq![(p.0, p.1)] + ps.drop_first() =~= ps);
    }
}

proof fn lemma_entries_round(es: Seq<(Seq<char>, Seq<(Seq<char>, u64)>)>, rest: Seq<char>)
    requires
        model_wire_ok(es),
    ensures
        parse_entries_spec(render_entries_spec(es) + rest, es.len() as nat) == Some((es, rest)),
    decreases es.len(),
{
    if es.len() == 0 {
        assert(render_entries_spec(es) + rest =~= rest);
        assert(Seq::<(Seq<char>, Seq<(Seq<char>, u64)>)>::empty() =~= es);
    } else {
        let e = es[0];
        let tail1 = render_u64_spec(e.1.len() as u64) + (render_postings_spec(e.1) + (
        render_entries_spec(es.drop_first()) + rest));
        assert(render_entries_spec(es) + rest =~= render_str_spec(e.0) + tail1);
        lemma_str_round(e.0, tail1);
        lemma_u64_round(
            e.1.len() as u64,
            render_postings_spec(e.1) + (render_entries_spec(es.drop_first()) + rest),
        );
        lemma_postings_round(e.1, render_entries_spec(es.drop_first()) + rest);
        assert(model_wire_ok(es.drop_first())) by {
            assert forall|i: int|
                0 <= i < es.drop_first().len() implies (#[trigger] es.drop_first()[i]).0.len()
                <= u64::MAX && es.drop_first()[i].1.len() <= u64::MAX && forall|j: int|
                0 <= j < es.drop_first()[i].1.len() ==> (#[trigger] es.drop_first()[i].1[j]).0.len()
                    <= u64::MAX by {
                assert(es.drop_first()[i] == es[i + 1]);
            }
        }
        lemma_entries_round(es.drop_first(), rest);
        assert(seq![(e.0, e.1)] + es.drop_first() =~= es);
    }
}

/// The round trip: parsing a rendered index yields exactly the same terms,
/// urls and scores.
pub proof fn lemma_index_round_trip(m: Seq<(Seq<char>, Seq<(Seq<char>, u64)>)>)
    requires
        model_wire_ok(m),
    ensures
        parse_index_spec(render_index_spec(m)) == Some(m),
{
    assert(render_index_spec(m) =~= render_u64_spec(m.len() as u64) + (render_entries_spec(m)
        + Seq::<char>::empty()));
    lemma_u64_round(m.len() as u64, render_entries_spec(m) + Seq::<char>::empty());
    lemma_entries_round(m, Seq::empty());
    assert(render_entries_spec(m) + Seq::<char>::empty() =~= render_entries_spec(m));
}


proof fn lemma_render_postings_push(ps: Seq<(Seq<char>, u64)>, p: (Seq<char>, u64))
    ensures
        render_postings_spec(ps.push(p)) == render_postings_spec(ps) + render_posting_spec(p),
    decreases ps.len(),
{
    if ps.len() == 0 {
        assert(ps.push(p)[0] == p);
        assert(ps.push(p).drop_first() =~= Seq::<(Seq<char>, u64)>::empty());
        assert(render_postings_spec(Seq::<(Seq<char>, u64)>::empty()) =~= Seq::<char>::empty());
        assert(render_postings_spec(ps.push(p)) =~= render_posting_spec(p));
        assert(render_postings_spec(ps) + render_posting_spec(p) =~= render_posting_spec(p));
    } else {
        assert(ps.push(p)[0] == ps[0]);
        assert(ps.push(p).drop_first() =~= ps.drop_first().push(p));
        lemma_render_postings_push(ps.drop_first(), p);
        assert(render_posting_spec(ps[0]) + (render_postings_spec(ps.drop_first())
            + render_posting_spec(p)) =~= (render_posting_spec(ps[0]) + render_postings_spec(
            ps.drop_first(),
        )) + render_posting_spec(p));
    }
}

proof fn lemma_render_entries_push(
    es: Seq<(Seq<char>, Seq<(Seq<char>, u64)>)>,
    e: (Seq<char>, Seq<(Seq<char>, u64)>),
)
    ensures
        render_entries_spec(es.push(e)) == render_entries_spec(es) + render_entry_spec(e),
    decreases es.len(),
{
    if es.len() == 0 {
        assert(es.push(e)[0] == e);
        assert(es.push(e).drop_first() =~= Seq::<(Seq<char>, Seq<(Seq<char>, u64)>)>::empty());
        assert(render_entries_spec(Seq::<(Seq<char>, Seq<(Seq<char>, u64)>)>::empty())
            =~= Seq::<char>::empty());
        assert(render_entries_spec(es.push(e)) =~= render_entry_spec(e));
        assert(render_entries_spec(es) + render_entry_spec(e) =~= render_entry_spec(e));
    } else {
        assert(es.push(e)[0] == es[0]);
        assert(es.push(e).drop_first() =~= es.drop_first().push(e));
        lemma_render_entries_push(es.drop_first(), e);
        assert(render_entry_spec(es[0]) + (render_entries_spec(es.drop_first())
            + render_entry_spec(e)) =~= (render_entry_spec(es[0]) + render_entries_spec(
            es.drop_first(),
        )) + render_entry_spec(e));
    }
}

/// One decimal digit as a character.
fn digit_char_of(d: u64) -> (c: char)
    requires
        d < 10,
    ensures
        c == digit_char(d as int),
{
    if d == 0 {
        '0'
    } else if d == 1 {
        '1'
    } else if d == 2 {
        '2'
    } else if d == 3 {
        '3'
    } else if d == 4 {
        '4'
    } else if d == 5 {
        '5'
    } else if d == 6 {
        '6'
    } else if d == 7 {
        '7'
    } else if d == 8 {
        '8'
    } else {
        '9'
    }
}

/// Appends the decimal digits of `n`.
fn push_digits(out: &mut Vec<char>, n: u64)
    ensures
        final(out)@ == old(out)@ + digits_spec(n as int),
    decreases n,
{
    if n < 10 {
        out.push(digit_char_of(n));
        proof {
            assert(final(out)@ =~= old(out)@ + digits_spec(n as int));
        }
    } else {
        push_digits(out, n / 10);
        out.push(digit_char_of(n % 10));
        proof {
            assert(final(out)@ =~= old(out)@ + digits_spec(n as int));
        }
    }
}

/// Appends a rendered number.
fn push_u64(out: &mut Vec<char>, n: u64)
    ensures
        final(out)@ == old(out)@ + render_u64_spec(n),
{
    push_digits(out, n);
    out.push(' ');
    proof {
        assert(final(out)@ =~= old(out)@ + render_u64_spec(n));
    }
}

/// Appends a rendered string.
fn push_str_wire(out: &mut Vec<char>, s: &String)
    ensures
        final(out)@ == old(out)@ + render_str_spec(s@),
{
    let n = s.as_str().unicode_len();
    push_u64(out, n as u64);
    let cs = str_chars(s.as_str());
    let mut k: usize = 0;
    let ghost mid = out@;
    while k < cs.len()
        invariant
            cs@ == s@,
            n == s@.len(),
            k <= cs@.len(),
            out@ == mid + cs@.take(k as int),
        decreases cs@.len() - k,
    {
        proof {
            assert(mid + cs@.take(k + 1) =~= (mid + cs@.take(k as int)).push(cs@[k as int]));
        }
        out.push(cs[k]);
        k += 1;
    }
    proof {
        assert(cs@.take(cs@.len() as int) =~= cs@);
        assert(out@ =~= old(out)@ + render_str_spec(s@));
    }
}

/// Renders the whole index to text.
pub fn render_index(idx: &ScoredIndex) -> (out: Vec<char>)
    ensures
        out@ == render_index_spec(index_model(idx.scores@)),
{
    let ghost m = index_model(idx.scores@);
    let mut out: Vec<char> = Vec::new();
    push_u64(&mut out, idx.scores.len() as u64);
    let mut i: usize = 0;
    proof {
        assert(m.take(0) =~= Seq::<(Seq<char>, Seq<(Seq<char>, u64)>)>::empty());
        assert(out@ =~= render_u64_spec(idx.scores@.len() as u64) + render_entries_spec(m.take(0)));
    }
    while i < idx.scores.len()
        invariant
            m == index_model(idx.scores@),
            m.len() == idx.scores@.len(),
            i <= idx.scores@.len(),
            out@ == render_u64_spec(idx.scores@.len() as u64) + render_entries_spec(
                m.take(i as int),
            ),
        decreases idx.scores@.len() - i,
    {
        push_str_wire(&mut out, &idx.scores[i].0);
        push_u64(&mut out, idx.scores[i].1.len() as u64);
        let ghost e = m[i as int];
        let ghost mid = out@;
        let mut j: usize = 0;
        proof {
            assert(e.1.take(0) =~= Seq::<(Seq<char>, u64)>::empty());
            assert(mid + render_postings_spec(e.1.take(0)) =~= mid);
        }
        while j < idx.scores[i].1.len()
            invariant
                m == index_model(idx.scores@),
                m.len() == idx.scores@.len(),
                i < idx.scores@.len(),
                e == m[i as int],
                e.1.len() == idx.scores@[i as int].1@.len(),
                j <= e.1.len(),
                out@ == mid + render_postings_spec(e.1.take(j as int)),
            decreases e.1.len() - j,
        {
            let ghost p = e.1[j as int];
            push_str_wire(&mut out, &idx.scores[i].1[j].0);
            push_u64(&mut out, idx.scores[i].1[j].1);
            proof {
                assert(e.1.take(j + 1) =~= e.1.take(j as int).push(p));
                lemma_render_postings_push(e.1.take(j as int), p);
                assert(idx.scores@[i as int].1@[j as int].0@ == p.0);
                assert(idx.scores@[i as int].1@[j as int].1 == p.1);
                assert(out@ =~= mid + render_postings_spec(e.1.take(j + 1)));
            }
            j += 1;
        }
        proof {
            assert(e.1.take(e.1.len() as int) =~= e.1);
            assert(m.take(i + 1) =~= m.take(i as int).push(e));
            lemma_render_entries_push(m.take(i as int), e);
            assert(e.0 == idx.scores@[i as int].0@);
            assert(out@ =~= render_u64_spec(idx.scores@.len() as u64) + render_entries_spec(
                m.take(i + 1),
            ));
        }
        i += 1;
    }
    proof {
        assert(m.take(m.len() as int) =~= m);
        assert(out@ =~= render_index_spec(m));
    }
    out
}


/// The value of a digit character, executably; `None` for a non-digit.
fn digit_val_of(c: char) -> (r: Option<u64>)
    ensures
        match r {
            Some(d) => is_digit_char(c) && d == digit_val(c) && d < 10,
            None => !is_digit_char(c),
        },
{
    if c == '0' {
        Some(0)
    } else if c == '1' {
        Some(1)
    } else if c == '2' {
        Some(2)
    } else if c == '3' {
        Some(3)
    } else if c == '4' {
        Some(4)
    } else if c == '5' {
        Some(5)
    } else if c == '6' {
        Some(6)
    } else if c == '7' {
        Some(7)
    } else if c == '8' {
        Some(8)
    } else if c == '9' {
        Some(9)
    } else {
        None
    }
}

/// Parses a number starting at `pos`.
fn parse_u64_at(s: &Vec<char>, pos: usize) -> (r: Option<(u64, usize)>)
    requires
        pos <= s@.len(),
    ensures
        match r {
            Some(vp) => vp.1 <= s@.len() && parse_u64_spec(s@.skip(pos as int)) == Some(
                (vp.0, s@.skip(vp.1 as int)),
            ),
            None => parse_u64_spec(s@.skip(pos as int)) is None,
        },
{
    let mut p = pos;
    let mut acc: u64 = 0;
    loop
        invariant_except_break
            pos <= p <= s@.len(),
            parse_u64_rec(s@.skip(pos as int), 0) == parse_u64_rec(s@.skip(p as int), acc),
        decreases s@.len() - p,
    {
        if p == s.len() {
            proof {
                assert(s@.skip(p as int) =~= Seq::<char>::empty());
            }
            return None;
        }
        let c = s[p];
        proof {
            assert(s@.skip(p as int)[0] == c);
            assert(s@.skip(p as int).drop_first() =~= s@.skip(p + 1));
        }
        if c == ' ' {
            return Some((acc, p + 1));
        }
        match digit_val_of(c) {
            None => {
                return None;
            },
            Some(d) => {
                let wide: u128 = (acc as u128) * 10 + (d as u128);
                if wide > u64::MAX as u128 {
                    return None;
                }
                acc = wide as u64;
                p = p + 1;
            },
        }
    }
}

/// Parses a length-prefixed string starting at `pos`.
fn parse_str_at(s: &Vec<char>, pos: usize) -> (r: Option<(String, usize)>)
    requires
        pos <= s@.len(),
    ensures
        match r {
            Some(vp) => vp.1 <= s@.len() && parse_str_spec(s@.skip(pos as int)) == Some(
                (vp.0@, s@.skip(vp.1 as int)),
            ),
            None => parse_str_spec(s@.skip(pos as int)) is None,
        },
{
    match parse_u64_at(s, pos) {
        None => None,
        Some((len, p1)) => {
            if len > (s.len() - p1) as u64 {
                return None;
            }
            let lenu = len as usize;
            let mut cs: Vec<char> = Vec::new();
            let mut k: usize = 0;
            while k < lenu
                invariant
                    s@.len() <= usize::MAX,
                    p1 + lenu <= s@.len(),
                    k <= lenu,
                    cs@.len() == k,
                    forall|q: int| 0 <= q < k ==> cs@[q] == s@[p1 + q],
                decreases lenu - k,
            {
                cs.push(s[p1 + k]);
                k += 1;
            }
            let st = string_from_chars(&cs);
            proof {
                assert(cs@ =~= s@.skip(p1 as int).take(len as int));
                assert(s@.skip(p1 as int).skip(len as int) =~= s@.skip(p1 + lenu));
            }
            Some((st, p1 + lenu))
        },
    }
}

/// Parses a whole rendered index; fails unless the text is consumed
/// exactly.
pub fn parse_index(s: &Vec<char>) -> (r: Option<ScoredIndex>)
    ensures
        match r {
            Some(idx) => parse_index_spec(s@) == Some(index_model(idx.scores@)),
            None => parse_index_spec(s@) is None,
        },
{
    proof {
        assert(s@.skip(0) =~= s@);
    }
    let first = parse_u64_at(s, 0);
    match first {
        None => None,
        Some((cnt, p0)) => {
            let mut entries: Vec<(String, Vec<(String, u64)>)> = Vec::new();
            let mut p = p0;
            let mut k: u64 = 0;
            proof {
                assert(index_model(entries@) =~= Seq::<
                    (Seq<char>, Seq<(Seq<char>, u64)>),
                >::empty());
            }
            while k < cnt
                invariant
                    parse_u64_spec(s@) == Some((cnt, s@.skip(p0 as int))),
                    p0 <= s@.len(),
                    k <= cnt,
                    p <= s@.len(),
                    parse_entries_spec(s@.skip(p0 as int), cnt as nat) == (match parse_entries_spec(
                        s@.skip(p as int),
                        (cnt - k) as nat,
                    ) {
                        Some(er) => Some((index_model(entries@) + er.0, er.1)),
                        None => None::<
                            (Seq<(Seq<char>, Seq<(Seq<char>, u64)>)>, Seq<char>),
                        >,
                    }),
                decreases cnt - k,
            {
                let term = match parse_str_at(s, p) {
                    None => {
                        return None;
                    },
                    Some(tp) => tp,
                };
                let pcnt = match parse_u64_at(s, term.1) {
                    None => {
                        return None;
                    },
                    Some(cp) => cp,
                };
                let mut postings: Vec<(String, u64)> = Vec::new();
                let mut p2 = pcnt.1;
                let mut k2: u64 = 0;
                let ghost inner_start = pcnt.1 as int;
                proof {
                    assert(Seq::new(postings@.len(), |j: int| (postings@[j].0@, postings@[j].1))
                        =~= Seq::<(Seq<char>, u64)>::empty());
                }
                while k2 < pcnt.0
                    invariant
                        parse_u64_spec(s@) == Some((cnt, s@.skip(p0 as int))),
                        p0 <= s@.len(),
                        k < cnt,
                        p <= s@.len(),
                        parse_entries_spec(s@.skip(p0 as int), cnt as nat) == (match
                            parse_entries_spec(s@.skip(p as int), (cnt - k) as nat) {
                            Some(er) => Some((index_model(entries@) + er.0, er.1)),
                            None => None::<
                                (Seq<(Seq<char>, Seq<(Seq<char>, u64)>)>, Seq<char>),
                            >,
                        }),
                        parse_str_spec(s@.skip(p as int)) == Some(
                            (term.0@, s@.skip(term.1 as int)),
                        ),
                        term.1 <= s@.len(),
                        parse_u64_spec(s@.skip(term.1 as int)) == Some(
                            (pcnt.0, s@.skip(pcnt.1 as int)),
                        ),
                        pcnt.1 <= s@.len(),
                        inner_start == pcnt.1 as int,
                        k2 <= pcnt.0,
                        p2 <= s@.len(),
                        parse_postings_spec(s@.skip(inner_start), pcnt.0 as nat) == (match
                            parse_postings_spec(s@.skip(p2 as int), (pcnt.0 - k2) as nat) {
                            Some(pr) => Some(
                                (
                                    Seq::new(
                                        postings@.len(),
                                        |j: int| (postings@[j].0@, postings@[j].1),
                                    ) + pr.0,
                                    pr.1,
                                ),
                            ),
                            None => None::<(Seq<(Seq<char>, u64)>, Seq<char>)>,
                        }),
                    decreases pcnt.0 - k2,
                {
                    let url = match parse_str_at(s, p2) {
                        None => {
                            return None;
                        },
                        Some(up) => up,
                    };
                    let sc = match parse_u64_at(s, url.1) {
                        None => {
                            return None;
                        },
                        Some(sp) => sp,
                    };
                    let ghost postings_pre = postings@;
                    postings.push((url.0, sc.0));
                    p2 = sc.1;
                    k2 = k2 + 1;
                    proof {
                        let model_pre = Seq::new(
                            postings_pre.len(),
                            |j: int| (postings_pre[j].0@, postings_pre[j].1),
                        );
                        let model_now = Seq::new(
                            postings@.len(),
                            |j: int| (postings@[j].0@, postings@[j].1),
                        );
                        assert(model_now =~= model_pre.push(
                            (postings@.last().0@, postings@.last().1),
                        ));
                        assert forall|a: Seq<(Seq<char>, u64)>| true implies model_pre.push(
                            (postings@.last().0@, postings@.last().1),
                        ) + a =~= model_pre + (seq![(postings@.last().0@, postings@.last().1)]
                            + a) by {}
                    }
                }
                if k2 != pcnt.0 {
                    return None;
                }
                proof {
                    assert(parse_postings_spec(s@.skip(p2 as int), 0) == Some(
                        (Seq::<(Seq<char>, u64)>::empty(), s@.skip(p2 as int)),
                    ));
                    assert(Seq::new(postings@.len(), |j: int| (postings@[j].0@, postings@[j].1))
                        + Seq::<(Seq<char>, u64)>::empty() =~= Seq::new(
                        postings@.len(),
                        |j: int| (postings@[j].0@, postings@[j].1),
                    ));
                }
                let ghost entries_pre = entries@;
                entries.push((term.0, postings));
                p = p2;
                k = k + 1;
                proof {
                    let e_new = (
                        entries@.last().0@,
                        Seq::new(
                            entries@.last().1@.len(),
                            |j: int| (entries@.last().1@[j].0@, entries@.last().1@[j].1),
                        ),
                    );
                    assert(index_model(entries@) =~= index_model(entries_pre).push(e_new));
                    assert forall|a: Seq<(Seq<char>, Seq<(Seq<char>, u64)>)>| true implies
                        index_model(entries_pre).push(e_new) + a =~= index_model(entries_pre) + (
                    seq![e_new] + a) by {}
                }
            }
            if p != s.len() {
                proof {
                    assert(s@.skip(p as int).len() != 0);
                }
                return None;
            }
            proof {
                assert(parse_entries_spec(s@.skip(p as int), 0) == Some(
                    (Seq::<(Seq<char>, Seq<(Seq<char>, u64)>)>::empty(), s@.skip(p as int)),
                ));
                assert(index_model(entries@) + Seq::<
                    (Seq<char>, Seq<(Seq<char>, u64)>),
                >::empty() =~= index_model(entries@));
                assert(s@.skip(p as int).len() == 0);
            }
            Some(ScoredIndex { scores: entries })
        },
    }
}

} // verus!
