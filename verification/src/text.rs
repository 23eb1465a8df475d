//! Text handling: turning a page's body text into terms.
//!
//! A term is a whitespace-delimited word, lowercased, with every
//! non-alphabetic character dropped, kept only when more than two characters
//! remain.

use vstd::prelude::*;

verus! {

broadcast use vstd::string::group_string_axioms;

/// Whether a character is alphabetic (the Unicode `Alphabetic` property).
pub uninterp spec fn char_alphabetic(c: char) -> bool;

/// Whether a character is whitespace (the Unicode `White_Space` property).
pub uninterp spec fn char_whitespace(c: char) -> bool;

/// The lowercase form of a character sequence, as `str::to_lowercase` maps it.
pub uninterp spec fn lower_of(s: Seq<char>) -> Seq<char>;

/// Relies on char::is_alphabetic: a pure property of the character.
pub assume_specification[ char::is_alphabetic ](c: char) -> (r: bool)
    ensures
        r == char_alphabetic(c),
;

/// Relies on char::is_whitespace: a pure property of the character.
pub assume_specification[ char::is_whitespace ](c: char) -> (r: bool)
    ensures
        r == char_whitespace(c),
;

/// Relies on str::to_lowercase: the result depends on the characters alone.
#[verifier::external_body]
pub(crate) fn lowercase(s: &str) -> (r: String)
    ensures
        r@ == lower_of(s@),
{
    s.to_lowercase()
}

/// Relies on String implementing FromIterator over characters: collecting
/// yields the string holding exactly the given characters.
#[verifier::external_body]
pub(crate) fn string_from_chars(v: &Vec<char>) -> (r: String)
    ensures
        r@ == v@,
{
    v.iter().collect()
}

/// Copies the characters of a string slice into a vector.
pub fn str_chars(s: &str) -> (v: Vec<char>)
    ensures
        v@ == s@,
{
    let mut v: Vec<char> = Vec::new();
    for c in it: s.chars()
        invariant
            v@ == it.seq().take(it.index() as int),
    {
        v.push(c);
    }
    proof {
        assert(v@ =~= s@);
    }
    v
}

/// The predicate selecting alphabetic characters.
pub open spec fn alpha_pred() -> spec_fn(char) -> bool {
    |c: char| char_alphabetic(c)
}

/// The cleaned form of one whitespace-delimited word: its lowercase form
/// with every non-alphabetic character dropped.
pub open spec fn clean_of(w: Seq<char>) -> Seq<char> {
    lower_of(w).filter(alpha_pred())
}

/// A cleaned word is kept as a term when more than two characters remain.
pub open spec fn keeps(w: Seq<char>) -> bool {
    clean_of(w).len() > 2
}

/// The terms of a text, by one left-to-right pass: `cur` is the word in
/// progress, `acc` the terms already finished. Whitespace ends the current
/// word, which is cleaned and kept if long enough.
pub open spec fn terms_rec(s: Seq<char>, cur: Seq<char>, acc: Seq<Seq<char>>) -> Seq<Seq<char>>
    decreases s.len(),
{
    if s.len() == 0 {
        if keeps(cur) {
            acc.push(clean_of(cur))
        } else {
            acc
        }
    } else if char_whitespace(s[0]) {
        terms_rec(
            s.drop_first(),
            Seq::empty(),
            if keeps(cur) {
                acc.push(clean_of(cur))
            } else {
                acc
            },
        )
    } else {
        terms_rec(s.drop_first(), cur.push(s[0]), acc)
    }
}

/// All terms of a text, in order of appearance (repeats included).
pub open spec fn terms_of(s: Seq<char>) -> Seq<Seq<char>> {
    terms_rec(s, Seq::empty(), Seq::empty())
}

/// Cleans one word: lowercases it and keeps only alphabetic characters.
fn clean_word(cur: &Vec<char>) -> (r: Vec<char>)
    ensures
        r@ == clean_of(cur@),
{
    let raw = string_from_chars(cur);
    let low = lowercase(raw.as_str());
    let lc = str_chars(low.as_str());
    let mut out: Vec<char> = Vec::new();
    let mut j: usize = 0;
    while j < lc.len()
        invariant
            lc@ == lower_of(cur@),
            j <= lc@.len(),
            out@ == lc@.take(j as int).filter(alpha_pred()),
        decreases lc@.len() - j,
    {
        let c = lc[j];
        proof {
            reveal_with_fuel(Seq::<_>::filter, 2);
            assert(lc@.take(j + 1).drop_last() =~= lc@.take(j as int));
            assert(lc@.take(j + 1).last() == c);
            if char_alphabetic(c) {
                assert(lc@.take(j + 1).filter(alpha_pred()) == lc@.take(j as int).filter(
                    alpha_pred(),
                ).push(c));
            } else {
                assert(lc@.take(j + 1).filter(alpha_pred()) == lc@.take(j as int).filter(
                    alpha_pred(),
                ));
            }
        }
        if c.is_alphabetic() {
            out.push(c);
        }
        j += 1;
    }
    proof {
        assert(lc@.take(lc@.len() as int) =~= lc@);
    }
    out
}

/// Splits a text into its terms: lowercase, alphabetic-only tokens of more
/// than two characters, in order of appearance.
pub fn tokenize(s: &str) -> (ts: Vec<String>)
    ensures
        ts.deep_view() == terms_of(s@),
{
    let chars = str_chars(s);
    let mut acc: Vec<String> = Vec::new();
    let mut cur: Vec<char> = Vec::new();
    let mut i: usize = 0;
    proof {
        assert(chars@.skip(0) =~= chars@);
        assert(acc.deep_view() =~= Seq::<Seq<char>>::empty());
        assert(cur@ =~= Seq::<char>::empty());
    }
    while i < chars.len()
        invariant
            chars@ == s@,
            i <= chars@.len(),
            terms_of(s@) == terms_rec(chars@.skip(i as int), cur@, acc.deep_view()),
        decreases chars@.len() - i,
    {
        let c = chars[i];
        let ghost pre = chars@.skip(i as int);
        proof {
            assert(pre[0] == c);
            assert(pre.drop_first() =~= chars@.skip(i + 1));
        }
        if c.is_whitespace() {
            let cleaned = clean_word(&cur);
            if cleaned.len() > 2 {
                let term = string_from_chars(&cleaned);
                let ghost dv = acc.deep_view();
                acc.push(term);
                proof {
                    assert(acc.deep_view() =~= dv.push(clean_of(cur@)));
                }
            }
            cur = Vec::new();
        } else {
            cur.push(c);
        }
        i += 1;
    }
    proof {
        assert(chars@.skip(i as int) =~= Seq::<char>::empty());
    }
    let cleaned = clean_word(&cur);
    if cleaned.len() > 2 {
        let term = string_from_chars(&cleaned);
        let ghost dv = acc.deep_view();
        acc.push(term);
        proof {
            assert(acc.deep_view() =~= dv.push(clean_of(cur@)));
        }
    }
    acc
}


/// The words of a text, split at whitespace, by one left-to-right pass.
pub open spec fn words_rec(s: Seq<char>, cur: Seq<char>, acc: Seq<Seq<char>>) -> Seq<Seq<char>>
    decreases s.len(),
{
    if s.len() == 0 {
        if cur.len() > 0 {
            acc.push(cur)
        } else {
            acc
        }
    } else if char_whitespace(s[0]) {
        words_rec(
            s.drop_first(),
            Seq::empty(),
            if cur.len() > 0 {
                acc.push(cur)
            } else {
                acc
            },
        )
    } else {
        words_rec(s.drop_first(), cur.push(s[0]), acc)
    }
}

/// The whitespace-separated words of a text.
pub open spec fn words_of(s: Seq<char>) -> Seq<Seq<char>> {
    words_rec(s, Seq::empty(), Seq::empty())
}

/// Splits a query into its terms: the whole text lowercased, then split at
/// whitespace. Unlike [`tokenize`], nothing is filtered or dropped.
pub fn query_terms(s: &str) -> (ts: Vec<String>)
    ensures
        ts.deep_view() == words_of(lower_of(s@)),
{
    let low = lowercase(s);
    let chars = str_chars(low.as_str());
    let mut acc: Vec<String> = Vec::new();
    let mut cur: Vec<char> = Vec::new();
    let mut i: usize = 0;
    proof {
        assert(chars@.skip(0) =~= chars@);
        assert(acc.deep_view() =~= Seq::<Seq<char>>::empty());
        assert(cur@ =~= Seq::<char>::empty());
    }
    while i < chars.len()
        invariant
            chars@ == lower_of(s@),
            i <= chars@.len(),
            words_of(lower_of(s@)) == words_rec(chars@.skip(i as int), cur@, acc.deep_view()),
        decreases chars@.len() - i,
    {
        let c = chars[i];
        let ghost pre = chars@.skip(i as int);
        proof {
            assert(pre[0] == c);
            assert(pre.drop_first() =~= chars@.skip(i + 1));
        }
        if c.is_whitespace() {
            if cur.len() > 0 {
                let w = string_from_chars(&cur);
                let ghost dv = acc.deep_view();
                acc.push(w);
                proof {
                    assert(acc.deep_view() =~= dv.push(cur@));
                }
            }
            cur = Vec::new();
        } else {
            cur.push(c);
        }
        i += 1;
    }
    proof {
        assert(chars@.skip(i as int) =~= Seq::<char>::empty());
    }
    if cur.len() > 0 {
        let w = string_from_chars(&cur);
        let ghost dv = acc.deep_view();
        acc.push(w);
        proof {
            assert(acc.deep_view() =~= dv.push(cur@));
        }
    }
    acc
}

} // verus!
