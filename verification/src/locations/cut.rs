//! Values read out of part of a text. What the grammar reads up to the end of what a text started
//! in does not depend on what follows.

use vstd::prelude::*;
use crate::locations::extent::{behind, end_at, in_string, is_last, lemma_past_element, lemma_past_string, lemma_past_token, within};
use crate::locations::json::{behind_string, blanks, is_blank, lemma_blanks_bound, lemma_next_token_bound, lemma_quote_at_bound, next_token, number_len, quote_at, starts_with, string_at, token_at, without_blanks, Failure, Token};
use crate::locations::source::{closes, Nest};
use crate::locations::value::{after_element, element, elements, elements_from, key, lemma_element_bound, lemma_key_bound, value, weight, Kind};
use crate::text::{digit_run, is_digit};

verus! {

/// Whether what `p` started in ends with its last byte.
pub open spec fn ends(nest: Nest, comma: bool, p: Seq<u8>) -> bool {
    end_at(nest, comma, p) == Some(p.len())
}

/// Whether reading led to the same, but for `m` behind it.
pub open spec fn same(a: Result<Seq<u8>, Failure>, b: Result<Seq<u8>, Failure>, m: Seq<u8>) -> bool {
    match (a, b) {
        (Ok(q), Ok(r)) => r == q + m,
        (Err(f), Err(g)) => f == g,
        _ => false,
    }
}

pub proof fn lemma_last_byte(nest: Nest, comma: bool, p: Seq<u8>)
    requires
        ends(nest, comma, p),
    ensures
        p.len() > 0,
        closes(p.last()) || p.last() == ',' as u8,
    decreases p.len(),
{
    reveal_with_fuel(end_at, 2);
    if p.len() > 1 {
        lemma_last_byte(nest.after(p[0]), comma, p.skip(1));
        assert(p.skip(1).last() == p.last());
    }
}

pub proof fn lemma_blanks_cut(p: Seq<u8>, m: Seq<u8>)
    requires
        blanks(p) < p.len(),
    ensures
        blanks(p + m) == blanks(p),
    decreases p.len(),
{
    assert((p + m)[0] == p[0]);
    if is_blank(p[0]) {
        assert((p + m).skip(1) =~= p.skip(1) + m);
        lemma_blanks_cut(p.skip(1), m);
    }
}

proof fn lemma_word_cut(b: Seq<u8>, m: Seq<u8>, word: Seq<u8>)
    requires
        b.len() > 0,
        closes(b.last()) || b.last() == ',' as u8,
        forall|i: int|
            0 <= i < word.len() ==> !closes(#[trigger] word[i]) && word[i] != ',' as u8,
    ensures
        starts_with(b + m, word) == starts_with(b, word),
{
    if b.len() >= word.len() {
        assert((b + m).take(word.len() as int) =~= b.take(word.len() as int));
    } else if starts_with(b + m, word) {
        assert((b + m).take(word.len() as int)[b.len() - 1] == b.last());
        assert(word[b.len() - 1] == b.last());
    }
}

/// A token is the same, whatever follows.
pub proof fn lemma_token_cut(k: nat, comma: bool, p: Seq<u8>, m: Seq<u8>)
    requires
        ends(within(k), comma, p),
    ensures
        next_token(p) is Some,
        ({
            let (t, q) = next_token(p)->0;
            &&& next_token(p + m) == Some((t, q + m))
            &&& is_last(t, k, comma) ==> q.len() == 0
            &&& !is_last(t, k, comma) ==> ends(behind(t, k), comma, q)
        }),
{
    lemma_past_token(k, comma, p);
    lemma_next_token_bound(p);
    lemma_blanks_bound(p);
    lemma_last_byte(within(k), comma, p);
    let b = without_blanks(p);
    assert(b.len() > 0);
    lemma_blanks_cut(p, m);
    assert(without_blanks(p + m) =~= b + m);
    assert(b.last() == p.last());
    lemma_word_cut(b, m, seq!['n' as u8, 'u' as u8, 'l' as u8, 'l' as u8]);
    lemma_word_cut(b, m, seq!['t' as u8, 'r' as u8, 'u' as u8, 'e' as u8]);
    lemma_word_cut(b, m, seq!['f' as u8, 'a' as u8, 'l' as u8, 's' as u8, 'e' as u8]);
    assert((b + m)[0] == b[0]);
    let len = token_at(b).1 as int;
    assert((b + m).skip(len) =~= b.skip(len) + m);
}

proof fn lemma_quote_cut(p: Seq<u8>, m: Seq<u8>, escaped: bool)
    requires
        quote_at(p, escaped) is Some,
    ensures
        quote_at(p + m, escaped) == quote_at(p, escaped),
    decreases p.len(),
{
    assert((p + m)[0] == p[0]);
    if escaped || p[0] != '"' as u8 {
        assert((p + m).skip(1) =~= p.skip(1) + m);
        lemma_quote_cut(p.skip(1), m, !escaped && p[0] == '\\' as u8);
    }
}

/// A string is the same, whatever follows.
pub proof fn lemma_string_cut(k: nat, comma: bool, p: Seq<u8>, m: Seq<u8>)
    requires
        ends(in_string(k), comma, p),
    ensures
        same(behind_string(p), behind_string(p + m), m),
        behind_string(p) matches Ok(q) ==> ends(within(k), comma, q),
        match (string_at(p), string_at(p + m)) {
            (Ok((a, q)), Ok((b, r))) => a == b && r == q + m && ends(within(k), comma, q),
            (Err(f), Err(g)) => f == g,
            _ => false,
        },
{
    lemma_past_string(k, comma, p, false);
    lemma_quote_at_bound(p, false);
    lemma_quote_cut(p, m, false);
    let n = quote_at(p, false)->0 as int;
    assert((p + m).take(n) =~= p.take(n));
    assert((p + m).skip(n) =~= p.skip(n) + m);
}

proof fn lemma_digits_cut(p: Seq<u8>, m: Seq<u8>, i: int)
    requires
        0 <= i < p.len(),
        !is_digit(p.last()),
    ensures
        digit_run((p + m).skip(i)) == digit_run(p.skip(i)),
        i + digit_run(p.skip(i)) < p.len(),
    decreases p.len() - i,
{
    let a = p.skip(i);
    let b = (p + m).skip(i);
    assert(b[0] == a[0] && a[0] == p[i]);
    if is_digit(p[i]) {
        assert(a.skip(1) =~= p.skip(i + 1));
        assert(b.skip(1) =~= (p + m).skip(i + 1));
        lemma_digits_cut(p, m, i + 1);
    }
}

/// A number is the same, whatever follows.
pub proof fn lemma_number_cut(k: nat, comma: bool, p: Seq<u8>, m: Seq<u8>)
    requires
        ends(within(k), comma, p),
    ensures
        number_len(p + m) == number_len(p),
        number_len(p) matches Some(n) ==> n < p.len() && (p + m).skip(n as int) == p.skip(n as int)
            + m,
{
    lemma_last_byte(within(k), comma, p);
    let s = p + m;
    assert forall|i: int| 0 <= i < p.len() implies #[trigger] s[i] == p[i] by {}
    let last = p[p.len() - 1];
    let sign: int = if p[0] == '-' as u8 {
        1
    } else {
        0
    };
    lemma_digits_cut(p, m, sign);
    let whole: int = if p[sign] == '0' as u8 {
        1
    } else {
        digit_run(p.skip(sign)) as int
    };
    let e = sign + whole;
    if p[e] == '.' as u8 {
        lemma_digits_cut(p, m, e + 1);
    }
    let q: int = if p[e] == '.' as u8 {
        e + 1 + digit_run(p.skip(e + 1))
    } else {
        e
    };
    if p[q] == 'e' as u8 || p[q] == 'E' as u8 {
        lemma_digits_cut(p, m, q + 1);
        if p[q + 1] == '+' as u8 || p[q + 1] == '-' as u8 {
            lemma_digits_cut(p, m, q + 2);
        }
    }
    if let Some(n) = number_len(p) {
        assert(s.skip(n as int) =~= p.skip(n as int) + m);
    }
}

/// Whether `t` starts no value, or what `p` started in ends with it, where `p` follows `t`.
pub open spec fn ends_behind(t: Token, k: nat, comma: bool, p: Seq<u8>) -> bool {
    t == Token::RSquare || t == Token::RCurly || t == Token::Comma || ends(
        behind(t, k),
        comma,
        p,
    )
}

/// A value is the same, whatever follows.
pub proof fn lemma_value_cut(t: Token, p: Seq<u8>, m: Seq<u8>, k: nat, comma: bool)
    requires
        ends_behind(t, k, comma, p),
    ensures
        same(value(t, p), value(t, p + m), m),
    decreases weight(t, p), 0nat,
{
    match t {
        Token::DigitOrMinus => lemma_number_cut(k, comma, p, m),
        Token::Quote => lemma_string_cut(k, comma, p, m),
        Token::LSquare => lemma_elements_cut(Kind::Array, p, m, k, comma),
        Token::LCurly => lemma_elements_cut(Kind::Object, p, m, k, comma),
        _ => {},
    }
}

pub proof fn lemma_elements_cut(kind: Kind, p: Seq<u8>, m: Seq<u8>, k: nat, comma: bool)
    requires
        ends(within(k + 1), comma, p),
    ensures
        same(elements(kind, p), elements(kind, p + m), m),
    decreases p.len(), 3nat,
{
    lemma_token_cut(k + 1, comma, p, m);
    lemma_next_token_bound(p);
    let (t, q) = next_token(p)->0;
    if t != kind.end() {
        lemma_elements_from_cut(kind, t, q, m, k, comma);
    }
}

pub proof fn lemma_elements_from_cut(kind: Kind, t: Token, p: Seq<u8>, m: Seq<u8>, k: nat, comma: bool)
    requires
        ends_behind(t, k + 1, comma, p),
    ensures
        same(elements_from(kind, t, p), elements_from(kind, t, p + m), m),
    decreases weight(t, p), 2nat,
{
    lemma_element_cut(kind, t, p, m, k + 1, comma);
    lemma_element_bound(kind, t, p);
    lemma_element_bound(kind, t, p + m);
    lemma_past_element(kind, t, p, k + 1, comma);
    if let Ok(q) = element(kind, t, p) {
        assert(ends(within(k + 1), comma, q));
        lemma_after_cut(kind, q, m, k, comma);
    }
}

pub proof fn lemma_key_cut(t: Token, p: Seq<u8>, m: Seq<u8>, k: nat, comma: bool)
    requires
        ends_behind(t, k, comma, p),
        k > 0,
    ensures
        match (key(t, p), key(t, p + m)) {
            (Ok((a, q)), Ok((b, r))) => a == b && r == q + m && ends(behind(a, k), comma, q),
            (Err(f), Err(g)) => f == g,
            _ => false,
        },
{
    if t == Token::Quote {
        lemma_string_cut(k, comma, p, m);
        if let Ok(q) = behind_string(p) {
            lemma_token_cut(k, comma, q, m);
            let (t2, q2) = next_token(q)->0;
            if t2 == Token::Colon {
                lemma_token_cut(k, comma, q2, m);
            }
        }
    }
}

pub proof fn lemma_element_cut(kind: Kind, t: Token, p: Seq<u8>, m: Seq<u8>, k: nat, comma: bool)
    requires
        ends_behind(t, k, comma, p),
        k > 0,
    ensures
        same(element(kind, t, p), element(kind, t, p + m), m),
    decreases weight(t, p), 1nat,
{
    if kind == Kind::Array {
        lemma_value_cut(t, p, m, k, comma);
    } else {
        lemma_key_cut(t, p, m, k, comma);
        lemma_key_bound(p);
        if let Ok((t1, q)) = key(t, p) {
            lemma_value_cut(t1, q, m, k, comma);
        }
    }
}

pub proof fn lemma_after_cut(kind: Kind, p: Seq<u8>, m: Seq<u8>, k: nat, comma: bool)
    requires
        ends(within(k + 1), comma, p),
    ensures
        same(after_element(kind, p), after_element(kind, p + m), m),
    decreases p.len(), 0nat,
{
    lemma_token_cut(k + 1, comma, p, m);
    lemma_next_token_bound(p);
    let (t, q) = next_token(p)->0;
    if t == Token::Comma && t != kind.end() {
        lemma_token_cut(k + 1, comma, q, m);
        lemma_next_token_bound(q);
        let (t2, q2) = next_token(q)->0;
        lemma_elements_from_cut(kind, t2, q2, m, k, comma);
    }
}

} // verus!
