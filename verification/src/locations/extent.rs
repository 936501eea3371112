//! Where values end. Counting brackets outside strings finds the end of every value that the
//! grammar reads.

use vstd::prelude::*;
use crate::locations::json::{behind_string, blanks, is_blank, lemma_blanks_bound, lemma_next_token_bound, lemma_number_len_bound, lemma_number_parts, lemma_quote_at_bound, next_token, number_len, quote_at, token_at, without_blanks, Token};
use crate::locations::source::{Nest};
use crate::locations::value::{after_element, element, elements, elements_from, key, lemma_after_element_bound, lemma_behind_string_bound, lemma_element_bound, lemma_elements_bound, lemma_elements_from_bound, lemma_key_bound, lemma_value_bound, value, weight, Kind};

verus! {

/// How many bytes of `s` there are up to the one that ends what `s` started in, that one counted
/// with them.
#[verifier::opaque]
pub open spec fn end_at(nest: Nest, comma: bool, s: Seq<u8>) -> Option<nat>
    decreases s.len(),
{
    if s.len() == 0 {
        None
    } else if nest.is_ended_by(s[0], comma) {
        Some(1)
    } else {
        later(end_at(nest.after(s[0]), comma, s.skip(1)), 1)
    }
}

/// `o`, counted from `n` bytes before.
pub open spec fn later(o: Option<nat>, n: int) -> Option<nat> {
    match o {
        Some(m) => Some((m + n) as nat),
        None => None,
    }
}

/// `k` arrays and objects are open.
pub open spec fn within(k: nat) -> Nest {
    Nest { open: k, quoted: false, escaped: false }
}

/// A string within `k` arrays and objects is open.
pub open spec fn in_string(k: nat) -> Nest {
    Nest { open: k, quoted: true, escaped: false }
}

/// What is open behind the token `t`, where `k` arrays and objects are open before it.
pub open spec fn behind(t: Token, k: nat) -> Nest {
    match t {
        Token::LSquare => within(k + 1),
        Token::LCurly => within(k + 1),
        Token::RSquare => within((k - 1) as nat),
        Token::RCurly => within((k - 1) as nat),
        Token::Quote => in_string(k),
        _ => within(k),
    }
}

/// Whether the token `t` ends what a text started in, where `k` arrays and objects are open.
pub open spec fn is_last(t: Token, k: nat, comma: bool) -> bool {
    k == 0 && (t == Token::RSquare || t == Token::RCurly || (comma && t == Token::Comma))
}

pub proof fn lemma_later(o: Option<nat>, a: int, b: int)
    requires
        a >= 0,
        b >= 0,
    ensures
        later(later(o, a), b) == later(o, a + b),
        later(o, 0) == o,
{
}

/// Bytes that change nothing and end nothing are passed over.
pub proof fn lemma_past(nest: Nest, comma: bool, s: Seq<u8>, n: nat)
    requires
        n <= s.len(),
        forall|i: int|
            0 <= i < n ==> nest.after(#[trigger] s[i]) == nest && !nest.is_ended_by(s[i], comma),
    ensures
        end_at(nest, comma, s) == later(end_at(nest, comma, s.skip(n as int)), n as int),
    decreases n,
{
    reveal(end_at);
    if n == 0 {
        assert(s.skip(0) =~= s);
    } else {
        let t = s.skip(1);
        assert(nest.after(s[0]) == nest);
        assert forall|i: int| 0 <= i < n - 1 implies nest.after(#[trigger] t[i]) == nest
            && !nest.is_ended_by(t[i], comma) by {
            assert(t[i] == s[i + 1]);
        }
        lemma_past(nest, comma, t, (n - 1) as nat);
        assert(t.skip(n - 1) =~= s.skip(n as int));
    }
}

proof fn lemma_blanks_are_blank(s: Seq<u8>)
    ensures
        forall|i: int| 0 <= i < blanks(s) ==> is_blank(#[trigger] s[i]),
        blanks(s) < s.len() ==> !is_blank(s[blanks(s) as int]),
    decreases s.len(),
{
    lemma_blanks_bound(s);
    if s.len() > 0 && is_blank(s[0]) {
        let t = s.skip(1);
        lemma_blanks_bound(t);
        lemma_blanks_are_blank(t);
        assert forall|i: int| 0 <= i < blanks(s) implies is_blank(#[trigger] s[i]) by {
            if i > 0 {
                assert(s[i] == t[i - 1]);
            }
        }
        if blanks(s) < s.len() {
            assert(s[blanks(s) as int] == t[blanks(t) as int]);
        }
    }
}

/// Blanks are passed over.
pub proof fn lemma_past_blanks(k: nat, comma: bool, s: Seq<u8>)
    ensures
        end_at(within(k), comma, s) == later(
            end_at(within(k), comma, without_blanks(s)),
            blanks(s) as int,
        ),
        blanks(s) <= s.len(),
{
    lemma_blanks_bound(s);
    lemma_blanks_are_blank(s);
    lemma_past(within(k), comma, s, blanks(s));
}

/// A token either is the end, or is passed over.
pub proof fn lemma_past_token(k: nat, comma: bool, s: Seq<u8>)
    ensures
        match next_token(s) {
            Some((t, s1)) => end_at(within(k), comma, s) == (if is_last(t, k, comma) {
                Some((s.len() - s1.len()) as nat)
            } else {
                later(end_at(behind(t, k), comma, s1), s.len() - s1.len())
            }),
            None => end_at(within(k), comma, s) is None,
        },
{
    reveal(end_at);
    let n = blanks(s);
    let b = without_blanks(s);
    lemma_blanks_bound(s);
    lemma_blanks_are_blank(s);
    lemma_next_token_bound(s);
    lemma_past(within(k), comma, s, n);
    assert(s.skip(n as int) == b);
    if b.len() > 0 {
        let (t, len) = token_at(b);
        let s1 = b.skip(len as int);
        if t == Token::Null || t == Token::True || t == Token::False {
            assert forall|i: int| 0 <= i < len implies within(k).after(#[trigger] b[i]) == within(k)
                && !within(k).is_ended_by(b[i], comma) by {
                assert(b[i] == b.take(len as int)[i]);
            }
            lemma_past(within(k), comma, b, len);
        } else if t == Token::DigitOrMinus {
            assert(s1 =~= b);
        } else {
            assert(len == 1);
            assert(b[0] == b.skip(0)[0]);
        }
        lemma_later(end_at(behind(t, k), comma, s1), len as int, n as int);
    }
}

/// A string is passed over up to the quote that ends it.
pub proof fn lemma_past_string(k: nat, comma: bool, s: Seq<u8>, escaped: bool)
    ensures
        match quote_at(s, escaped) {
            Some(n) => end_at(Nest { open: k, quoted: true, escaped }, comma, s) == later(
                end_at(within(k), comma, s.skip(n as int)),
                n as int,
            ),
            None => end_at(Nest { open: k, quoted: true, escaped }, comma, s) is None,
        },
    decreases s.len(),
{
    reveal(end_at);
    if s.len() > 0 {
        let t = s.skip(1);
        let next = !escaped && s[0] == '\\' as u8;
        if escaped || s[0] != '"' as u8 {
            lemma_past_string(k, comma, t, next);
            if let Some(n) = quote_at(t, next) {
                lemma_quote_at_bound(t, next);
                assert(t.skip(n as int) =~= s.skip(n as int + 1));
            }
        }
    }
}

pub proof fn lemma_past_number(k: nat, comma: bool, s: Seq<u8>)
    requires
        number_len(s) is Some,
    ensures
        end_at(within(k), comma, s) == later(
            end_at(within(k), comma, s.skip(number_len(s)->0 as int)),
            number_len(s)->0 as int,
        ),
{
    let n = number_len(s)->0;
    lemma_number_len_bound(s);
    let (sign, p, q) = lemma_number_parts(s);
    assert forall|i: int| 0 <= i < n implies within(k).after(#[trigger] s[i]) == within(k)
        && !within(k).is_ended_by(s[i], comma) by {}
    lemma_past(within(k), comma, s, n);
}

/// A value is passed over.
pub proof fn lemma_past_value(t: Token, s: Seq<u8>, k: nat, comma: bool)
    ensures
        value(t, s) matches Ok(r) ==> end_at(behind(t, k), comma, s) == later(
            end_at(within(k), comma, r),
            s.len() - r.len(),
        ),
    decreases weight(t, s), 0nat,
{
    lemma_value_bound(t, s);
    lemma_quote_at_bound(s, false);
    match t {
        Token::DigitOrMinus => {
            lemma_number_len_bound(s);
            if number_len(s) is Some {
                lemma_past_number(k, comma, s);
            }
        },
        Token::Quote => lemma_past_string(k, comma, s, false),
        Token::LSquare => lemma_past_elements(Kind::Array, s, k, comma),
        Token::LCurly => lemma_past_elements(Kind::Object, s, k, comma),
        _ => {},
    }
}

pub proof fn lemma_past_elements(kind: Kind, s: Seq<u8>, k: nat, comma: bool)
    ensures
        elements(kind, s) matches Ok(r) ==> end_at(within(k + 1), comma, s) == later(
            end_at(within(k), comma, r),
            s.len() - r.len(),
        ),
    decreases s.len(), 3nat,
{
    lemma_next_token_bound(s);
    lemma_elements_bound(kind, s);
    lemma_past_token(k + 1, comma, s);
    if let Some((t, s1)) = next_token(s) {
        if t != kind.end() {
            lemma_past_elements_from(kind, t, s1, k, comma);
            lemma_elements_from_bound(kind, t, s1);
            if let Ok(r) = elements_from(kind, t, s1) {
                lemma_later(end_at(within(k), comma, r), s1.len() - r.len(), s.len() - s1.len());
            }
        }
    }
}

pub proof fn lemma_past_elements_from(kind: Kind, t: Token, s: Seq<u8>, k: nat, comma: bool)
    ensures
        elements_from(kind, t, s) matches Ok(r) ==> end_at(behind(t, k + 1), comma, s) == later(
            end_at(within(k), comma, r),
            s.len() - r.len(),
        ),
    decreases weight(t, s), 2nat,
{
    lemma_element_bound(kind, t, s);
    lemma_past_element(kind, t, s, k + 1, comma);
    if let Ok(s1) = element(kind, t, s) {
        lemma_past_after(kind, s1, k, comma);
        lemma_after_element_bound(kind, s1);
        if let Ok(r) = after_element(kind, s1) {
            lemma_later(end_at(within(k), comma, r), s1.len() - r.len(), s.len() - s1.len());
        }
    }
}

pub proof fn lemma_past_key(t: Token, s: Seq<u8>, k: nat, comma: bool)
    requires
        k > 0,
    ensures
        key(t, s) matches Ok((t1, s1)) ==> end_at(behind(t, k), comma, s) == later(
            end_at(behind(t1, k), comma, s1),
            s.len() - s1.len(),
        ) && s1.len() <= s.len(),
{
    lemma_behind_string_bound(s);
    lemma_quote_at_bound(s, false);
    lemma_past_string(k, comma, s, false);
    if let Ok(s1) = behind_string(s) {
        lemma_past_token(k, comma, s1);
        lemma_next_token_bound(s1);
        if let Some((_, s2)) = next_token(s1) {
            lemma_past_token(k, comma, s2);
            lemma_next_token_bound(s2);
            if let Some((t3, s3)) = next_token(s2) {
                let o = end_at(behind(t3, k), comma, s3);
                lemma_later(o, s2.len() - s3.len(), s1.len() - s2.len());
                lemma_later(o, s1.len() - s3.len(), s.len() - s1.len());
            }
        }
    }
}

pub proof fn lemma_past_element(kind: Kind, t: Token, s: Seq<u8>, k: nat, comma: bool)
    requires
        k > 0,
    ensures
        element(kind, t, s) matches Ok(r) ==> end_at(behind(t, k), comma, s) == later(
            end_at(within(k), comma, r),
            s.len() - r.len(),
        ),
    decreases weight(t, s), 1nat,
{
    if kind == Kind::Array {
        lemma_past_value(t, s, k, comma);
    } else {
        lemma_key_bound(s);
        lemma_past_key(t, s, k, comma);
        if let Ok((t1, s1)) = key(t, s) {
            lemma_past_value(t1, s1, k, comma);
            lemma_value_bound(t1, s1);
            if let Ok(r) = value(t1, s1) {
                lemma_later(end_at(within(k), comma, r), s1.len() - r.len(), s.len() - s1.len());
            }
        }
    }
}

pub proof fn lemma_past_after(kind: Kind, s: Seq<u8>, k: nat, comma: bool)
    ensures
        after_element(kind, s) matches Ok(r) ==> end_at(within(k + 1), comma, s) == later(
            end_at(within(k), comma, r),
            s.len() - r.len(),
        ),
    decreases s.len(), 0nat,
{
    lemma_next_token_bound(s);
    lemma_past_token(k + 1, comma, s);
    lemma_after_element_bound(kind, s);
    if let Some((t, s1)) = next_token(s) {
        lemma_next_token_bound(s1);
        lemma_past_token(k + 1, comma, s1);
        if t == Token::Comma && t != kind.end() {
            if let Some((t2, s2)) = next_token(s1) {
                lemma_past_elements_from(kind, t2, s2, k, comma);
                lemma_elements_from_bound(kind, t2, s2);
                if let Ok(r) = elements_from(kind, t2, s2) {
                    let o = end_at(within(k), comma, r);
                    lemma_later(o, s2.len() - r.len(), s1.len() - s2.len());
                    lemma_later(o, s1.len() - r.len(), s.len() - s1.len());
                }
            }
        }
    }
}

} // verus!
