//! Values of any kind in JSON text, which are passed over.

use vstd::prelude::*;
use crate::locations::{JsonError, LocParseError};
use crate::locations::json::{behind_string, expected, last_bytes, lemma_next_token_bound, lemma_number_len_bound, lemma_quote_at_bound, next_token, num_string, number_len, pass_string, quote_at, read_token, reports, tail, Expect, Failure, Token};

verus! {

/// What values are put together in.
#[derive(Debug, Clone, Copy, PartialEq, Eq, Structural)]
pub enum Kind {
    Array,
    Object,
}

impl Kind {
    /// What ends it.
    pub open spec fn end(self) -> Token {
        match self {
            Kind::Array => Token::RSquare,
            Kind::Object => Token::RCurly,
        }
    }
}

/// How many bytes are still to be read from the token `t` on, where `s` follows it.
pub open spec fn weight(t: Token, s: Seq<u8>) -> nat {
    if t == Token::DigitOrMinus {
        s.len()
    } else {
        s.len() + 1
    }
}

/// What follows the value that starts with the token `t` before `s`; or why it is none.
pub open spec fn value(t: Token, s: Seq<u8>) -> Result<Seq<u8>, Failure>
    decreases weight(t, s), 0nat,
{
    match t {
        Token::Null => Ok(s),
        Token::True => Ok(s),
        Token::False => Ok(s),
        Token::DigitOrMinus => match number_len(s) {
            Some(n) => Ok(s.skip(n as int)),
            None => Err(Failure::Num),
        },
        Token::Quote => behind_string(s),
        Token::LSquare => elements(Kind::Array, s),
        Token::LCurly => elements(Kind::Object, s),
        _ => Err(Failure::Expect(Expect::Value)),
    }
}

/// What follows the array or object whose opening bracket is before `s`.
pub open spec fn elements(kind: Kind, s: Seq<u8>) -> Result<Seq<u8>, Failure>
    decreases s.len(), 3nat,
{
    proof {
        lemma_next_token_bound(s);
    }
    match next_token(s) {
        None => Err(Failure::Expect(Expect::ValueOrEnd)),
        Some((t, s1)) => if t == kind.end() {
            Ok(s1)
        } else {
            elements_from(kind, t, s1)
        },
    }
}

/// What follows an array or object, of which an element starts with the token `t` before `s`.
pub open spec fn elements_from(kind: Kind, t: Token, s: Seq<u8>) -> Result<Seq<u8>, Failure>
    decreases weight(t, s), 2nat,
{
    match element(kind, t, s) {
        Err(f) => Err(f),
        Ok(s1) => if s1.len() < weight(t, s) {
            after_element(kind, s1)
        } else {
            Ok(s1)
        },
    }
}

/// What follows the element that starts with the token `t` before `s`: a value, in an object
/// behind a string and a colon.
pub open spec fn element(kind: Kind, t: Token, s: Seq<u8>) -> Result<Seq<u8>, Failure>
    decreases weight(t, s), 1nat,
{
    proof {
        lemma_key_bound(s);
    }
    if kind == Kind::Array {
        value(t, s)
    } else {
        match key(t, s) {
            Err(f) => Err(f),
            Ok((t1, s1)) => value(t1, s1),
        }
    }
}

/// The token that the value of a member starts with, whose key starts with the token `t` before
/// `s`, and what follows it.
pub open spec fn key(t: Token, s: Seq<u8>) -> Result<(Token, Seq<u8>), Failure> {
    if t != Token::Quote {
        Err(Failure::Expect(Expect::String))
    } else {
        match behind_string(s) {
            Err(f) => Err(f),
            Ok(s1) => match next_token(s1) {
                Some((Token::Colon, s2)) => match next_token(s2) {
                    Some(first) => Ok(first),
                    None => Err(Failure::Expect(Expect::Value)),
                },
                _ => Err(Failure::Expect(Expect::Colon)),
            },
        }
    }
}

/// What follows an array or object, of which `s` follows an element.
pub open spec fn after_element(kind: Kind, s: Seq<u8>) -> Result<Seq<u8>, Failure>
    decreases s.len(), 0nat,
{
    proof {
        lemma_next_token_bound(s);
        if let Some((_, s1)) = next_token(s) {
            lemma_next_token_bound(s1);
        }
    }
    match next_token(s) {
        None => Err(Failure::Expect(Expect::CommaOrEnd)),
        Some((t, s1)) => if t == kind.end() {
            Ok(s1)
        } else if t != Token::Comma {
            Err(Failure::Expect(Expect::CommaOrEnd))
        } else {
            match next_token(s1) {
                None => Err(Failure::Expect(Expect::Value)),
                Some((t2, s2)) => elements_from(kind, t2, s2),
            }
        },
    }
}

/// Whether `rest` is the end of `s`.
pub open spec fn is_end(rest: Seq<u8>, s: Seq<u8>) -> bool {
    rest.len() <= s.len() && rest == last_bytes(s, rest.len())
}

pub proof fn lemma_end_of_end(a: Seq<u8>, b: Seq<u8>, c: Seq<u8>)
    requires
        is_end(a, b),
        is_end(b, c),
    ensures
        is_end(a, c),
{
    assert(last_bytes(last_bytes(c, b.len()), a.len()) =~= last_bytes(c, a.len()));
}

pub proof fn lemma_behind_string_bound(s: Seq<u8>)
    ensures
        behind_string(s) matches Ok(s1) ==> s1.len() < s.len() && is_end(s1, s),
{
    lemma_quote_at_bound(s, false);
    if let Some(n) = quote_at(s, false) {
        assert(s.skip(n as int) =~= last_bytes(s, (s.len() - n) as nat));
    }
}

pub proof fn lemma_key_bound(s: Seq<u8>)
    ensures
        key(Token::Quote, s) matches Ok((t1, s1)) ==> weight(t1, s1) < s.len() && is_end(s1, s),
{
    lemma_behind_string_bound(s);
    if let Ok(s1) = behind_string(s) {
        lemma_next_token_bound(s1);
        if let Some((_, s2)) = next_token(s1) {
            lemma_next_token_bound(s2);
            lemma_end_of_end(s2, s1, s);
            if let Some((_, s3)) = next_token(s2) {
                lemma_end_of_end(s3, s2, s);
            }
        }
    }
}

/// What follows a value is the end of the text that the value was read from.
pub proof fn lemma_value_bound(t: Token, s: Seq<u8>)
    ensures
        value(t, s) matches Ok(r) ==> r.len() < weight(t, s) && is_end(r, s),
    decreases weight(t, s), 0nat,
{
    match t {
        Token::DigitOrMinus => {
            lemma_number_len_bound(s);
            if let Some(n) = number_len(s) {
                assert(s.skip(n as int) =~= last_bytes(s, (s.len() - n) as nat));
            }
        },
        Token::Quote => lemma_behind_string_bound(s),
        Token::LSquare => lemma_elements_bound(Kind::Array, s),
        Token::LCurly => lemma_elements_bound(Kind::Object, s),
        _ => {
            assert(last_bytes(s, s.len()) =~= s);
        },
    }
}

pub proof fn lemma_elements_bound(kind: Kind, s: Seq<u8>)
    ensures
        elements(kind, s) matches Ok(r) ==> r.len() < s.len() && is_end(r, s),
    decreases s.len(), 3nat,
{
    lemma_next_token_bound(s);
    if let Some((t, s1)) = next_token(s) {
        if t != kind.end() {
            lemma_elements_from_bound(kind, t, s1);
            if let Ok(r) = elements_from(kind, t, s1) {
                lemma_end_of_end(r, s1, s);
            }
        }
    }
}

pub proof fn lemma_elements_from_bound(kind: Kind, t: Token, s: Seq<u8>)
    ensures
        elements_from(kind, t, s) matches Ok(r) ==> r.len() < weight(t, s) && is_end(r, s),
    decreases weight(t, s), 2nat,
{
    lemma_element_bound(kind, t, s);
    if let Ok(s1) = element(kind, t, s) {
        lemma_after_element_bound(kind, s1);
        if let Ok(r) = after_element(kind, s1) {
            lemma_end_of_end(r, s1, s);
        }
    }
}

pub proof fn lemma_element_bound(kind: Kind, t: Token, s: Seq<u8>)
    ensures
        element(kind, t, s) matches Ok(r) ==> r.len() < weight(t, s) && is_end(r, s),
    decreases weight(t, s), 1nat,
{
    if kind == Kind::Array {
        lemma_value_bound(t, s);
    } else {
        lemma_key_bound(s);
        if let Ok((t1, s1)) = key(t, s) {
            lemma_value_bound(t1, s1);
            if let Ok(r) = value(t1, s1) {
                lemma_end_of_end(r, s1, s);
            }
        }
    }
}

pub proof fn lemma_after_element_bound(kind: Kind, s: Seq<u8>)
    ensures
        after_element(kind, s) matches Ok(r) ==> r.len() < s.len() && is_end(r, s),
    decreases s.len(), 0nat,
{
    lemma_next_token_bound(s);
    if let Some((t, s1)) = next_token(s) {
        lemma_next_token_bound(s1);
        if t == Token::Comma && t != kind.end() {
            if let Some((t2, s2)) = next_token(s1) {
                lemma_elements_from_bound(kind, t2, s2);
                if let Ok(r) = elements_from(kind, t2, s2) {
                    lemma_end_of_end(s2, s1, s);
                    lemma_end_of_end(r, s2, s);
                }
            }
        }
    }
}

/// What follows all that is open: `s` follows an element of the last of `open`, unless a failure
/// came before.
spec fn unwound(open: Seq<Kind>, r: Result<Seq<u8>, Failure>) -> Result<Seq<u8>, Failure>
    decreases open.len(),
{
    match r {
        Err(f) => Err(f),
        Ok(s) => if open.len() == 0 {
            Ok(s)
        } else {
            unwound(open.drop_last(), after_element(open.last(), s))
        },
    }
}

proof fn lemma_unwound_element(open: Seq<Kind>, t: Token, s: Seq<u8>)
    requires
        open.len() > 0,
    ensures
        unwound(open.drop_last(), elements_from(open.last(), t, s)) == unwound(
            open,
            element(open.last(), t, s),
        ),
        element(open.last(), t, s) is Err ==> unwound(
            open.drop_last(),
            elements_from(open.last(), t, s),
        ) == element(open.last(), t, s),
{
    lemma_element_bound(open.last(), t, s);
}

/// Whether `r`, the number of bytes left of `s` or a failure, is what `v` says.
pub open spec fn leaves(r: Result<usize, LocParseError>, s: Seq<u8>, v: Result<Seq<u8>, Failure>) -> bool {
    match (r, v) {
        (Ok(left), Ok(rest)) => left <= s.len() && rest == last_bytes(s, left as nat),
        (Err(e), Err(f)) => reports(e, f),
        _ => false,
    }
}

pub(crate) proof fn lemma_last_bytes_again(s: Seq<u8>, a: nat, b: nat)
    requires
        b <= a <= s.len(),
    ensures
        last_bytes(last_bytes(s, a), b) == last_bytes(s, b),
        last_bytes(s, a).len() == a,
{
    assert(last_bytes(last_bytes(s, a), b) =~= last_bytes(s, b));
}

/// Reads the token that comes next where `left` bytes are left.
fn token_from(input: &[u8], left: usize) -> (r: Option<(Token, usize)>)
    requires
        left <= input@.len(),
    ensures
        match next_token(last_bytes(input@, left as nat)) {
            Some((token, rest)) => r matches Some((t, l)) && t == token && rest == last_bytes(
                input@,
                l as nat,
            ) && l <= left && (t != Token::DigitOrMinus ==> l < left),
            None => r is None,
        },
{
    let r = read_token(tail(input, left));
    proof {
        if let Some((_, l)) = r {
            lemma_last_bytes_again(input@, left as nat, l as nat);
        }
    }
    r
}

/// Reads what comes before the value of an element that starts with the token `t`, where `left`
/// bytes are left, and gives the token that the value starts with.
fn open_element(kind: Kind, t: Token, input: &[u8], left: usize) -> (r: Result<
    (Token, usize),
    LocParseError,
>)
    requires
        left <= input@.len(),
    ensures
        match r {
            Ok((t1, l)) => {
                &&& l <= left
                &&& weight(t1, last_bytes(input@, l as nat)) <= weight(
                    t,
                    last_bytes(input@, left as nat),
                )
                &&& element(kind, t, last_bytes(input@, left as nat)) == value(
                    t1,
                    last_bytes(input@, l as nat),
                )
            },
            Err(e) => element(kind, t, last_bytes(input@, left as nat)) matches Err(f) && reports(
                e,
                f,
            ),
        },
{
    if kind == Kind::Array {
        return Ok((t, left));
    }
    if t != Token::Quote {
        return Err(expected(Expect::String));
    }
    let ghost s = last_bytes(input@, left as nat);
    let s1: usize = match pass_string(tail(input, left)) {
        Ok(s1) => s1,
        Err(e) => {
            return Err(e);
        },
    };
    proof {
        lemma_last_bytes_again(input@, left as nat, s1 as nat);
    }
    let s2: usize = match token_from(input, s1) {
        Some((Token::Colon, s2)) => s2,
        _ => {
            return Err(expected(Expect::Colon));
        },
    };
    match token_from(input, s2) {
        Some((t1, s3)) => Ok((t1, s3)),
        None => Err(expected(Expect::Value)),
    }
}

/// What follows all that is open, where a value starts with the token `next` before `s`, or `s`
/// follows a value.
spec fn standing(open: Seq<Kind>, next: Option<Token>, s: Seq<u8>) -> Result<Seq<u8>, Failure> {
    match next {
        Some(t) => unwound(open, value(t, s)),
        None => unwound(open, Ok(s)),
    }
}

/// How much there is to do at most.
spec fn work(next: Option<Token>, s: Seq<u8>) -> nat {
    match next {
        Some(t) => 2 * weight(t, s),
        None => 2 * s.len() + 1,
    }
}

/// Goes on behind an element of the last of `open`.
fn go_on(open: &mut Vec<Kind>, input: &[u8], left: usize) -> (r: Result<
    (Option<Token>, usize),
    LocParseError,
>)
    requires
        left <= input@.len(),
        old(open)@.len() > 0,
    ensures
        match r {
            Ok((next, l)) => {
                &&& l <= left
                &&& standing(final(open)@, next, last_bytes(input@, l as nat)) == unwound(
                    old(open)@,
                    Ok(last_bytes(input@, left as nat)),
                )
                &&& work(next, last_bytes(input@, l as nat)) < 2 * left + 1
            },
            Err(e) => unwound(old(open)@, Ok(last_bytes(input@, left as nat))) matches Err(f)
                && reports(e, f),
        },
{
    proof {
        reveal_with_fuel(unwound, 2);
        lemma_last_bytes_again(input@, left as nat, left as nat);
    }
    let kind = open[open.len() - 1];
    let (t, s1) = match token_from(input, left) {
        Some(token) => token,
        None => {
            return Err(expected(Expect::CommaOrEnd));
        },
    };
    if (kind == Kind::Array && t == Token::RSquare) || (kind == Kind::Object && t
        == Token::RCurly) {
        open.pop();
        return Ok((None, s1));
    }
    if t != Token::Comma {
        return Err(expected(Expect::CommaOrEnd));
    }
    let (t2, s2) = match token_from(input, s1) {
        Some(token) => token,
        None => {
            return Err(expected(Expect::Value));
        },
    };
    proof {
        lemma_unwound_element(open@, t2, last_bytes(input@, s2 as nat));
    }
    match open_element(kind, t2, input, s2) {
        Ok((t3, s3)) => Ok((Some(t3), s3)),
        Err(e) => Err(e),
    }
}

/// Goes into an array or object.
fn go_in(open: &mut Vec<Kind>, kind: Kind, input: &[u8], left: usize) -> (r: Result<
    (Option<Token>, usize),
    LocParseError,
>)
    requires
        left <= input@.len(),
    ensures
        match r {
            Ok((next, l)) => {
                &&& l <= left
                &&& standing(final(open)@, next, last_bytes(input@, l as nat)) == unwound(
                    old(open)@,
                    elements(kind, last_bytes(input@, left as nat)),
                )
                &&& work(next, last_bytes(input@, l as nat)) < 2 * left + 2
            },
            Err(e) => elements(kind, last_bytes(input@, left as nat)) matches Err(f) && reports(
                e,
                f,
            ),
        },
{
    let (t1, s1) = match token_from(input, left) {
        Some(token) => token,
        None => {
            return Err(expected(Expect::ValueOrEnd));
        },
    };
    if (kind == Kind::Array && t1 == Token::RSquare) || (kind == Kind::Object && t1
        == Token::RCurly) {
        return Ok((None, s1));
    }
    proof {
        assert(open@.push(kind).drop_last() =~= open@);
        lemma_unwound_element(open@.push(kind), t1, last_bytes(input@, s1 as nat));
    }
    match open_element(kind, t1, input, s1) {
        Ok((t2, s2)) => {
            open.push(kind);
            Ok((Some(t2), s2))
        },
        Err(e) => Err(e),
    }
}

/// Passes over a value that starts with the token `t` and is no array or object, where `left`
/// bytes are left.
fn pass_leaf(t: Token, input: &[u8], left: usize) -> (r: Result<usize, LocParseError>)
    requires
        left <= input@.len(),
        t != Token::LSquare,
        t != Token::LCurly,
    ensures
        leaves(r, input@, value(t, last_bytes(input@, left as nat))),
        r matches Ok(l) ==> l < weight(t, last_bytes(input@, left as nat)),
{
    let ghost s = last_bytes(input@, left as nat);
    proof {
        lemma_value_bound(t, s);
        lemma_number_len_bound(s);
    }
    match t {
        Token::Null => Ok(left),
        Token::True => Ok(left),
        Token::False => Ok(left),
        Token::DigitOrMinus => {
            if left == 0 {
                return Err(LocParseError::JsonError(JsonError::Num));
            }
            match num_string(tail(input, left)) {
                Some((_, l)) => {
                    proof {
                        assert(s.skip(s.len() - l) =~= last_bytes(input@, l as nat));
                    }
                    Ok(l)
                },
                None => Err(LocParseError::JsonError(JsonError::Num)),
            }
        },
        Token::Quote => match pass_string(tail(input, left)) {
            Ok(l) => {
                proof {
                    lemma_last_bytes_again(input@, left as nat, l as nat);
                }
                Ok(l)
            },
            Err(e) => Err(e),
        },
        _ => Err(expected(Expect::Value)),
    }
}

/// Passes over a value that starts with the token `t` before `input`, and gives how many bytes
/// are left behind it. However deep the value is nested, no more of the stack is used.
pub(crate) fn pass_value(t: Token, input: &[u8]) -> (r: Result<usize, LocParseError>)
    ensures
        leaves(r, input@, value(t, input@)),
{
    let ghost whole = value(t, input@);
    let mut open: Vec<Kind> = Vec::new();
    let mut next: Option<Token> = Some(t);
    let mut left: usize = input.len();
    proof {
        assert(last_bytes(input@, left as nat) =~= input@);
    }
    loop
        invariant
            left <= input@.len(),
            whole == value(t, input@),
            whole == standing(open@, next, last_bytes(input@, left as nat)),
        decreases work(next, last_bytes(input@, left as nat)),
    {
        let step = match next {
            None => {
                if open.len() == 0 {
                    return Ok(left);
                }
                go_on(&mut open, input, left)
            },
            Some(Token::LSquare) => go_in(&mut open, Kind::Array, input, left),
            Some(Token::LCurly) => go_in(&mut open, Kind::Object, input, left),
            Some(t) => match pass_leaf(t, input, left) {
                Ok(l) => Ok((None, l)),
                Err(e) => Err(e),
            },
        };
        match step {
            Ok((n, l)) => {
                next = n;
                left = l;
            },
            Err(e) => {
                return Err(e);
            },
        }
    }
}

} // verus!
