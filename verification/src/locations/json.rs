//! The tokens, strings, numbers and values of JSON text, as the `hifijson` lexer reads them.

use vstd::prelude::*;
use vstd::utf8::{decode_utf8, encode_utf8, is_ascii_chars, is_ascii_chars_encode_utf8, valid_utf8};
use hifijson::num::LexWrite;
use hifijson::str::{Lex as LexStr, LexAlloc};
use hifijson::token::Lex;
use crate::locations::{JsonError, LocParseError};
use crate::text::{digit_run, is_decimal, is_digit, is_exponent, is_float, lemma_digit_run_bound, without_sign};

verus! {

/// What JSON text is made of. Of a string and of a number only the start is a token.
#[derive(Debug, Clone, Copy, PartialEq, Eq, Structural)]
pub enum Token {
    Null,
    True,
    False,
    Comma,
    Colon,
    LSquare,
    RSquare,
    LCurly,
    RCurly,
    Quote,
    DigitOrMinus,
    Error,
}

/// What was expected of JSON text and did not come.
#[derive(Debug, Clone, Copy, PartialEq, Eq, Structural)]
pub enum Expect {
    Value,
    ValueOrEnd,
    CommaOrEnd,
    String,
    Colon,
    Eof,
}

/// Whether `b` stands between tokens and means nothing.
pub open spec fn is_blank(b: u8) -> bool {
    b == ' ' as u8 || b == '\t' as u8 || b == '\r' as u8 || b == '\n' as u8
}

/// How many blanks `s` starts with.
pub open spec fn blanks(s: Seq<u8>) -> nat
    decreases s.len(),
{
    if s.len() > 0 && is_blank(s[0]) {
        1 + blanks(s.skip(1))
    } else {
        0
    }
}

/// `s` without the blanks it starts with.
pub open spec fn without_blanks(s: Seq<u8>) -> Seq<u8> {
    s.skip(blanks(s) as int)
}

/// Whether `s` starts with `word`.
pub open spec fn starts_with(s: Seq<u8>, word: Seq<u8>) -> bool {
    s.len() >= word.len() && s.take(word.len() as int) == word
}

/// The token that `s`, which does not start with a blank, starts with, and its length. The
/// start of a number has none.
pub open spec fn token_at(s: Seq<u8>) -> (Token, nat) {
    let c = s[0];
    if c == 'n' as u8 {
        if starts_with(s, seq!['n' as u8, 'u' as u8, 'l' as u8, 'l' as u8]) {
            (Token::Null, 4)
        } else {
            (Token::Error, 1)
        }
    } else if c == 't' as u8 {
        if starts_with(s, seq!['t' as u8, 'r' as u8, 'u' as u8, 'e' as u8]) {
            (Token::True, 4)
        } else {
            (Token::Error, 1)
        }
    } else if c == 'f' as u8 {
        if starts_with(s, seq!['f' as u8, 'a' as u8, 'l' as u8, 's' as u8, 'e' as u8]) {
            (Token::False, 5)
        } else {
            (Token::Error, 1)
        }
    } else if is_digit(c) || c == '-' as u8 {
        (Token::DigitOrMinus, 0)
    } else if c == '"' as u8 {
        (Token::Quote, 1)
    } else if c == '[' as u8 {
        (Token::LSquare, 1)
    } else if c == ']' as u8 {
        (Token::RSquare, 1)
    } else if c == '{' as u8 {
        (Token::LCurly, 1)
    } else if c == '}' as u8 {
        (Token::RCurly, 1)
    } else if c == ',' as u8 {
        (Token::Comma, 1)
    } else if c == ':' as u8 {
        (Token::Colon, 1)
    } else {
        (Token::Error, 1)
    }
}

/// The first token of `s` after any blanks, and what follows it; nothing at the end.
pub open spec fn next_token(s: Seq<u8>) -> Option<(Token, Seq<u8>)> {
    let t = without_blanks(s);
    if t.len() == 0 {
        None
    } else {
        Some((token_at(t).0, t.skip(token_at(t).1 as int)))
    }
}

/// How long the number is that `s` starts with: an optional `-`, `0` or digits that do not
/// start with it, an optional point with digits behind it, an optional exponent. There is none
/// if digits lack where they must stand.
pub open spec fn number_len(s: Seq<u8>) -> Option<nat> {
    let sign: nat = if s.len() > 0 && s[0] == '-' as u8 {
        1
    } else {
        0
    };
    let whole: nat = if s.len() > sign && s[sign as int] == '0' as u8 {
        1
    } else {
        digit_run(s.skip(sign as int))
    };
    let p = sign + whole;
    let has_point = p < s.len() && s[p as int] == '.' as u8;
    let part = digit_run(s.skip(p as int + 1));
    let q: nat = if has_point {
        p + 1 + part
    } else {
        p
    };
    let has_exponent = q < s.len() && (s[q as int] == 'e' as u8 || s[q as int] == 'E' as u8);
    let has_sign = q + 1 < s.len() && (s[q as int + 1] == '+' as u8 || s[q as int + 1]
        == '-' as u8);
    let e: nat = if has_sign {
        q + 2
    } else {
        q + 1
    };
    let power = digit_run(s.skip(e as int));
    if whole == 0 || (has_point && part == 0) || (has_exponent && power == 0) {
        None
    } else if has_exponent {
        Some(e + power)
    } else {
        Some(q)
    }
}

/// The text that the bytes of `s`, all of them ASCII, are.
pub open spec fn ascii_text(s: Seq<u8>) -> Seq<char> {
    s.map_values(|b: u8| b as char)
}

/// How many bytes at the start of `s` stand for themselves in a string.
pub open spec fn plain_run(s: Seq<u8>) -> nat
    decreases s.len(),
{
    if s.len() > 0 && s[0] != '"' as u8 && s[0] != '\\' as u8 && s[0] >= 0x20 {
        1 + plain_run(s.skip(1))
    } else {
        0
    }
}

/// Whether `s` starts with the rest of a string in which every byte stands for itself.
pub open spec fn is_plain_string(s: Seq<u8>) -> bool {
    plain_run(s) < s.len() && s[plain_run(s) as int] == '"' as u8
}

/// The bytes at the start of `s` that stand for themselves in a string.
pub open spec fn plain_text(s: Seq<u8>) -> Seq<u8> {
    s.take(plain_run(s) as int)
}

/// Why text is not what it should be.
pub enum Failure {
    /// Something else was expected.
    Expect(Expect),
    /// A string is none, for this reason.
    Str(Seq<char>),
    /// A number is none: a digit lacks.
    Num,
    /// A place has a name, but no point.
    MissingProperty,
    /// A number is expected as a coordinate.
    InvalidCoords,
}

/// Whether `e` reports `f`.
pub open spec fn reports(e: LocParseError, f: Failure) -> bool {
    match f {
        Failure::Expect(x) => e == LocParseError::JsonError(JsonError::Token(x)),
        Failure::Str(message) => e matches LocParseError::JsonError(JsonError::Str(m)) && m@
            == message,
        Failure::Num => e == LocParseError::JsonError(JsonError::Num),
        Failure::MissingProperty => e == LocParseError::MissingProperty,
        Failure::InvalidCoords => e == LocParseError::InvalidCoords,
    }
}

/// The text that the lexer reads out of `s`, the rest of a string behind its first quote, up to
/// its last; or the message of the failure.
pub uninterp spec fn json_string(s: Seq<u8>) -> Result<Seq<char>, Seq<char>>;

/// The message of the failure, if the lexer fails to pass over `s`, the rest of a string behind
/// its first quote, up to its last.
pub uninterp spec fn json_ignored(s: Seq<u8>) -> Option<Seq<char>>;

/// How many bytes of `s` there are up to the quote that ends a string, the quote counted with
/// them. One behind a backslash does not end it; `s` starts behind one if `escaped`.
pub open spec fn quote_at(s: Seq<u8>, escaped: bool) -> Option<nat>
    decreases s.len(),
{
    if s.len() == 0 {
        None
    } else if !escaped && s[0] == '"' as u8 {
        Some(1)
    } else {
        match quote_at(s.skip(1), !escaped && s[0] == '\\' as u8) {
            Some(n) => Some(n + 1),
            None => None,
        }
    }
}

/// Whether `b` stands for itself in a string.
pub open spec fn is_plain_byte(b: u8) -> bool {
    b != '"' as u8 && b != '\\' as u8 && b >= 0x20
}

/// Whether `text` can be written between quotes as it is.
pub open spec fn is_plain(text: Seq<char>) -> bool {
    forall|i: int| 0 <= i < encode_utf8(text).len() ==> is_plain_byte(#[trigger] encode_utf8(text)[i])
}

/// How a character is written in a string.
pub enum Glyph {
    /// As it is.
    Plain(char),
    /// By a backslash and a letter or sign.
    Short(char),
    /// By a backslash, `u` and four hexadecimal digits.
    Hex(char, Seq<char>),
    /// By two of these, as UTF-16 has it.
    Pair(char, Seq<char>, Seq<char>),
}

/// The number that a hexadecimal digit stands for.
pub open spec fn hex_of(c: char) -> int {
    if '0' <= c <= '9' {
        c as int - '0' as int
    } else if 'a' <= c <= 'f' {
        c as int - 'a' as int + 10
    } else {
        c as int - 'A' as int + 10
    }
}

/// Whether `h` is four hexadecimal digits of this value.
pub open spec fn is_hex(h: Seq<char>, value: int) -> bool {
    &&& h.len() == 4
    &&& forall|i: int|
        0 <= i < 4 ==> ('0' <= #[trigger] h[i] <= '9' || 'a' <= h[i] <= 'f' || 'A' <= h[i] <= 'F')
    &&& ((hex_of(h[0]) * 16 + hex_of(h[1])) * 16 + hex_of(h[2])) * 16 + hex_of(h[3]) == value
}

/// The letter or sign behind the backslash that a character is written by.
pub open spec fn short_letter(c: char) -> Option<char> {
    if c == '"' || c == '\\' || c == '/' {
        Some(c)
    } else if c as int == 8 {
        Some('b')
    } else if c as int == 9 {
        Some('t')
    } else if c as int == 10 {
        Some('n')
    } else if c as int == 12 {
        Some('f')
    } else if c as int == 13 {
        Some('r')
    } else {
        None
    }
}

impl Glyph {
    /// The character that is meant.
    pub open spec fn meant(self) -> char {
        match self {
            Glyph::Plain(c) => c,
            Glyph::Short(c) => c,
            Glyph::Hex(c, _) => c,
            Glyph::Pair(c, _, _) => c,
        }
    }

    /// Whether the character can be written so.
    pub open spec fn wf(self) -> bool {
        match self {
            Glyph::Plain(c) => is_plain(seq![c]),
            Glyph::Short(c) => short_letter(c) is Some,
            Glyph::Hex(c, h) => is_hex(h, c as int),
            Glyph::Pair(c, h, l) => {
                &&& c as int >= 0x1_0000
                &&& is_hex(h, 0xd800 + (c as int - 0x1_0000) / 0x400)
                &&& is_hex(l, 0xdc00 + (c as int - 0x1_0000) % 0x400)
            },
        }
    }

    /// How the character is written.
    pub open spec fn text(self) -> Seq<char> {
        match self {
            Glyph::Plain(c) => seq![c],
            Glyph::Short(c) => seq!['\\', short_letter(c)->0],
            Glyph::Hex(_, h) => seq!['\\', 'u'] + h,
            Glyph::Pair(_, h, l) => seq!['\\', 'u'] + h + seq!['\\', 'u'] + l,
        }
    }
}

/// The text that is meant.
pub open spec fn meant(gs: Seq<Glyph>) -> Seq<char> {
    gs.map_values(|g: Glyph| g.meant())
}

/// How the text is written.
pub open spec fn spelled(gs: Seq<Glyph>) -> Seq<char>
    decreases gs.len(),
{
    if gs.len() == 0 {
        Seq::empty()
    } else {
        gs[0].text() + spelled(gs.skip(1))
    }
}

/// Whether every character can be written so.
pub open spec fn all_glyphs(gs: Seq<Glyph>) -> bool {
    forall|i: int| 0 <= i < gs.len() ==> (#[trigger] gs[i]).wf()
}

/// Whether `s` is a string without its first quote that is written so.
pub open spec fn is_spelling(gs: Seq<Glyph>, s: Seq<u8>) -> bool {
    all_glyphs(gs) && s == encode_utf8(spelled(gs)) + seq!['"' as u8]
}

/// The text that the string `s`, without its first quote, is written for.
#[verifier::opaque]
pub open spec fn spelling(s: Seq<u8>) -> Option<Seq<char>> {
    if exists|gs: Seq<Glyph>| is_spelling(gs, s) {
        Some(meant(choose|gs: Seq<Glyph>| is_spelling(gs, s)))
    } else {
        None
    }
}

/// The text of the string `s`, without its first quote: the text that it is written for, if it is
/// written as strings are; else it is left to the lexer.
pub open spec fn string_text(s: Seq<u8>) -> Result<Seq<char>, Failure> {
    if is_plain_string(s) && valid_utf8(plain_text(s)) {
        Ok(decode_utf8(plain_text(s)))
    } else if spelling(s) is Some {
        Ok(spelling(s)->0)
    } else {
        match json_string(s) {
            Ok(text) => if is_plain_string(s) {
                Err(Failure::Str(Seq::empty()))
            } else {
                Ok(text)
            },
            Err(message) => Err(Failure::Str(message)),
        }
    }
}

/// The string whose rest, behind its first quote, `s` starts with, and what follows it; or why it
/// is none.
pub open spec fn string_at(s: Seq<u8>) -> Result<(Seq<char>, Seq<u8>), Failure> {
    match quote_at(s, false) {
        Some(n) => match string_text(s.take(n as int)) {
            Ok(text) => Ok((text, s.skip(n as int))),
            Err(f) => Err(f),
        },
        None => match json_string(s) {
            Ok(_) => Err(Failure::Str(Seq::empty())),
            Err(message) => Err(Failure::Str(message)),
        },
    }
}

/// What follows the string whose rest, behind its first quote, `s` starts with; or why it is
/// none.
pub open spec fn behind_string(s: Seq<u8>) -> Result<Seq<u8>, Failure> {
    match quote_at(s, false) {
        Some(n) => if is_plain_string(s.take(n as int)) || spelling(s.take(n as int)) is Some {
            Ok(s.skip(n as int))
        } else {
            match json_ignored(s.take(n as int)) {
                None => Ok(s.skip(n as int)),
                Some(message) => Err(Failure::Str(message)),
            }
        },
        None => match json_ignored(s) {
            None => Err(Failure::Str(Seq::empty())),
            Some(message) => Err(Failure::Str(message)),
        },
    }
}

/// The last `left` bytes of `s`.
pub open spec fn last_bytes(s: Seq<u8>, left: nat) -> Seq<u8> {
    if left <= s.len() {
        s.skip(s.len() - left)
    } else {
        s
    }
}

/// Passes over blanks, and gives how many bytes are left.
///
/// Calls `hifijson::token::Lex::eat_whitespace`. Trusted: it passes over exactly the blanks
/// at the start.
#[verifier::external_body]
pub(crate) fn eat_whitespace(input: &[u8]) -> (left: usize)
    ensures
        left == without_blanks(input@).len(),
{
    let mut lexer = hifijson::SliceLexer::new(input);
    lexer.eat_whitespace();
    lexer.as_slice().len()
}

/// Reads a token, and gives how many bytes are left behind it.
///
/// Calls `hifijson::token::Lex::ws_token`. Trusted: it passes over blanks and gives the token
/// of [`token_at`], or nothing at the end of the input.
#[verifier::external_body]
pub(crate) fn ws_token(input: &[u8]) -> (r: Option<(Token, usize)>)
    ensures
        match next_token(input@) {
            Some((token, rest)) => r matches Some((t, left)) && t == token && left == rest.len(),
            None => r is None,
        },
{
    let mut lexer = hifijson::SliceLexer::new(input);
    let token = match lexer.ws_token()? {
        hifijson::Token::Null => Token::Null,
        hifijson::Token::True => Token::True,
        hifijson::Token::False => Token::False,
        hifijson::Token::Comma => Token::Comma,
        hifijson::Token::Colon => Token::Colon,
        hifijson::Token::LSquare => Token::LSquare, hifijson::Token::RSquare => Token::RSquare,
        hifijson::Token::LCurly => Token::LCurly, hifijson::Token::RCurly => Token::RCurly,
        hifijson::Token::Quote => Token::Quote,
        hifijson::Token::DigitOrMinus => Token::DigitOrMinus,
        hifijson::Token::Error => Token::Error,
    };
    Some((token, lexer.as_slice().len()))
}

/// Reads a number, and gives its text and how many bytes are left behind it.
///
/// Calls `hifijson::num::LexWrite::num_string`, which must not be called at the end of the
/// input. Trusted: it gives the text of the number that [`number_len`] finds, and fails where
/// there is none.
#[verifier::external_body]
pub(crate) fn num_string(input: &[u8]) -> (r: Option<(String, usize)>)
    requires
        input@.len() > 0,
    ensures
        match number_len(input@) {
            Some(n) => r matches Some((text, left)) && text@ == ascii_text(input@.take(n as int))
                && left == input@.len() - n,
            None => r is None,
        },
{
    let mut lexer = hifijson::SliceLexer::new(input);
    let (text, _) = lexer.num_string().ok()?;
    Some((text.to_string(), lexer.as_slice().len()))
}

/// Reads the rest of a string behind its first quote, up to its last; or gives the message of
/// the failure.
///
/// Calls `hifijson::str::LexAlloc::str_string`. Trusted: what it gives depends on the input
/// alone; it fails where no quote ends the string; and a string in which every byte stands for
/// itself is the UTF-8 text up to the next quote, and a failure where that is not UTF-8. A string
/// in which characters are written as they are, by short escape sequences or by hexadecimal
/// digits is the text of these characters.
#[verifier::external_body]
fn str_string(input: &[u8]) -> (r: Result<String, String>)
    ensures
        match json_string(input@) {
            Ok(text) => r matches Ok(t) && t@ == text,
            Err(message) => r matches Err(m) && m@ == message,
        },
        quote_at(input@, false) is None ==> r is Err,
        is_plain_string(input@) ==> (r is Ok <==> valid_utf8(plain_text(input@))),
        is_plain_string(input@) ==> (r matches Ok(t) ==> t@ == decode_utf8(plain_text(input@))),
        spelling(input@) is Some ==> r is Ok,
        spelling(input@) is Some ==> (r matches Ok(t) ==> spelling(input@) == Some(t@)),
{
    let mut lexer = hifijson::SliceLexer::new(input);
    match lexer.str_string() {
        Ok(text) => Ok(text.into_owned()),
        Err(e) => Err(e.to_string()),
    }
}

/// Passes over the rest of a string behind its first quote, up to its last; or gives the message
/// of the failure.
///
/// Calls `hifijson::str::Lex::str_ignore`. Trusted: whether and how it fails depends on the input
/// alone; it fails where no quote ends the string, and does not where every byte up to the next
/// quote stands for itself, nor where characters are written as they are, by short escape
/// sequences or by hexadecimal digits.
#[verifier::external_body]
fn str_ignore(input: &[u8]) -> (r: Option<String>)
    ensures
        match json_ignored(input@) {
            Some(message) => r matches Some(m) && m@ == message,
            None => r is None,
        },
        quote_at(input@, false) is None ==> r is Some,
        is_plain_string(input@) ==> r is None,
        spelling(input@) is Some ==> r is None,
{
    let mut lexer = hifijson::SliceLexer::new(input);
    lexer.str_ignore().err().map(|e| e.to_string())
}

/// The last `left` bytes of `input`.
pub(crate) fn tail(input: &[u8], left: usize) -> (r: &[u8])
    requires
        left <= input@.len(),
    ensures
        r@ == last_bytes(input@, left as nat),
        r@.len() == left,
{
    vstd::slice::slice_subrange(input, input.len() - left, input.len())
}

pub(crate) fn expected(x: Expect) -> (e: LocParseError)
    ensures
        reports(e, Failure::Expect(x)),
{
    LocParseError::JsonError(JsonError::Token(x))
}

/// Reads the next token, and gives how many bytes are left behind it.
pub(crate) fn read_token(input: &[u8]) -> (r: Option<(Token, usize)>)
    ensures
        match next_token(input@) {
            Some((token, rest)) => r matches Some((t, left)) && t == token && rest == last_bytes(
                input@,
                left as nat,
            ) && left <= input@.len() && (t != Token::DigitOrMinus ==> left < input@.len()),
            None => r is None,
        },
{
    proof {
        lemma_next_token_bound(input@);
    }
    ws_token(input)
}

/// Finds the quote that ends a string.
fn find_quote(input: &[u8]) -> (r: Option<usize>)
    ensures
        match quote_at(input@, false) {
            Some(n) => r matches Some(m) && m == n && n <= input@.len(),
            None => r is None,
        },
{
    let mut escaped = false;
    let mut i: usize = 0;
    proof {
        assert(input@.skip(0) =~= input@);
        lemma_quote_at_bound(input@, false);
    }
    while i < input.len()
        invariant
            i <= input.len(),
            quote_at(input@, false) == (match quote_at(input@.skip(i as int), escaped) {
                Some(n) => Some((n + i) as nat),
                None => None,
            }),
        ensures
            i == input.len(),
        decreases input.len() - i,
    {
        proof {
            assert(input@.skip(i as int).skip(1) =~= input@.skip(i + 1));
        }
        if !escaped && input[i] == '"' as u8 {
            return Some(i + 1);
        }
        escaped = !escaped && input[i] == '\\' as u8;
        i = i + 1;
    }
    None
}

/// Reads the rest of a string behind its first quote, up to its last.
pub(crate) fn read_text(input: &[u8]) -> (r: Result<String, LocParseError>)
    ensures
        match string_text(input@) {
            Ok(text) => r matches Ok(t) && t@ == text,
            Err(f) => r matches Err(e) && reports(e, f),
        },
        match json_string(input@) {
            Ok(text) => r matches Ok(t) && t@ == text,
            Err(message) => r matches Err(e) && reports(e, Failure::Str(message)),
        },
{
    match str_string(input) {
        Ok(text) => Ok(text),
        Err(message) => Err(LocParseError::JsonError(JsonError::Str(message))),
    }
}

/// Reads a string behind its first quote, and gives how many bytes are left behind it.
pub(crate) fn read_string(input: &[u8]) -> (r: Result<(String, usize), LocParseError>)
    ensures
        match string_at(input@) {
            Ok((text, rest)) => r matches Ok((t, left)) && t@ == text && rest == last_bytes(
                input@,
                left as nat,
            ) && left < input@.len(),
            Err(f) => r matches Err(e) && reports(e, f),
        },
{
    proof {
        lemma_quote_at_bound(input@, false);
    }
    match find_quote(input) {
        Some(n) => {
            proof {
                assert(input@.subrange(0, n as int) =~= input@.take(n as int));
                assert(input@.skip(n as int) =~= last_bytes(input@, (input@.len() - n) as nat));
            }
            match read_text(vstd::slice::slice_subrange(input, 0, n)) {
                Ok(text) => Ok((text, input.len() - n)),
                Err(e) => Err(e),
            }
        },
        None => match str_string(input) {
            Ok(_) => Err(LocParseError::JsonError(JsonError::Str(String::new()))),
            Err(message) => Err(LocParseError::JsonError(JsonError::Str(message))),
        },
    }
}

/// Passes over a string behind its first quote, and gives how many bytes are left behind it.
pub(crate) fn pass_string(input: &[u8]) -> (r: Result<usize, LocParseError>)
    ensures
        match behind_string(input@) {
            Ok(rest) => r matches Ok(left) && rest == last_bytes(input@, left as nat) && left
                < input@.len(),
            Err(f) => r matches Err(e) && reports(e, f),
        },
{
    proof {
        lemma_quote_at_bound(input@, false);
    }
    match find_quote(input) {
        Some(n) => {
            proof {
                assert(input@.subrange(0, n as int) =~= input@.take(n as int));
            }
            match str_ignore(vstd::slice::slice_subrange(input, 0, n)) {
                None => Ok(input.len() - n),
                Some(message) => Err(LocParseError::JsonError(JsonError::Str(message))),
            }
        },
        None => match str_ignore(input) {
            None => Err(LocParseError::JsonError(JsonError::Str(String::new()))),
            Some(message) => Err(LocParseError::JsonError(JsonError::Str(message))),
        },
    }
}

pub(crate) proof fn lemma_quote_at_bound(s: Seq<u8>, escaped: bool)
    ensures
        quote_at(s, escaped) matches Some(n) ==> 0 < n <= s.len(),
    decreases s.len(),
{
    if s.len() > 0 {
        lemma_quote_at_bound(s.skip(1), !escaped && s[0] == '\\' as u8);
    }
}

pub(crate) proof fn lemma_blanks_bound(s: Seq<u8>)
    ensures
        blanks(s) <= s.len(),
        without_blanks(s) == last_bytes(s, without_blanks(s).len()),
    decreases s.len(),
{
    if s.len() > 0 && is_blank(s[0]) {
        lemma_blanks_bound(s.skip(1));
    }
}

/// What follows a token is the end of the text that the token was read from, and shorter than
/// it unless the token is the start of a number.
pub proof fn lemma_next_token_bound(s: Seq<u8>)
    ensures
        next_token(s) matches Some((token, rest)) ==> {
            &&& rest.len() <= s.len()
            &&& token != Token::DigitOrMinus ==> rest.len() < s.len()
            &&& rest == last_bytes(s, rest.len())
        },
{
    lemma_blanks_bound(s);
    if next_token(s) is Some {
        let t = without_blanks(s);
        let rest = (next_token(s)->0).1;
        assert(rest =~= last_bytes(s, rest.len()));
    }
}

proof fn lemma_digit_run_is(s: Seq<u8>, n: nat)
    requires
        n <= s.len(),
        forall|i: int| 0 <= i < n ==> is_digit(#[trigger] s[i]),
        n == s.len() || !is_digit(s[n as int]),
    ensures
        digit_run(s) == n,
    decreases n,
{
    if n > 0 {
        assert(is_digit(s[0]));
        lemma_digit_run_is(s.skip(1), (n - 1) as nat);
    }
}

/// Text of digits, a point with digits behind it where `end` is more than `whole`, and an
/// exponent where it goes on, is a decimal fraction.
proof fn lemma_decimal(t: Seq<u8>, whole: nat, end: nat)
    requires
        0 < whole <= end <= t.len(),
        forall|i: int| 0 <= i < whole ==> is_digit(#[trigger] t[i]),
        whole < end ==> t[whole as int] == '.' as u8,
        forall|i: int| whole < i < end ==> is_digit(#[trigger] t[i]),
        end == t.len() || is_exponent(t.skip(end as int)),
    ensures
        is_decimal(t),
{
    if end < t.len() {
        assert(t.skip(end as int)[0] == t[end as int]);
    }
    lemma_digit_run_is(t, whole);
    let u = t.skip(whole as int);
    if whole < end {
        let part = (end - whole - 1) as nat;
        assert forall|i: int| 0 <= i < part implies is_digit(#[trigger] u.skip(1)[i]) by {
            assert(u.skip(1)[i] == t[whole + 1 + i]);
        }
        if end < t.len() {
            assert(u.skip(1)[part as int] == t[end as int]);
        }
        lemma_digit_run_is(u.skip(1), part);
        assert(u.skip(1 + part as int) =~= t.skip(end as int));
    } else if end < t.len() {
        assert(u[0] == t[end as int]);
    }
}

/// Text of `e`, a sign where `start` is 2, and digits is an exponent.
proof fn lemma_exponent(t: Seq<u8>, start: nat)
    requires
        1 <= start <= 2,
        start < t.len(),
        t[0] == 'e' as u8 || t[0] == 'E' as u8,
        start == 2 ==> (t[1] == '+' as u8 || t[1] == '-' as u8),
        forall|i: int| start <= i < t.len() ==> is_digit(#[trigger] t[i]),
    ensures
        is_exponent(t),
{
    let v = without_sign(t.skip(1));
    assert(t.skip(1)[0] == t[1]);
    if start == 1 {
        assert(is_digit(t[1]));
    }
    assert(v =~= t.skip(start as int));
    assert forall|i: int| 0 <= i < v.len() implies is_digit(#[trigger] v[i]) by {
        assert(v[i] == t[start + i]);
    }
}

/// The parts of the number that `s` starts with: where its sign, its whole part, its fraction
/// and its exponent end.
pub open spec fn is_number(s: Seq<u8>, sign: int, p: int, q: int, n: int) -> bool {
    &&& 0 <= sign <= 1 && sign < p <= q <= n <= s.len()
    &&& sign == 1 ==> s[0] == '-' as u8
    &&& forall|i: int| sign <= i < p ==> is_digit(#[trigger] s[i])
    &&& s[sign] == '0' as u8 ==> p == sign + 1
    &&& p < q ==> s[p] == '.' as u8 && p + 1 < q
    &&& forall|i: int| p < i < q ==> is_digit(#[trigger] s[i])
    &&& q < n ==> {
        let e: int = if s[q + 1] == '+' as u8 || s[q + 1] == '-' as u8 {
            2
        } else {
            1
        };
        &&& s[q] == 'e' as u8 || s[q] == 'E' as u8
        &&& q + e < n
        &&& forall|i: int| q + e <= i < n ==> is_digit(#[trigger] s[i])
    }
}

proof fn lemma_digits_at(s: Seq<u8>, from: int)
    requires
        0 <= from <= s.len(),
    ensures
        from + digit_run(s.skip(from)) <= s.len(),
        forall|i: int| from <= i < from + digit_run(s.skip(from)) ==> is_digit(#[trigger] s[i]),
{
    let t = s.skip(from);
    lemma_digit_run_bound(t);
    assert forall|i: int| from <= i < from + digit_run(t) implies is_digit(#[trigger] s[i]) by {
        assert(s[i] == t[i - from]);
    }
}

pub(crate) proof fn lemma_number_parts(s: Seq<u8>) -> (r: (int, int, int))
    requires
        number_len(s) is Some,
    ensures
        is_number(s, r.0, r.1, r.2, number_len(s)->0 as int),
{
    let sign: int = if s.len() > 0 && s[0] == '-' as u8 {
        1
    } else {
        0
    };
    lemma_digits_at(s, sign);
    let whole: int = if s.len() > sign && s[sign] == '0' as u8 {
        1
    } else {
        digit_run(s.skip(sign)) as int
    };
    let p = sign + whole;
    let has_point = p < s.len() && s[p] == '.' as u8;
    if has_point {
        lemma_digits_at(s, p + 1);
    }
    let q: int = if has_point {
        p + 1 + digit_run(s.skip(p + 1))
    } else {
        p
    };
    if q < s.len() && (s[q] == 'e' as u8 || s[q] == 'E' as u8) {
        lemma_digits_at(s, q + 1);
        if q + 1 < s.len() {
            lemma_digits_at(s, q + 2);
        }
    }
    (sign, p, q)
}

/// A number is no longer than the text that starts with it.
pub(crate) proof fn lemma_number_len_bound(s: Seq<u8>)
    ensures
        number_len(s) matches Some(n) ==> 0 < n <= s.len(),
{
    if number_len(s) is Some {
        let parts = lemma_number_parts(s);
    }
}

/// Whether `b` can stand behind a value.
pub open spec fn ends_value(b: u8) -> bool {
    is_blank(b) || b == ',' as u8 || b == ']' as u8 || b == '}' as u8
}

/// Text that has the parts of a number, and goes on as it may behind a value, starts with that
/// number.
pub(crate) proof fn lemma_number_len_is(s: Seq<u8>, sign: int, p: int, q: int, n: int)
    requires
        is_number(s, sign, p, q, n),
        n < s.len() ==> ends_value(s[n]),
    ensures
        number_len(s) == Some(n as nat),
{
    assert(is_digit(s[sign]));
    lemma_digit_run_is_at(s, sign, p);
    if p < q {
        lemma_digit_run_is_at(s, p + 1, q);
    }
    if q < n {
        let e: int = if s[q + 1] == '+' as u8 || s[q + 1] == '-' as u8 {
            2
        } else {
            1
        };
        lemma_digit_run_is_at(s, q + e, n);
    }
}

proof fn lemma_digit_run_is_at(s: Seq<u8>, from: int, to: int)
    requires
        0 <= from <= to <= s.len(),
        forall|i: int| from <= i < to ==> is_digit(#[trigger] s[i]),
        to == s.len() || !is_digit(s[to]),
    ensures
        digit_run(s.skip(from)) == to - from,
{
    let t = s.skip(from);
    assert forall|i: int| 0 <= i < to - from implies is_digit(#[trigger] t[i]) by {
        assert(t[i] == s[from + i]);
    }
    lemma_digit_run_is(t, (to - from) as nat);
}

/// A number in JSON text is text that reads as a floating point number, and as many characters
/// as bytes.
pub proof fn law_number_is_float(s: Seq<u8>)
    requires
        number_len(s) is Some,
    ensures
        is_float(s.take(number_len(s)->0 as int)),
        encode_utf8(ascii_text(s.take(number_len(s)->0 as int))) == s.take(number_len(s)->0 as int),
{
    let n = number_len(s)->0 as int;
    let b = s.take(n);
    let (sign, p, q) = lemma_number_parts(s);
    let t = b.skip(sign);
    assert forall|i: int| 0 <= i < t.len() implies #[trigger] t[i] == s[sign + i] by {}
    if q < n {
        let e: nat = if s[q + 1] == '+' as u8 || s[q + 1] == '-' as u8 {
            2
        } else {
            1
        };
        let x = t.skip(q - sign);
        assert forall|i: int| 0 <= i < x.len() implies #[trigger] x[i] == s[q + i] by {}
        lemma_exponent(x, e);
    }
    lemma_decimal(t, (p - sign) as nat, (q - sign) as nat);
    assert(is_digit(s[sign]));
    assert(without_sign(b) =~= t);
    assert(is_ascii_chars(ascii_text(b)));
    is_ascii_chars_encode_utf8(ascii_text(b));
    assert(encode_utf8(ascii_text(b)) =~= b);
}

} // verus!
