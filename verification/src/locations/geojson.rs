//! A place as GeoJSON text. Its name and its point are taken; all else is passed over.

use vstd::prelude::*;
use vstd::utf8::encode_utf8;
use crate::text::{is_float, same_text};
use crate::locations::LocParseError;
use crate::locations::json::{ascii_text, eat_whitespace, expected, last_bytes, law_number_is_float, lemma_blanks_bound, lemma_next_token_bound, lemma_number_len_bound, lemma_quote_at_bound, next_token, num_string, number_len, quote_at, read_string, read_token, reports, string_at, tail, without_blanks, Expect, Failure, Token};
use crate::locations::value::{is_end, lemma_end_of_end, lemma_last_bytes_again, pass_value, value, weight};

verus! {

/// A place: its name, and its latitude and longitude in degrees as written.
#[derive(Debug, PartialEq, Eq)]
pub struct Feature {
    pub name: String,
    pub lat: String,
    pub long: String,
}

/// What the model of a [`Feature`] holds.
pub struct FeatureText {
    pub name: Seq<char>,
    pub lat: Seq<char>,
    pub long: Seq<char>,
}

impl View for Feature {
    type V = FeatureText;

    open spec fn view(&self) -> FeatureText {
        FeatureText { name: self.name@, lat: self.lat@, long: self.long@ }
    }
}

/// What has been found so far of a place: its name, and its latitude and longitude.
pub struct Findings {
    pub name: Option<Seq<char>>,
    pub coords: Option<(Seq<char>, Seq<char>)>,
}

/// Where reading leads: to what has been found then, and to the text that follows or a failure.
pub struct Outcome {
    pub found: Findings,
    pub end: Result<Seq<u8>, Failure>,
}

/// The nesting of the text that matters.
#[derive(Debug, Clone, Copy, PartialEq, Eq, Structural)]
pub enum Level {
    /// The members of a place.
    Feature,
    /// The members of its `properties`.
    Properties,
    /// The members of its `geometry`.
    Geometry,
}

impl Level {
    /// How much nesting is left below.
    pub open spec fn height(self) -> nat {
        if self == Level::Feature {
            1
        } else {
            0
        }
    }
}

pub open spec fn stopped(found: Findings, f: Failure) -> Outcome {
    Outcome { found, end: Err(f) }
}

pub open spec fn went_on(found: Findings, rest: Seq<u8>) -> Outcome {
    Outcome { found, end: Ok(rest) }
}

/// A member of an object.
pub struct Member {
    pub key: Seq<char>,
    /// The token that the value starts with.
    pub token: Token,
    /// The text behind that token.
    pub rest: Seq<u8>,
}

/// The member that starts with the token `t`, before `s`: a string, a colon, a value.
pub open spec fn member(t: Token, s: Seq<u8>) -> Result<Member, Failure> {
    if t != Token::Quote {
        Err(Failure::Expect(Expect::String))
    } else {
        match string_at(s) {
            Err(f) => Err(f),
            Ok((key, rest)) => match next_token(rest) {
                Some((Token::Colon, value)) => match next_token(value) {
                    Some((token, rest)) => Ok(Member { key, token, rest }),
                    None => Err(Failure::Expect(Expect::Value)),
                },
                _ => Err(Failure::Expect(Expect::Colon)),
            },
        }
    }
}

/// What passing over the value of a member leads to.
pub open spec fn passed_over(found: Findings, m: Member) -> Outcome {
    Outcome { found, end: value(m.token, m.rest) }
}

/// The number that follows any blanks in `s`, and what follows it.
pub open spec fn coordinate(s: Seq<u8>) -> Option<(Seq<char>, Seq<u8>)> {
    let t = without_blanks(s);
    match number_len(t) {
        Some(n) => Some((ascii_text(t.take(n as int)), t.skip(n as int))),
        None => None,
    }
}

/// What reading a point behind its opening bracket leads to: longitude, comma, latitude,
/// closing bracket.
pub open spec fn point(found: Findings, s: Seq<u8>) -> Outcome {
    match coordinate(s) {
        None => stopped(found, Failure::InvalidCoords),
        Some((long, s1)) => match next_token(s1) {
            Some((Token::Comma, s2)) => match coordinate(s2) {
                None => stopped(found, Failure::InvalidCoords),
                Some((lat, s3)) => match next_token(s3) {
                    Some((Token::RSquare, s4)) => went_on(
                        Findings { coords: Some((lat, long)), ..found },
                        s4,
                    ),
                    _ => stopped(found, Failure::Expect(Expect::CommaOrEnd)),
                },
            },
            _ => stopped(found, Failure::Expect(Expect::CommaOrEnd)),
        },
    }
}

/// The place that has been found. Without a name there is none; with a name it must have a point.
pub open spec fn place_found(found: Findings) -> Result<Option<FeatureText>, Failure> {
    match (found.name, found.coords) {
        (Some(name), Some((lat, long))) => Ok(Some(FeatureText { name, lat, long })),
        (Some(_), None) => Err(Failure::MissingProperty),
        (None, _) => Ok(None),
    }
}

/// What reading one member on `level` leads to, which starts with the token `t` before `s`.
pub open spec fn item(level: Level, found: Findings, t: Token, s: Seq<u8>) -> Outcome
    decreases s.len(), 3 * level.height(),
{
    proof {
        lemma_member_bound(t, s);
    }
    match member(t, s) {
        Err(f) => stopped(found, f),
        Ok(m) => if level == Level::Feature && m.key == "properties"@ {
            if m.token == Token::LCurly {
                sequence(Level::Properties, found, m.rest)
            } else {
                stopped(found, Failure::Expect(Expect::Value))
            }
        } else if level == Level::Feature && m.key == "geometry"@ {
            if m.token == Token::LCurly {
                sequence(Level::Geometry, found, m.rest)
            } else {
                stopped(found, Failure::Expect(Expect::Value))
            }
        } else if level == Level::Properties && m.key == "name"@ {
            if m.token == Token::Quote {
                match string_at(m.rest) {
                    Ok((name, rest)) => went_on(Findings { name: Some(name), ..found }, rest),
                    Err(f) => stopped(found, f),
                }
            } else {
                stopped(found, Failure::Expect(Expect::Value))
            }
        } else if level == Level::Geometry && m.key == "coordinates"@ {
            if m.token == Token::LSquare {
                point(found, m.rest)
            } else {
                stopped(found, Failure::Expect(Expect::Value))
            }
        } else {
            passed_over(found, m)
        },
    }
}

/// What reading the members on `level` leads to, of which the first starts with the token `t`
/// before `s`: members parted by commas, up to the closing bracket.
pub open spec fn items(level: Level, found: Findings, t: Token, s: Seq<u8>) -> Outcome
    decreases s.len(), 3 * level.height() + 1,
{
    let one = item(level, found, t, s);
    match one.end {
        Err(_) => one,
        Ok(s1) => match next_token(s1) {
            None => stopped(one.found, Failure::Expect(Expect::CommaOrEnd)),
            Some((end, s2)) => if end == Token::RCurly {
                went_on(one.found, s2)
            } else if end != Token::Comma {
                stopped(one.found, Failure::Expect(Expect::CommaOrEnd))
            } else {
                match next_token(s2) {
                    None => stopped(one.found, Failure::Expect(Expect::Value)),
                    Some((t3, s3)) => if s3.len() < s.len() {
                        items(level, one.found, t3, s3)
                    } else {
                        one
                    },
                }
            },
        },
    }
}

/// What reading `s` behind the opening bracket of `level` leads to.
pub open spec fn sequence(level: Level, found: Findings, s: Seq<u8>) -> Outcome
    decreases s.len(), 3 * level.height() + 2,
{
    proof {
        lemma_next_token_bound(s);
    }
    match next_token(s) {
        None => stopped(found, Failure::Expect(Expect::ValueOrEnd)),
        Some((t, s1)) => if t == Token::RCurly {
            went_on(found, s1)
        } else {
            items(level, found, t, s1)
        },
    }
}

/// What reading a place leads to, where `s` follows its opening bracket and nothing follows its
/// closing bracket in `s`: the place, if it has a name.
pub open spec fn feature_at(s: Seq<u8>) -> Result<Option<FeatureText>, Failure> {
    let nothing = Findings { name: None, coords: None };
    let whole = sequence(Level::Feature, nothing, s);
    match whole.end {
        Ok(rest) => if rest.len() == 0 {
            place_found(whole.found)
        } else {
            Err(Failure::Expect(Expect::CommaOrEnd))
        },
        Err(f) => Err(f),
    }
}

pub proof fn lemma_string_at_bound(s: Seq<u8>)
    ensures
        string_at(s) matches Ok((_, rest)) ==> rest.len() < s.len() && is_end(rest, s),
{
    lemma_quote_at_bound(s, false);
    if let Some(n) = quote_at(s, false) {
        assert(s.skip(n as int) =~= last_bytes(s, (s.len() - n) as nat));
    }
}

pub proof fn lemma_member_bound(t: Token, s: Seq<u8>)
    ensures
        member(t, s) matches Ok(m) ==> weight(m.token, m.rest) < s.len() && is_end(m.rest, s),
{
    lemma_string_at_bound(s);
    if let Ok((_, s1)) = string_at(s) {
        lemma_next_token_bound(s1);
        if let Some((_, s2)) = next_token(s1) {
            lemma_next_token_bound(s2);
            lemma_end_of_end(s2, s1, s);
            if let Some((_, s3)) = next_token(s2) {
                lemma_end_of_end(s3, s2, s);
            }
        }
    }
}

/// Whether `text` reads as a floating point number.
pub open spec fn reads_as_number(text: Seq<char>) -> bool {
    is_float(encode_utf8(text))
}

/// Whether the coordinates that have been found read as numbers.
pub open spec fn has_numbers(found: Findings) -> bool {
    found.coords matches Some((lat, long)) ==> reads_as_number(lat) && reads_as_number(long)
}

proof fn lemma_coordinate_is_number(s: Seq<u8>)
    ensures
        coordinate(s) matches Some((text, _)) ==> reads_as_number(text),
{
    let t = without_blanks(s);
    if number_len(t) is Some {
        law_number_is_float(t);
    }
}

proof fn lemma_item_numbers(level: Level, found: Findings, t: Token, s: Seq<u8>)
    requires
        has_numbers(found),
    ensures
        has_numbers(item(level, found, t, s).found),
    decreases s.len(), 3 * level.height(),
{
    lemma_member_bound(t, s);
    if let Ok(m) = member(t, s) {
        if level == Level::Feature && m.key == "properties"@ {
            lemma_sequence_numbers(Level::Properties, found, m.rest);
        } else if level == Level::Feature && m.key == "geometry"@ {
            lemma_sequence_numbers(Level::Geometry, found, m.rest);
        } else if level == Level::Geometry && m.key == "coordinates"@ {
            lemma_coordinate_is_number(m.rest);
            if let Some((_, s1)) = coordinate(m.rest) {
                if let Some((_, s2)) = next_token(s1) {
                    lemma_coordinate_is_number(s2);
                }
            }
        }
    }
}

proof fn lemma_items_numbers(level: Level, found: Findings, t: Token, s: Seq<u8>)
    requires
        has_numbers(found),
    ensures
        has_numbers(items(level, found, t, s).found),
    decreases s.len(), 3 * level.height() + 1,
{
    lemma_item_numbers(level, found, t, s);
    let one = item(level, found, t, s);
    if let Ok(s1) = one.end {
        if let Some((_, s2)) = next_token(s1) {
            if let Some((t3, s3)) = next_token(s2) {
                if s3.len() < s.len() {
                    lemma_items_numbers(level, one.found, t3, s3);
                }
            }
        }
    }
}

proof fn lemma_sequence_numbers(level: Level, found: Findings, s: Seq<u8>)
    requires
        has_numbers(found),
    ensures
        has_numbers(sequence(level, found, s).found),
    decreases s.len(), 3 * level.height() + 2,
{
    lemma_next_token_bound(s);
    if let Some((t, s1)) = next_token(s) {
        lemma_items_numbers(level, found, t, s1);
    }
}

/// The latitude and the longitude of a place that is read out of any text read as floating point
/// numbers.
pub proof fn law_coordinates_are_numbers(s: Seq<u8>)
    ensures
        feature_at(s) matches Ok(Some(f)) ==> reads_as_number(f.lat) && reads_as_number(f.long),
{
    lemma_sequence_numbers(Level::Feature, Findings { name: None, coords: None }, s);
}

/// What has been found so far.
struct Found {
    name: Option<String>,
    coords: Option<(String, String)>,
}

impl View for Found {
    type V = Findings;

    closed spec fn view(&self) -> Findings {
        Findings {
            name: match self.name {
                Some(name) => Some(name@),
                None => None,
            },
            coords: match self.coords {
                Some((lat, long)) => Some((lat@, long@)),
                None => None,
            },
        }
    }
}

/// Whether `r`, the number of bytes left of `s` or a failure, and `found` are what `o` says.
spec fn agrees(r: Result<usize, LocParseError>, s: Seq<u8>, found: Findings, o: Outcome) -> bool {
    match (r, o.end) {
        (Ok(left), Ok(rest)) => left <= s.len() && rest == last_bytes(s, left as nat) && found
            == o.found,
        (Err(e), Err(f)) => reports(e, f),
        _ => false,
    }
}

/// A member of an object: its key, the token that its value starts with, and how many bytes are
/// left behind that token.
struct MemberRead {
    key: String,
    token: Token,
    rest: usize,
}

fn read_member(t: Token, input: &[u8]) -> (r: Result<MemberRead, LocParseError>)
    ensures
        match member(t, input@) {
            Ok(m) => {
                &&& r matches Ok(n)
                &&& n.key@ == m.key
                &&& n.token == m.token
                &&& n.rest <= input@.len()
                &&& m.rest == last_bytes(input@, n.rest as nat)
            },
            Err(f) => r matches Err(e) && reports(e, f),
        },
{
    if t != Token::Quote {
        return Err(expected(Expect::String));
    }
    let (key, left) = match read_string(input) {
        Ok(r) => r,
        Err(e) => {
            return Err(e);
        },
    };
    let after_key = tail(input, left);
    let value: usize = match read_token(after_key) {
        Some((Token::Colon, value)) => value,
        _ => {
            return Err(expected(Expect::Colon));
        },
    };
    proof {
        lemma_last_bytes_again(input@, left as nat, value as nat);
    }
    let value_text = tail(input, value);
    match read_token(value_text) {
        Some((token, rest)) => {
            proof {
                lemma_last_bytes_again(input@, value as nat, rest as nat);
            }
            Ok(MemberRead { key, token, rest })
        },
        None => Err(expected(Expect::Value)),
    }
}

/// Reads a number after any blanks, and gives how many bytes are left behind it.
fn read_coordinate(input: &[u8]) -> (r: Option<(String, usize)>)
    ensures
        match coordinate(input@) {
            Some((text, rest)) => r matches Some((t, left)) && t@ == text && left <= input@.len()
                && rest == last_bytes(input@, left as nat),
            None => r is None,
        },
{
    proof {
        lemma_blanks_bound(input@);
        lemma_number_len_bound(without_blanks(input@));
    }
    let left: usize = eat_whitespace(input);
    if left == 0 {
        return None;
    }
    let number = tail(input, left);
    let r = num_string(number);
    proof {
        if let Some(n) = number_len(number@) {
            assert(number@.skip(n as int) =~= last_bytes(input@, (left - n) as nat));
        }
    }
    r
}

/// Reads a point behind its opening bracket.
fn read_point(input: &[u8], found: &mut Found) -> (r: Result<usize, LocParseError>)
    ensures
        agrees(r, input@, final(found)@, point(old(found)@, input@)),
{
    let (long, s1) = match read_coordinate(input) {
        Some(n) => n,
        None => {
            return Err(LocParseError::InvalidCoords);
        },
    };
    let s2: usize = match read_token(tail(input, s1)) {
        Some((Token::Comma, s2)) => s2,
        _ => {
            return Err(expected(Expect::CommaOrEnd));
        },
    };
    proof {
        lemma_last_bytes_again(input@, s1 as nat, s2 as nat);
    }
    let (lat, s3) = match read_coordinate(tail(input, s2)) {
        Some(n) => n,
        None => {
            return Err(LocParseError::InvalidCoords);
        },
    };
    proof {
        lemma_last_bytes_again(input@, s2 as nat, s3 as nat);
    }
    match read_token(tail(input, s3)) {
        Some((Token::RSquare, s4)) => {
            proof {
                lemma_last_bytes_again(input@, s3 as nat, s4 as nat);
            }
            found.coords = Some((lat, long));
            Ok(s4)
        },
        _ => Err(expected(Expect::CommaOrEnd)),
    }
}

/// Passes over the value of a member.
fn pass_over(input: &[u8], m: &MemberRead, found: &Found) -> (r: Result<usize, LocParseError>)
    requires
        m.rest <= input@.len(),
    ensures
        agrees(
            r,
            input@,
            found@,
            Outcome { found: found@, end: value(m.token, last_bytes(input@, m.rest as nat)) },
        ),
{
    let r = pass_value(m.token, tail(input, m.rest));
    proof {
        if let Ok(left) = r {
            lemma_last_bytes_again(input@, m.rest as nat, left as nat);
        }
    }
    r
}

proof fn lemma_agrees_whole(
    r: Result<usize, LocParseError>,
    s: Seq<u8>,
    a: nat,
    found: Findings,
    o: Outcome,
)
    requires
        a <= s.len(),
        agrees(r, last_bytes(s, a), found, o),
    ensures
        agrees(r, s, found, o),
        r matches Ok(left) ==> left <= a,
{
    if let Ok(left) = r {
        lemma_last_bytes_again(s, a, left as nat);
    }
}

/// Reads a level behind its opening bracket, where `left` bytes of `input` are left from there on.
fn read_level(level: Level, input: &[u8], left: usize, found: &mut Found) -> (r: Result<
    usize,
    LocParseError,
>)
    requires
        left <= input@.len(),
    ensures
        agrees(
            r,
            input@,
            final(found)@,
            sequence(level, old(found)@, last_bytes(input@, left as nat)),
        ),
    decreases input@.len(), 3 * level.height() + 3,
{
    let r = read_sequence(level, tail(input, left), found);
    proof {
        lemma_agrees_whole(
            r,
            input@,
            left as nat,
            found@,
            sequence(level, old(found)@, last_bytes(input@, left as nat)),
        );
    }
    r
}

/// Reads one member on `level`, which starts with the token `t` before `input`.
fn read_item(level: Level, t: Token, input: &[u8], found: &mut Found) -> (r: Result<
    usize,
    LocParseError,
>)
    ensures
        agrees(r, input@, final(found)@, item(level, old(found)@, t, input@)),
    decreases input@.len(), 3 * level.height() + 1,
{
    let m = match read_member(t, input) {
        Ok(m) => m,
        Err(e) => {
            return Err(e);
        },
    };
    let key = m.key.as_str();
    if level == Level::Feature && same_text(key, "properties") {
        if m.token != Token::LCurly {
            return Err(expected(Expect::Value));
        }
        read_level(Level::Properties, input, m.rest, found)
    } else if level == Level::Feature && same_text(key, "geometry") {
        if m.token != Token::LCurly {
            return Err(expected(Expect::Value));
        }
        read_level(Level::Geometry, input, m.rest, found)
    } else if level == Level::Properties && same_text(key, "name") {
        if m.token != Token::Quote {
            return Err(expected(Expect::Value));
        }
        match read_string(tail(input, m.rest)) {
            Ok((name, left)) => {
                proof {
                    lemma_last_bytes_again(input@, m.rest as nat, left as nat);
                }
                found.name = Some(name);
                Ok(left)
            },
            Err(e) => Err(e),
        }
    } else if level == Level::Geometry && same_text(key, "coordinates") {
        if m.token != Token::LSquare {
            return Err(expected(Expect::Value));
        }
        let r = read_point(tail(input, m.rest), found);
        proof {
            lemma_agrees_whole(
                r,
                input@,
                m.rest as nat,
                found@,
                point(old(found)@, last_bytes(input@, m.rest as nat)),
            );
        }
        r
    } else {
        pass_over(input, &m, found)
    }
}

/// Reads `input` behind the opening bracket of `level`.
fn read_sequence(level: Level, input: &[u8], found: &mut Found) -> (r: Result<
    usize,
    LocParseError,
>)
    ensures
        agrees(r, input@, final(found)@, sequence(level, old(found)@, input@)),
    decreases input@.len(), 3 * level.height() + 2,
{
    let (mut t, mut left) = match read_token(input) {
        Some((t, left)) => (t, left),
        None => {
            return Err(expected(Expect::ValueOrEnd));
        },
    };
    if t == Token::RCurly {
        return Ok(left);
    }
    let ghost whole = sequence(level, old(found)@, input@);
    loop
        invariant
            left <= input@.len(),
            whole == sequence(level, old(found)@, input@),
            whole == items(level, found@, t, last_bytes(input@, left as nat)),
        decreases left,
    {
        let ghost s = last_bytes(input@, left as nat);
        let ghost before = found@;
        let r = read_item(level, t, tail(input, left), found);
        proof {
            lemma_agrees_whole(r, input@, left as nat, found@, item(level, before, t, s));
        }
        let s1: usize = match r {
            Ok(s1) => s1,
            Err(e) => {
                return Err(e);
            },
        };
        let s2: usize = match read_token(tail(input, s1)) {
            Some((end, s2)) => {
                proof {
                    lemma_last_bytes_again(input@, s1 as nat, s2 as nat);
                }
                if end == Token::RCurly {
                    return Ok(s2);
                }
                if end != Token::Comma {
                    return Err(expected(Expect::CommaOrEnd));
                }
                s2
            },
            None => {
                return Err(expected(Expect::CommaOrEnd));
            },
        };
        match read_token(tail(input, s2)) {
            Some((next, s3)) => {
                proof {
                    lemma_last_bytes_again(input@, s2 as nat, s3 as nat);
                }
                t = next;
                left = s3;
            },
            None => {
                return Err(expected(Expect::Value));
            },
        }
    }
}

/// Reads a place behind its opening bracket, up to its closing bracket at the end of `input`.
pub fn read_feature(input: &[u8]) -> (r: Result<Option<Feature>, LocParseError>)
    ensures
        match feature_at(input@) {
            Ok(Some(f)) => r matches Ok(Some(place)) && place@ == f,
            Ok(None) => r == Ok::<Option<Feature>, LocParseError>(None),
            Err(f) => r matches Err(e) && reports(e, f),
        },
{
    let mut found = Found { name: None, coords: None };
    match read_sequence(Level::Feature, input, &mut found) {
        Ok(0) => {},
        Ok(_) => {
            return Err(expected(Expect::CommaOrEnd));
        },
        Err(e) => {
            return Err(e);
        },
    }
    match (found.name, found.coords) {
        (Some(name), Some((lat, long))) => Ok(Some(Feature { name, lat, long })),
        (Some(_), None) => Err(LocParseError::MissingProperty),
        (None, _) => Ok(None),
    }
}

} // verus!
