//! The list of places as GeoJSON text, read byte by byte. No more of it is held at a time than one
//! place, or one member that is passed over.

use vstd::prelude::*;
use crate::locations::LocParseError;
use crate::locations::agree::law_reading_follows_the_grammar;
use crate::locations::geojson::{feature_at, law_coordinates_are_numbers, member, place_found, read_feature, reads_as_number, sequence, Feature, FeatureText, Findings, Level};
use crate::locations::json::{expected, is_blank, lemma_next_token_bound, next_token, read_string, read_text, read_token, reports, string_at, string_text, tail, Expect, Failure, Token};
use crate::locations::value::{pass_value, value};
use crate::text::{is_digit, piece, same_text};

verus! {

/// What reading a list of places leads to: the places before its end or the first failure, and
/// what follows it.
pub struct List {
    pub features: Seq<FeatureText>,
    pub end: Result<Seq<u8>, Failure>,
}

/// The place that starts with the token `t` before `s`, if it has a name, and what follows it.
pub open spec fn place_at(t: Token, s: Seq<u8>) -> Result<(Option<FeatureText>, Seq<u8>), Failure> {
    let whole = sequence(Level::Feature, Findings { name: None, coords: None }, s);
    if t != Token::LCurly {
        Err(Failure::Expect(Expect::Value))
    } else {
        match whole.end {
            Err(f) => Err(f),
            Ok(rest) => match place_found(whole.found) {
                Ok(f) => Ok((f, rest)),
                Err(f) => Err(f),
            },
        }
    }
}

/// `found`, and `f` behind it.
pub open spec fn with_place(found: Seq<FeatureText>, f: Option<FeatureText>) -> Seq<FeatureText> {
    match f {
        Some(f) => found.push(f),
        None => found,
    }
}

/// What reading the list whose opening bracket is before `s` leads to, after the places in
/// `found`.
pub open spec fn places(found: Seq<FeatureText>, s: Seq<u8>) -> List {
    match next_token(s) {
        None => List { features: found, end: Err(Failure::Expect(Expect::ValueOrEnd)) },
        Some((t, s1)) => if t == Token::RSquare {
            List { features: found, end: Ok(s1) }
        } else {
            places_from(found, t, s1)
        },
    }
}

/// What reading a list leads to, of which a place starts with the token `t` before `s`.
pub open spec fn places_from(found: Seq<FeatureText>, t: Token, s: Seq<u8>) -> List
    decreases s.len(), 1nat,
{
    match place_at(t, s) {
        Err(f) => List { features: found, end: Err(f) },
        Ok((f, s1)) => if s1.len() <= s.len() {
            after_place(with_place(found, f), s1)
        } else {
            List { features: found, end: Ok(s1) }
        },
    }
}

/// What reading a list leads to, of which `s` follows a place.
pub open spec fn after_place(found: Seq<FeatureText>, s: Seq<u8>) -> List
    decreases s.len(), 0nat,
{
    proof {
        lemma_next_token_bound(s);
        if let Some((_, s1)) = next_token(s) {
            lemma_next_token_bound(s1);
        }
    }
    match next_token(s) {
        None => List { features: found, end: Err(Failure::Expect(Expect::CommaOrEnd)) },
        Some((t, s1)) => if t == Token::RSquare {
            List { features: found, end: Ok(s1) }
        } else if t != Token::Comma {
            List { features: found, end: Err(Failure::Expect(Expect::CommaOrEnd)) }
        } else {
            match next_token(s1) {
                None => List { features: found, end: Err(Failure::Expect(Expect::Value)) },
                Some((t2, s2)) => places_from(found, t2, s2),
            }
        },
    }
}

/// What reading a member of the whole leads to, which starts with the token `t` before `s`: the
/// list of places under `features`; all else is passed over.
pub open spec fn member_at(found: Seq<FeatureText>, t: Token, s: Seq<u8>) -> List {
    match member(t, s) {
        Err(f) => List { features: found, end: Err(f) },
        Ok(m) => if m.key != "features"@ {
            List { features: found, end: value(m.token, m.rest) }
        } else if m.token != Token::LSquare {
            List { features: found, end: Err(Failure::Expect(Expect::Value)) }
        } else {
            places(found, m.rest)
        },
    }
}

/// What reading the members of the whole leads to, of which one starts with the token `t` before
/// `s`.
pub open spec fn members_from(found: Seq<FeatureText>, t: Token, s: Seq<u8>) -> List
    decreases s.len(), 1nat,
{
    let one = member_at(found, t, s);
    match one.end {
        Err(_) => one,
        Ok(s1) => if s1.len() <= s.len() {
            after_member(one.features, s1)
        } else {
            one
        },
    }
}

/// What reading the members of the whole leads to, where `s` follows one.
pub open spec fn after_member(found: Seq<FeatureText>, s: Seq<u8>) -> List
    decreases s.len(), 0nat,
{
    proof {
        lemma_next_token_bound(s);
        if let Some((_, s1)) = next_token(s) {
            lemma_next_token_bound(s1);
        }
    }
    match next_token(s) {
        None => List { features: found, end: Err(Failure::Expect(Expect::CommaOrEnd)) },
        Some((t, s1)) => if t == Token::RCurly {
            List { features: found, end: Ok(s1) }
        } else if t != Token::Comma {
            List { features: found, end: Err(Failure::Expect(Expect::CommaOrEnd)) }
        } else {
            match next_token(s1) {
                None => List { features: found, end: Err(Failure::Expect(Expect::Value)) },
                Some((t2, s2)) => members_from(found, t2, s2),
            }
        },
    }
}

/// What reading the members of the whole, whose opening bracket is before `s`, leads to.
pub open spec fn members(found: Seq<FeatureText>, s: Seq<u8>) -> List {
    match next_token(s) {
        None => List { features: found, end: Err(Failure::Expect(Expect::ValueOrEnd)) },
        Some((t, s1)) => if t == Token::RCurly {
            List { features: found, end: Ok(s1) }
        } else {
            members_from(found, t, s1)
        },
    }
}

/// What reading a whole text leads to: one object, and nothing behind it but blanks.
pub open spec fn document(s: Seq<u8>) -> Parsed {
    match next_token(s) {
        Some((Token::LCurly, s1)) => {
            let all = members(Seq::empty(), s1);
            Parsed {
                features: all.features,
                end: match all.end {
                    Ok(rest) => if next_token(rest) is None {
                        Ok(())
                    } else {
                        Err(Failure::Expect(Expect::Eof))
                    },
                    Err(f) => Err(f),
                },
            }
        },
        _ => Parsed { features: Seq::empty(), end: Err(Failure::Expect(Expect::Value)) },
    }
}

/// How far a text is from the end of what it started in.
pub struct Nest {
    /// How many arrays and objects are open.
    pub open: nat,
    /// Whether a string is open.
    pub quoted: bool,
    /// Whether a backslash in a string came last.
    pub escaped: bool,
}

/// Whether `b` opens an array or an object.
pub open spec fn opens(b: u8) -> bool {
    b == '[' as u8 || b == '{' as u8
}

/// Whether `b` closes an array or an object.
pub open spec fn closes(b: u8) -> bool {
    b == ']' as u8 || b == '}' as u8
}

impl Nest {
    /// What is open after `b`.
    pub open spec fn after(self, b: u8) -> Nest {
        if self.quoted {
            Nest {
                open: self.open,
                quoted: self.escaped || b != '"' as u8,
                escaped: !self.escaped && b == '\\' as u8,
            }
        } else if b == '"' as u8 {
            Nest { quoted: true, escaped: false, ..self }
        } else if opens(b) {
            Nest { open: self.open + 1, ..self }
        } else if closes(b) && self.open > 0 {
            Nest { open: (self.open - 1) as nat, ..self }
        } else {
            self
        }
    }

    /// Whether `b` closes what the text started in, or parts it from what follows, where a
    /// `comma` does so.
    pub open spec fn is_ended_by(self, b: u8, comma: bool) -> bool {
        self.open == 0 && !self.quoted && (closes(b) || (comma && b == ',' as u8))
    }
}

/// Nothing is open.
pub open spec fn outside() -> Nest {
    Nest { open: 0, quoted: false, escaped: false }
}

/// What is open, counted.
#[derive(Debug, Clone, Copy, PartialEq, Eq, Structural)]
struct Scan {
    open: usize,
    quoted: bool,
    escaped: bool,
}

impl View for Scan {
    type V = Nest;

    closed spec fn view(&self) -> Nest {
        Nest { open: self.open as nat, quoted: self.quoted, escaped: self.escaped }
    }
}

impl Scan {
    fn step(self, b: u8) -> (r: Scan)
        requires
            self.open < usize::MAX,
        ensures
            r@ == self@.after(b),
            r.open <= self.open + 1,
    {
        if self.quoted {
            Scan {
                open: self.open,
                quoted: self.escaped || b != '"' as u8,
                escaped: !self.escaped && b == '\\' as u8,
            }
        } else if b == '"' as u8 {
            Scan { open: self.open, quoted: true, escaped: false }
        } else if b == '[' as u8 || b == '{' as u8 {
            Scan { open: self.open + 1, quoted: false, escaped: self.escaped }
        } else if (b == ']' as u8 || b == '}' as u8) && self.open > 0 {
            Scan { open: self.open - 1, quoted: false, escaped: self.escaped }
        } else {
            self
        }
    }
}

/// Where the reading stands: what is next.
pub enum At {
    /// The opening bracket of the whole.
    Start,
    /// A member of it, or its end.
    FirstMember,
    /// A member of it.
    Member,
    /// More of a key, of which this has come; and whether a backslash came last.
    Key(Seq<u8>, bool),
    /// The colon behind a key; and whether the key is that of the list.
    Colon(bool),
    /// The opening bracket of the list.
    List,
    /// More of a value that is passed over, of which this has come.
    Skip(Seq<u8>, Nest),
    /// A place, or the end of the list.
    FirstPlace,
    /// A place.
    Place,
    /// More of a place, of which this has come behind its opening bracket.
    Body(Seq<u8>, Nest),
    /// A comma, or the end of the list.
    AfterPlace,
    /// A comma, or the end of the whole.
    AfterMember,
    /// Nothing but blanks.
    End,
}

/// What a byte leads to.
pub enum Turn {
    On(At),
    /// A place is whole.
    Found(FeatureText, At),
    Fail(Failure),
}

pub open spec fn expect(x: Expect) -> Turn {
    Turn::Fail(Failure::Expect(x))
}

/// What the byte `b` of a key leads to.
pub open spec fn key_next(text: Seq<u8>, escaped: bool, b: u8) -> Turn {
    if escaped || b != '"' as u8 {
        Turn::On(At::Key(text.push(b), !escaped && b == '\\' as u8))
    } else {
        match string_text(text.push(b)) {
            Ok(key) => Turn::On(At::Colon(key == "features"@)),
            Err(f) => Turn::Fail(f),
        }
    }
}

/// What a whole value that is passed over leads to, with the comma or bracket behind it.
pub open spec fn skipped(s: Seq<u8>) -> Turn {
    match next_token(s) {
        None => expect(Expect::Value),
        Some((t, s1)) => match value(t, s1) {
            Ok(rest) => match next_token(rest) {
                Some((end, rest)) => if end == Token::Comma && rest.len() == 0 {
                    Turn::On(At::Member)
                } else if end == Token::RCurly && rest.len() == 0 {
                    Turn::On(At::End)
                } else {
                    expect(Expect::CommaOrEnd)
                },
                None => expect(Expect::CommaOrEnd),
            },
            Err(f) => Turn::Fail(f),
        },
    }
}

/// What the byte `b` of a value that is passed over, or behind it, leads to.
pub open spec fn skip_next(text: Seq<u8>, nest: Nest, b: u8) -> Turn {
    if nest.is_ended_by(b, true) {
        skipped(text.push(b))
    } else {
        Turn::On(At::Skip(text.push(b), nest.after(b)))
    }
}

/// What the byte `b` of a place leads to.
pub open spec fn body_next(text: Seq<u8>, nest: Nest, b: u8) -> Turn {
    if !nest.is_ended_by(b, false) {
        Turn::On(At::Body(text.push(b), nest.after(b)))
    } else {
        match feature_at(text.push(b)) {
            Ok(Some(f)) => Turn::Found(f, At::AfterPlace),
            Ok(None) => Turn::On(At::AfterPlace),
            Err(f) => Turn::Fail(f),
        }
    }
}

/// What the byte `b`, which is no blank, leads to where a single one is next.
pub open spec fn mark_next(at: At, b: u8) -> Turn {
    match at {
        At::Start => if b == '{' as u8 {
            Turn::On(At::FirstMember)
        } else {
            expect(Expect::Value)
        },
        At::FirstMember => if b == '}' as u8 {
            Turn::On(At::End)
        } else if b == '"' as u8 {
            Turn::On(At::Key(Seq::empty(), false))
        } else {
            expect(Expect::String)
        },
        At::Member => if b == '"' as u8 {
            Turn::On(At::Key(Seq::empty(), false))
        } else {
            expect(Expect::String)
        },
        At::Colon(list) => if b != ':' as u8 {
            expect(Expect::Colon)
        } else if list {
            Turn::On(At::List)
        } else {
            Turn::On(At::Skip(Seq::empty(), outside()))
        },
        At::List => if b == '[' as u8 {
            Turn::On(At::FirstPlace)
        } else {
            expect(Expect::Value)
        },
        At::FirstPlace => if b == ']' as u8 {
            Turn::On(At::AfterMember)
        } else if b == '{' as u8 {
            Turn::On(At::Body(Seq::empty(), outside()))
        } else {
            expect(Expect::Value)
        },
        At::Place => if b == '{' as u8 {
            Turn::On(At::Body(Seq::empty(), outside()))
        } else {
            expect(Expect::Value)
        },
        At::AfterPlace => if b == ']' as u8 {
            Turn::On(At::AfterMember)
        } else if b == ',' as u8 {
            Turn::On(At::Place)
        } else {
            expect(Expect::CommaOrEnd)
        },
        At::AfterMember => if b == '}' as u8 {
            Turn::On(At::End)
        } else if b == ',' as u8 {
            Turn::On(At::Member)
        } else {
            expect(Expect::CommaOrEnd)
        },
        _ => expect(Expect::Eof),
    }
}

/// What the byte `b` leads to.
pub open spec fn next(at: At, b: u8) -> Turn {
    match at {
        At::Key(text, escaped) => key_next(text, escaped, b),
        At::Skip(text, nest) => skip_next(text, nest, b),
        At::Body(text, nest) => body_next(text, nest, b),
        _ => if is_blank(b) {
            Turn::On(at)
        } else {
            mark_next(at, b)
        },
    }
}

/// What the end of the text leads to.
pub open spec fn finished(at: At) -> Result<(), Failure> {
    match at {
        At::End => Ok(()),
        At::FirstMember => Err(Failure::Expect(Expect::ValueOrEnd)),
        At::FirstPlace => Err(Failure::Expect(Expect::ValueOrEnd)),
        At::Key(text, _) => match string_at(text) {
            Ok(_) => Err(Failure::Expect(Expect::Colon)),
            Err(f) => Err(f),
        },
        At::Colon(_) => Err(Failure::Expect(Expect::Colon)),
        At::Skip(text, _) => match skipped(text) {
            Turn::Fail(f) => Err(f),
            _ => Err(Failure::Expect(Expect::CommaOrEnd)),
        },
        At::Body(text, _) => match feature_at(text) {
            Ok(_) => Err(Failure::Expect(Expect::CommaOrEnd)),
            Err(f) => Err(f),
        },
        At::AfterPlace => Err(Failure::Expect(Expect::CommaOrEnd)),
        At::AfterMember => Err(Failure::Expect(Expect::CommaOrEnd)),
        _ => Err(Failure::Expect(Expect::Value)),
    }
}

/// What reading a text leads to: the places before its end or the first failure, and whether it
/// was read to its end.
pub struct Parsed {
    pub features: Seq<FeatureText>,
    pub end: Result<(), Failure>,
}

/// What reading `s` byte by byte leads to, after the places in `found`.
pub open spec fn run(found: Seq<FeatureText>, at: At, s: Seq<u8>) -> Parsed
    decreases s.len(),
{
    if s.len() == 0 {
        Parsed { features: found, end: finished(at) }
    } else {
        match next(at, s[0]) {
            Turn::On(at) => run(found, at, s.skip(1)),
            Turn::Found(f, at) => run(found.push(f), at, s.skip(1)),
            Turn::Fail(f) => Parsed { features: found, end: Err(f) },
        }
    }
}

/// Whether `b` can be part of a number.
pub open spec fn is_number_byte(b: u8) -> bool {
    is_digit(b) || b == '-' as u8 || b == '+' as u8 || b == '.' as u8 || b == 'e' as u8 || b
        == 'E' as u8
}

/// `s` without the bytes at its end that can be part of a number.
pub open spec fn without_number(s: Seq<u8>) -> Seq<u8>
    decreases s.len(),
{
    if s.len() > 0 && is_number_byte(s.last()) {
        without_number(s.drop_last())
    } else {
        s
    }
}

/// Whether the text of a place ends within a coordinate: with the sign of a number in place of the
/// number it ends with, a digit of a coordinate lacks. A lone zero is taken for whole.
pub open spec fn ends_in_coordinate(text: Seq<u8>) -> bool {
    let head = without_number(text);
    let number = text.skip(head.len() as int);
    &&& number.len() > 0
    &&& number != seq!['0' as u8]
    &&& number != seq!['-' as u8, '0' as u8]
    &&& feature_at(head.push('-' as u8)) == Err::<Option<FeatureText>, _>(Failure::InvalidCoords)
}

/// What a failure to read the text leads to. It breaks off a string or a coordinate; elsewhere it
/// counts as a byte that no text holds, behind which the text ends.
pub open spec fn broken(at: At) -> Failure {
    match at {
        At::Key(_, _) => finished(at)->Err_0,
        At::Skip(text, nest) => if nest.quoted {
            finished(at)->Err_0
        } else {
            finished(At::Skip(text.push(0), nest))->Err_0
        },
        At::Body(text, nest) => if nest.quoted {
            finished(at)->Err_0
        } else if ends_in_coordinate(text) {
            Failure::InvalidCoords
        } else {
            finished(At::Body(text.push(0), nest))->Err_0
        },
        _ => mark_next(at, 0)->Fail_0,
    }
}

proof fn lemma_run_numbers(found: Seq<FeatureText>, at: At, s: Seq<u8>, k: int)
    requires
        forall|i: int|
            0 <= i < found.len() ==> reads_as_number((#[trigger] found[i]).lat) && reads_as_number(
                found[i].long,
            ),
        0 <= k < run(found, at, s).features.len(),
    ensures
        reads_as_number(run(found, at, s).features[k].lat),
        reads_as_number(run(found, at, s).features[k].long),
    decreases s.len(),
{
    if s.len() > 0 {
        if let At::Body(text, _) = at {
            law_coordinates_are_numbers(text.push(s[0]));
        }
        match next(at, s[0]) {
            Turn::On(at) => lemma_run_numbers(found, at, s.skip(1), k),
            Turn::Found(f, at) => lemma_run_numbers(found.push(f), at, s.skip(1), k),
            Turn::Fail(_) => {},
        }
    }
}

/// The latitude and the longitude of every place that is read out of any text read as floating
/// point numbers.
pub proof fn law_places_have_numbers(s: Seq<u8>, k: int)
    requires
        0 <= k < document(s).features.len(),
    ensures
        reads_as_number(document(s).features[k].lat),
        reads_as_number(document(s).features[k].long),
{
    law_reading_follows_the_grammar(s);
    lemma_run_numbers(Seq::empty(), At::Start, s, k);
}

/// Where the reading stands, with what is held of the text.
#[derive(Debug, PartialEq, Eq)]
enum Stage {
    Start,
    FirstMember,
    Member,
    Key(Vec<u8>, bool),
    Colon(bool),
    List,
    Skip(Vec<u8>, Scan),
    FirstPlace,
    Place,
    Body(Vec<u8>, Scan),
    AfterPlace,
    AfterMember,
    End,
}

impl Stage {
    /// No more can be open than there are bytes.
    spec fn wf(self) -> bool {
        match self {
            Stage::Skip(text, scan) => scan.open <= text@.len(),
            Stage::Body(text, scan) => scan.open <= text@.len(),
            _ => true,
        }
    }
}

impl View for Stage {
    type V = At;

    closed spec fn view(&self) -> At {
        match *self {
            Stage::Start => At::Start,
            Stage::FirstMember => At::FirstMember,
            Stage::Member => At::Member,
            Stage::Key(text, escaped) => At::Key(text@, escaped),
            Stage::Colon(list) => At::Colon(list),
            Stage::List => At::List,
            Stage::Skip(text, scan) => At::Skip(text@, scan@),
            Stage::FirstPlace => At::FirstPlace,
            Stage::Place => At::Place,
            Stage::Body(text, scan) => At::Body(text@, scan@),
            Stage::AfterPlace => At::AfterPlace,
            Stage::AfterMember => At::AfterMember,
            Stage::End => At::End,
        }
    }
}

/// What a byte led to.
enum Turned {
    On(Stage),
    Found(Feature, Stage),
    Fail(LocParseError),
}

/// Whether `r` is what `t` says.
spec fn turns(r: Turned, t: Turn) -> bool {
    match (r, t) {
        (Turned::On(stage), Turn::On(at)) => stage@ == at && stage.wf(),
        (Turned::Found(place, stage), Turn::Found(f, at)) => place@ == f && stage@ == at
            && stage.wf(),
        (Turned::Fail(e), Turn::Fail(f)) => reports(e, f),
        _ => false,
    }
}

fn fail(x: Expect) -> (r: Turned)
    ensures
        turns(r, expect(x)),
{
    Turned::Fail(expected(x))
}

fn turn_key(mut text: Vec<u8>, escaped: bool, b: u8) -> (r: Turned)
    ensures
        turns(r, key_next(text@, escaped, b)),
{
    text.push(b);
    if escaped || b != '"' as u8 {
        return Turned::On(Stage::Key(text, !escaped && b == '\\' as u8));
    }
    match read_text(text.as_slice()) {
        Ok(key) => Turned::On(Stage::Colon(same_text(key.as_str(), "features"))),
        Err(e) => Turned::Fail(e),
    }
}

fn turn_skipped(text: &[u8]) -> (r: Turned)
    ensures
        turns(r, skipped(text@)),
{
    let (t, left) = match read_token(text) {
        Some(token) => token,
        None => {
            return fail(Expect::Value);
        },
    };
    let after = tail(text, left);
    let left: usize = match pass_value(t, after) {
        Ok(left) => left,
        Err(e) => {
            return Turned::Fail(e);
        },
    };
    match read_token(tail(after, left)) {
        Some((Token::Comma, 0)) => Turned::On(Stage::Member),
        Some((Token::RCurly, 0)) => Turned::On(Stage::End),
        _ => fail(Expect::CommaOrEnd),
    }
}

fn turn_skip(mut text: Vec<u8>, scan: Scan, b: u8) -> (r: Turned)
    requires
        scan.open <= text@.len(),
    ensures
        turns(r, skip_next(text@, scan@, b)),
{
    text.push(b);
    if scan.open == 0 && !scan.quoted && (b == ',' as u8 || b == ']' as u8 || b == '}' as u8) {
        return turn_skipped(text.as_slice());
    }
    proof {
        assert(text@.len() == text.len());
    }
    Turned::On(Stage::Skip(text, scan.step(b)))
}

fn turn_body(mut text: Vec<u8>, scan: Scan, b: u8) -> (r: Turned)
    requires
        scan.open <= text@.len(),
    ensures
        turns(r, body_next(text@, scan@, b)),
{
    text.push(b);
    if scan.open == 0 && !scan.quoted && (b == ']' as u8 || b == '}' as u8) {
        return match read_feature(text.as_slice()) {
            Ok(Some(place)) => Turned::Found(place, Stage::AfterPlace),
            Ok(None) => Turned::On(Stage::AfterPlace),
            Err(e) => Turned::Fail(e),
        };
    }
    proof {
        assert(text@.len() == text.len());
    }
    Turned::On(Stage::Body(text, scan.step(b)))
}

fn no_scan() -> (r: Scan)
    ensures
        r@ == outside(),
        r.open == 0,
{
    Scan { open: 0, quoted: false, escaped: false }
}

fn turn_mark(stage: Stage, b: u8) -> (r: Turned)
    requires
        !(stage@ is Key || stage@ is Skip || stage@ is Body),
    ensures
        turns(r, mark_next(stage@, b)),
{
    match stage {
        Stage::Start => if b == '{' as u8 {
            Turned::On(Stage::FirstMember)
        } else {
            fail(Expect::Value)
        },
        Stage::FirstMember => if b == '}' as u8 {
            Turned::On(Stage::End)
        } else if b == '"' as u8 {
            Turned::On(Stage::Key(Vec::new(), false))
        } else {
            fail(Expect::String)
        },
        Stage::Member => if b == '"' as u8 {
            Turned::On(Stage::Key(Vec::new(), false))
        } else {
            fail(Expect::String)
        },
        Stage::Colon(list) => if b != ':' as u8 {
            fail(Expect::Colon)
        } else if list {
            Turned::On(Stage::List)
        } else {
            Turned::On(Stage::Skip(Vec::new(), no_scan()))
        },
        Stage::List => if b == '[' as u8 {
            Turned::On(Stage::FirstPlace)
        } else {
            fail(Expect::Value)
        },
        Stage::FirstPlace => if b == ']' as u8 {
            Turned::On(Stage::AfterMember)
        } else if b == '{' as u8 {
            Turned::On(Stage::Body(Vec::new(), no_scan()))
        } else {
            fail(Expect::Value)
        },
        Stage::Place => if b == '{' as u8 {
            Turned::On(Stage::Body(Vec::new(), no_scan()))
        } else {
            fail(Expect::Value)
        },
        Stage::AfterPlace => if b == ']' as u8 {
            Turned::On(Stage::AfterMember)
        } else if b == ',' as u8 {
            Turned::On(Stage::Place)
        } else {
            fail(Expect::CommaOrEnd)
        },
        Stage::AfterMember => if b == '}' as u8 {
            Turned::On(Stage::End)
        } else if b == ',' as u8 {
            Turned::On(Stage::Member)
        } else {
            fail(Expect::CommaOrEnd)
        },
        _ => fail(Expect::Eof),
    }
}

fn turn(stage: Stage, b: u8) -> (r: Turned)
    requires
        stage.wf(),
    ensures
        turns(r, next(stage@, b)),
{
    match stage {
        Stage::Key(text, escaped) => turn_key(text, escaped, b),
        Stage::Skip(text, scan) => turn_skip(text, scan, b),
        Stage::Body(text, scan) => turn_body(text, scan, b),
        stage => if b == ' ' as u8 || b == '\t' as u8 || b == '\r' as u8 || b == '\n' as u8 {
            Turned::On(stage)
        } else {
            turn_mark(stage, b)
        },
    }
}

/// A list of places that is being read.
#[derive(Debug, PartialEq, Eq)]
pub struct SourceReader {
    stage: Stage,
}

impl View for SourceReader {
    type V = At;

    closed spec fn view(&self) -> At {
        self.stage@
    }
}

/// Whether the text of a place ends within a coordinate.
fn is_in_coordinate(text: &[u8]) -> (r: bool)
    ensures
        r == ends_in_coordinate(text@),
{
    let mut n: usize = text.len();
    proof {
        assert(text@.take(n as int) =~= text@);
    }
    while n > 0 && (('0' as u8 <= text[n - 1] && text[n - 1] <= '9' as u8) || text[n - 1]
        == '-' as u8 || text[n - 1] == '+' as u8 || text[n - 1] == '.' as u8 || text[n - 1]
        == 'e' as u8 || text[n - 1] == 'E' as u8)
        invariant
            n <= text.len(),
            without_number(text@) == without_number(text@.take(n as int)),
        decreases n,
    {
        proof {
            assert(text@.take(n as int).drop_last() =~= text@.take(n - 1));
        }
        n = n - 1;
    }
    let number = vstd::slice::slice_subrange(text, n, text.len());
    proof {
        assert(without_number(text@) == text@.take(n as int));
        assert(text@.skip(n as int) =~= number@);
        if number@.len() == 1 {
            assert(number@ =~= seq![number@[0]]);
        } else if number@.len() == 2 {
            assert(number@ =~= seq![number@[0], number@[1]]);
        }
    }
    if number.len() == 0 || (number.len() == 1 && number[0] == '0' as u8) || (number.len() == 2
        && number[0] == '-' as u8 && number[1] == '0' as u8) {
        return false;
    }
    let mut head = piece(text, 0, n);
    proof {
        assert(head@ =~= text@.take(n as int));
    }
    head.push('-' as u8);
    match read_feature(head.as_slice()) {
        Err(LocParseError::InvalidCoords) => true,
        _ => false,
    }
}

impl SourceReader {
    #[verifier::type_invariant]
    closed spec fn inv(self) -> bool {
        self.stage.wf()
    }

    /// Nothing has been read.
    pub fn new() -> (r: SourceReader)
        ensures
            r@ == At::Start,
    {
        SourceReader { stage: Stage::Start }
    }

    /// Takes the next byte, and gives the place that is whole with it. After a failure nothing
    /// has been read.
    pub fn accept(&mut self, b: u8) -> (r: Result<Option<Feature>, LocParseError>)
        ensures
            match next(old(self)@, b) {
                Turn::On(at) => r == Ok::<Option<Feature>, LocParseError>(None) && final(self)@
                    == at,
                Turn::Found(f, at) => {
                    &&& r matches Ok(Some(place)) && place@ == f
                    &&& final(self)@ == at
                },
                Turn::Fail(f) => {
                    &&& r matches Err(e) && reports(e, f)
                    &&& final(self)@ == At::Start
                },
            },
    {
        proof {
            use_type_invariant(&*self);
        }
        let mut stage = Stage::Start;
        std::mem::swap(&mut self.stage, &mut stage);
        match turn(stage, b) {
            Turned::On(stage) => {
                self.stage = stage;
                Ok(None)
            },
            Turned::Found(place, stage) => {
                self.stage = stage;
                Ok(Some(place))
            },
            Turned::Fail(e) => Err(e),
        }
    }

    /// Takes the end of the text.
    pub fn finish(self) -> (r: Result<(), LocParseError>)
        ensures
            match finished(self@) {
                Ok(_) => r is Ok,
                Err(f) => r matches Err(e) && reports(e, f),
            },
    {
        match self.stage {
            Stage::End => Ok(()),
            Stage::FirstMember => Err(expected(Expect::ValueOrEnd)),
            Stage::FirstPlace => Err(expected(Expect::ValueOrEnd)),
            Stage::Key(text, _) => match read_string(text.as_slice()) {
                Ok(_) => Err(expected(Expect::Colon)),
                Err(e) => Err(e),
            },
            Stage::Colon(_) => Err(expected(Expect::Colon)),
            Stage::Skip(text, _) => match turn_skipped(text.as_slice()) {
                Turned::Fail(e) => Err(e),
                _ => Err(expected(Expect::CommaOrEnd)),
            },
            Stage::Body(text, _) => match read_feature(text.as_slice()) {
                Ok(_) => Err(expected(Expect::CommaOrEnd)),
                Err(e) => Err(e),
            },
            Stage::AfterPlace => Err(expected(Expect::CommaOrEnd)),
            Stage::AfterMember => Err(expected(Expect::CommaOrEnd)),
            _ => Err(expected(Expect::Value)),
        }
    }

    /// Takes a failure to read the text, which is never taken for its end.
    pub fn fail(self) -> (e: LocParseError)
        ensures
            reports(e, broken(self@)),
    {
        proof {
            use_type_invariant(&self);
        }
        let stage = match self.stage {
            Stage::Skip(mut text, scan) => {
                if !scan.quoted {
                    text.push(0);
                }
                Stage::Skip(text, scan)
            },
            Stage::Body(mut text, scan) => {
                if !scan.quoted {
                    if is_in_coordinate(text.as_slice()) {
                        return LocParseError::InvalidCoords;
                    }
                    text.push(0);
                }
                Stage::Body(text, scan)
            },
            Stage::Key(text, escaped) => Stage::Key(text, escaped),
            stage => {
                return match turn_mark(stage, 0) {
                    Turned::Fail(e) => e,
                    _ => expected(Expect::Eof),
                };
            },
        };
        match (SourceReader { stage }).finish() {
            Err(e) => e,
            Ok(_) => expected(Expect::Eof),
        }
    }
}

} // verus!
