//! Lists of places written down as GeoJSON text, with any blanks between the tokens, members in
//! any order, names and keys with escape sequences, and further members of any kind; and what
//! reading makes of them.

use vstd::prelude::*;
use vstd::utf8::{encode_utf8, encode_utf8_decode_utf8, encode_utf8_valid_utf8};
use crate::locations::geojson::{coordinate, item, items, member, point, sequence, went_on, FeatureText, Findings, Level, Member};
use crate::locations::json::{all_glyphs, ascii_text, behind_string, blanks, ends_value, is_blank, is_number, is_plain, is_plain_byte, lemma_blanks_bound, lemma_number_len_is, lemma_number_parts, law_number_is_float, meant, next_token, number_len, plain_run, plain_text, quote_at, spelled, string_at, without_blanks, Failure, Glyph, Token};
use crate::locations::place::{lemma_items_bound, lemma_sequence_bound};
use crate::locations::source::{document, member_at, members_from, place_at, places_from, List};
use crate::locations::spelling::law_written_string_reads_back;
use crate::locations::value::{elements_from, key, lemma_element_bound, value, Kind};
use crate::text::is_digit;

verus! {

/// `b`, then `rest`.
pub open spec fn put(b: char, rest: Seq<u8>) -> Seq<u8> {
    seq![b as u8] + rest
}

/// Whether `gap` is nothing but blanks.
pub open spec fn is_gap(gap: Seq<u8>) -> bool {
    forall|i: int| 0 <= i < gap.len() ==> is_blank(#[trigger] gap[i])
}

/// Whether `text` is a number as JSON text writes it.
pub open spec fn is_number_text(text: Seq<char>) -> bool {
    number_len(encode_utf8(text)) == Some(encode_utf8(text).len())
}

/// `text` between quotes, then `rest`.
pub open spec fn quoted(text: Seq<char>, rest: Seq<u8>) -> Seq<u8> {
    put('"', encode_utf8(text) + put('"', rest))
}

/// Whether `m` goes on as text may behind a value.
pub open spec fn follows(m: Seq<u8>) -> bool {
    m.len() > 0 && ends_value(m[0])
}

/// Whether `v` is a value, whatever follows it.
pub open spec fn is_value(v: Seq<u8>) -> bool {
    forall|m: Seq<u8>| #[trigger]
        follows(m) ==> (next_token(v + m) matches Some((t, s)) && value(t, s) == Ok::<
            Seq<u8>,
            Failure,
        >(m))
}

/// A member of an object as it is written, with what stands before it, around its colon and
/// behind it.
pub struct Entry {
    pub before: Seq<u8>,
    pub key: Seq<char>,
    /// How the key is written.
    pub glyphs: Seq<Glyph>,
    pub colon: Seq<u8>,
    pub inner: Seq<u8>,
    pub value: Seq<u8>,
    pub after: Seq<u8>,
}

/// Whether nothing but blanks stands between the parts of a member, and its key is written so.
pub open spec fn is_spaced(e: Entry) -> bool {
    &&& is_gap(e.before) && is_gap(e.colon) && is_gap(e.inner) && is_gap(e.after)
    &&& all_glyphs(e.glyphs) && e.key == meant(e.glyphs)
}

/// A member behind its first quote and up to its value, then `rest`.
pub open spec fn entry_text(e: Entry, rest: Seq<u8>) -> Seq<u8> {
    encode_utf8(spelled(e.glyphs)) + put('"', e.colon + put(':', e.inner + (e.value + rest)))
}

/// Members parted by commas, the closing bracket, then `rest`.
pub open spec fn entries_text(es: Seq<Entry>, rest: Seq<u8>) -> Seq<u8>
    decreases es.len(),
{
    if es.len() == 0 {
        put('}', rest)
    } else {
        es[0].before + put(
            '"',
            entry_text(
                es[0],
                es[0].after + (if es.len() == 1 {
                    put('}', rest)
                } else {
                    put(',', entries_text(es.skip(1), rest))
                }),
            ),
        )
    }
}

/// An object behind its opening bracket, then `rest`. An empty one holds `gap`.
pub open spec fn object_text(es: Seq<Entry>, gap: Seq<u8>, rest: Seq<u8>) -> Seq<u8> {
    if es.len() == 0 {
        gap + put('}', rest)
    } else {
        entries_text(es, rest)
    }
}

proof fn lemma_put(b: char, rest: Seq<u8>)
    ensures
        put(b, rest).len() == rest.len() + 1,
        put(b, rest)[0] == b as u8,
        put(b, rest).skip(1) == rest,
{
    assert(put(b, rest).skip(1) =~= rest);
}

/// What a character that is a token of its own stands for.
pub open spec fn single(b: char) -> Option<Token> {
    if b == '"' {
        Some(Token::Quote)
    } else if b == '[' {
        Some(Token::LSquare)
    } else if b == ']' {
        Some(Token::RSquare)
    } else if b == '{' {
        Some(Token::LCurly)
    } else if b == '}' {
        Some(Token::RCurly)
    } else if b == ',' {
        Some(Token::Comma)
    } else if b == ':' {
        Some(Token::Colon)
    } else {
        None
    }
}

/// Blanks before a token do not matter.
pub proof fn lemma_gap(gap: Seq<u8>, s: Seq<u8>)
    requires
        is_gap(gap),
    ensures
        next_token(gap + s) == next_token(s),
        without_blanks(gap + s) == without_blanks(s),
    decreases gap.len(),
{
    if gap.len() == 0 {
        assert(gap + s =~= s);
    } else {
        let others = gap.skip(1);
        assert forall|i: int| 0 <= i < others.len() implies is_blank(#[trigger] others[i]) by {
            assert(others[i] == gap[i + 1]);
        }
        lemma_gap(others, s);
        assert(is_blank(gap[0]));
        assert((gap + s)[0] == gap[0]);
        assert((gap + s).skip(1) =~= others + s);
        lemma_blanks_bound(others + s);
        assert(without_blanks(gap + s) =~= without_blanks(others + s));
    }
}

pub proof fn lemma_single(gap: Seq<u8>, b: char, rest: Seq<u8>)
    requires
        is_gap(gap),
        single(b) is Some,
    ensures
        next_token(gap + put(b, rest)) == Some((single(b)->0, rest)),
        next_token(put(b, rest)) == Some((single(b)->0, rest)),
{
    let s = put(b, rest);
    lemma_gap(gap, s);
    lemma_put(b, rest);
    assert(blanks(s) == 0);
    assert(without_blanks(s) =~= s);
}

proof fn lemma_plain_bytes(bytes: Seq<u8>, rest: Seq<u8>)
    requires
        forall|i: int| 0 <= i < bytes.len() ==> is_plain_byte(#[trigger] bytes[i]),
    ensures
        quote_at(bytes + put('"', rest), false) == Some(bytes.len() + 1),
        plain_run(bytes + put('"', rest)) == bytes.len(),
    decreases bytes.len(),
{
    lemma_put('"', rest);
    let s = bytes + put('"', rest);
    if bytes.len() == 0 {
        assert(s =~= put('"', rest));
    } else {
        let others = bytes.skip(1);
        assert forall|i: int| 0 <= i < others.len() implies is_plain_byte(#[trigger] others[i]) by {
            assert(others[i] == bytes[i + 1]);
        }
        lemma_plain_bytes(others, rest);
        assert(is_plain_byte(bytes[0]));
        assert(s[0] == bytes[0]);
        assert(s.skip(1) =~= others + put('"', rest));
    }
}

pub proof fn lemma_string(text: Seq<char>, rest: Seq<u8>)
    requires
        is_plain(text),
    ensures
        string_at(encode_utf8(text) + put('"', rest)) == Ok::<(Seq<char>, Seq<u8>), Failure>(
            (text, rest),
        ),
        behind_string(encode_utf8(text) + put('"', rest)) == Ok::<Seq<u8>, Failure>(rest),
{
    let bytes = encode_utf8(text);
    let s = bytes + put('"', rest);
    let unit = bytes + put('"', Seq::empty());
    let n = bytes.len() as int + 1;
    lemma_plain_bytes(bytes, rest);
    lemma_plain_bytes(bytes, Seq::empty());
    assert(s.take(n) =~= unit);
    assert(s.skip(n) =~= rest);
    assert(unit[bytes.len() as int] == '"' as u8);
    assert(plain_text(unit) =~= bytes);
    encode_utf8_valid_utf8(text);
    encode_utf8_decode_utf8(text);
}

proof fn lemma_number(text: Seq<char>, m: Seq<u8>)
    requires
        is_number_text(text),
        follows(m),
    ensures
        number_len(encode_utf8(text) + m) == Some(encode_utf8(text).len()),
        encode_utf8(text).len() > 0,
        !is_blank((encode_utf8(text) + m)[0]),
        is_digit(encode_utf8(text)[0]) || encode_utf8(text)[0] == '-' as u8,
        ascii_text(encode_utf8(text)) == text,
        (encode_utf8(text) + m).take(encode_utf8(text).len() as int) == encode_utf8(text),
        (encode_utf8(text) + m).skip(encode_utf8(text).len() as int) == m,
{
    let b = encode_utf8(text);
    let s = b + m;
    let n = b.len() as int;
    law_number_is_float(b);
    let (sign, p, q) = lemma_number_parts(b);
    assert(b.take(n) =~= b);
    encode_utf8_decode_utf8(text);
    encode_utf8_decode_utf8(ascii_text(b));
    assert forall|i: int| 0 <= i < n implies #[trigger] s[i] == b[i] by {}
    assert(is_digit(b[sign]));
    assert(is_number(s, sign, p, q, n)) by {
        assert forall|i: int| sign <= i < p implies is_digit(#[trigger] s[i]) by {
            assert(s[i] == b[i]);
        }
        assert forall|i: int| p < i < q implies is_digit(#[trigger] s[i]) by {
            assert(s[i] == b[i]);
        }
        if q < n {
            let e: int = if b[q + 1] == '+' as u8 || b[q + 1] == '-' as u8 {
                2
            } else {
                1
            };
            assert forall|i: int| q + e <= i < n implies is_digit(#[trigger] s[i]) by {
                assert(s[i] == b[i]);
            }
        }
    }
    lemma_number_len_is(s, sign, p, q, n);
    assert(s.take(n) =~= b);
    assert(s.skip(n) =~= m);
}

pub proof fn lemma_coordinate(gap: Seq<u8>, text: Seq<char>, m: Seq<u8>)
    requires
        is_gap(gap),
        is_number_text(text),
        follows(m),
    ensures
        coordinate(gap + (encode_utf8(text) + m)) == Some((text, m)),
{
    let s = encode_utf8(text) + m;
    lemma_number(text, m);
    lemma_gap(gap, s);
    assert(blanks(s) == 0);
    assert(without_blanks(s) =~= s);
}

/// Whether a member leads from `found` to `next` on `level`, whatever follows it.
pub open spec fn acts(level: Level, found: Findings, e: Entry, next: Findings) -> bool {
    forall|m: Seq<u8>| #[trigger]
        follows(m) ==> item(level, found, Token::Quote, entry_text(e, m)) == went_on(next, m)
}

pub proof fn lemma_entry(e: Entry, m: Seq<u8>)
    requires
        is_spaced(e),
        next_token(e.value + m) is Some,
    ensures
        member(Token::Quote, entry_text(e, m)) == Ok::<Member, Failure>(
            Member {
                key: e.key,
                token: (next_token(e.value + m)->0).0,
                rest: (next_token(e.value + m)->0).1,
            },
        ),
        key(Token::Quote, entry_text(e, m)) == Ok::<(Token, Seq<u8>), Failure>(
            next_token(e.value + m)->0,
        ),
{
    let inner = e.inner + (e.value + m);
    law_written_string_reads_back(e.glyphs, e.colon + put(':', inner));
    lemma_single(e.colon, ':', inner);
    lemma_gap(e.inner, e.value + m);
}

pub proof fn lemma_follows(gap: Seq<u8>, b: char, rest: Seq<u8>)
    requires
        is_gap(gap),
        b == ',' || b == ']' || b == '}',
    ensures
        follows(gap + put(b, rest)),
{
    lemma_put(b, rest);
    if gap.len() > 0 {
        assert((gap + put(b, rest))[0] == gap[0]);
        assert(is_blank(gap[0]));
    } else {
        assert(gap + put(b, rest) =~= put(b, rest));
    }
}

/// What the members of an object lead to.
#[verifier::spinoff_prover]
#[verifier::rlimit(40)]
proof fn lemma_entries(level: Level, es: Seq<Entry>, found: Seq<Findings>, rest: Seq<u8>)
    requires
        es.len() > 0,
        found.len() == es.len() + 1,
        forall|i: int| 0 <= i < es.len() ==> is_spaced(#[trigger] es[i]),
        forall|i: int| 0 <= i < es.len() ==> acts(level, found[i], #[trigger] es[i], found[i + 1]),
    ensures
        next_token(entries_text(es, rest)) is Some,
        (next_token(entries_text(es, rest))->0).0 == Token::Quote,
        items(
            level,
            found[0],
            Token::Quote,
            (next_token(entries_text(es, rest))->0).1,
        ) == went_on(found.last(), rest),
    decreases es.len(),
{
    let e = es[0];
    assert(is_spaced(e) && acts(level, found[0], e, found[1]));
    let end = if es.len() == 1 {
        put('}', rest)
    } else {
        put(',', entries_text(es.skip(1), rest))
    };
    let m = e.after + end;
    let s = entry_text(e, m);
    lemma_single(e.before, '"', s);
    if es.len() == 1 {
        lemma_follows(e.after, '}', rest);
        lemma_single(e.after, '}', rest);
    } else {
        let others = es.skip(1);
        let more = entries_text(others, rest);
        let next = found.skip(1);
        lemma_follows(e.after, ',', more);
        lemma_single(e.after, ',', more);
        assert forall|i: int| 0 <= i < others.len() implies is_spaced(#[trigger] others[i]) && acts(
            level,
            next[i],
            others[i],
            next[i + 1],
        ) by {
            assert(others[i] == es[i + 1]);
        }
        lemma_entries(level, others, next, rest);
        lemma_items_bound(level, found[0], Token::Quote, s);
        assert(next.last() == found.last());
    }
    assert(follows(m));
    assert(item(level, found[0], Token::Quote, s) == went_on(found[1], m));
}

/// The members of an object are taken one after the other, whatever blanks stand between them.
pub proof fn law_members_are_taken_in_turn(
    level: Level,
    es: Seq<Entry>,
    gap: Seq<u8>,
    found: Seq<Findings>,
    rest: Seq<u8>,
)
    requires
        is_gap(gap),
        found.len() == es.len() + 1,
        forall|i: int| 0 <= i < es.len() ==> is_spaced(#[trigger] es[i]),
        forall|i: int| 0 <= i < es.len() ==> acts(level, found[i], #[trigger] es[i], found[i + 1]),
    ensures
        sequence(level, found[0], object_text(es, gap, rest)) == went_on(found.last(), rest),
{
    if es.len() == 0 {
        lemma_single(gap, '}', rest);
    } else {
        lemma_entries(level, es, found, rest);
    }
}

/// Whether `key` means nothing on `level`.
pub open spec fn is_other(level: Level, key: Seq<char>) -> bool {
    match level {
        Level::Feature => key != "properties"@ && key != "geometry"@,
        Level::Properties => key != "name"@,
        Level::Geometry => key != "coordinates"@,
    }
}

/// A further member changes nothing, whatever its value.
pub proof fn law_other_member_changes_nothing(level: Level, found: Findings, e: Entry)
    requires
        is_spaced(e),
        is_other(level, e.key),
        is_value(e.value),
    ensures
        acts(level, found, e, found),
{
    assert forall|m: Seq<u8>| #[trigger] follows(m) implies item(
        level,
        found,
        Token::Quote,
        entry_text(e, m),
    ) == went_on(found, m) by {
        lemma_entry(e, m);
    }
}

/// The member `name` of the properties is the name of the place, with the characters that
/// its escape sequences stand for.
pub proof fn law_name_is_taken(found: Findings, e: Entry, name: Seq<Glyph>)
    requires
        is_spaced(e),
        e.key == "name"@,
        all_glyphs(name),
        e.value == quoted(spelled(name), Seq::empty()),
    ensures
        acts(Level::Properties, found, e, Findings { name: Some(meant(name)), ..found }),
{
    assert forall|m: Seq<u8>| #[trigger] follows(m) implies item(
        Level::Properties,
        found,
        Token::Quote,
        entry_text(e, m),
    ) == went_on(Findings { name: Some(meant(name)), ..found }, m) by {
        let text = encode_utf8(spelled(name)) + put('"', m);
        assert(e.value + m =~= put('"', text));
        lemma_single(Seq::empty(), '"', text);
        lemma_entry(e, m);
        law_written_string_reads_back(name, m);
    }
}

/// A point as it is written, with blanks around its numbers.
pub struct PointText {
    pub long: Seq<char>,
    pub lat: Seq<char>,
    pub before_long: Seq<u8>,
    pub after_long: Seq<u8>,
    pub before_lat: Seq<u8>,
    pub after_lat: Seq<u8>,
}

/// Whether nothing but blanks stands around the numbers.
pub open spec fn is_point(p: PointText) -> bool {
    &&& is_number_text(p.long) && is_number_text(p.lat)
    &&& is_gap(p.before_long) && is_gap(p.after_long)
    &&& is_gap(p.before_lat) && is_gap(p.after_lat)
}

/// A point behind its opening bracket, then `rest`.
pub open spec fn point_text(p: PointText, rest: Seq<u8>) -> Seq<u8> {
    p.before_long + (encode_utf8(p.long) + (p.after_long + put(
        ',',
        p.before_lat + (encode_utf8(p.lat) + (p.after_lat + put(']', rest))),
    )))
}

proof fn lemma_point_join(p: PointText, m: Seq<u8>)
    ensures
        put('[', point_text(p, Seq::empty())) + m == put('[', point_text(p, m)),
{
    let none = Seq::<u8>::empty();
    let a = p.after_lat + put(']', none);
    assert(a + m =~= p.after_lat + put(']', m));
    let b = p.before_lat + (encode_utf8(p.lat) + a);
    assert(b + m =~= p.before_lat + (encode_utf8(p.lat) + (a + m)));
    let c = p.after_long + put(',', b);
    assert(c + m =~= p.after_long + put(',', b + m));
    assert(point_text(p, none) + m =~= p.before_long + (encode_utf8(p.long) + (c + m)));
    assert(put('[', point_text(p, none)) + m =~= put('[', point_text(p, none) + m));
}

/// The member `coordinates` of the geometry is the point of the place.
pub proof fn law_point_is_taken(found: Findings, e: Entry, p: PointText)
    requires
        is_spaced(e),
        e.key == "coordinates"@,
        is_point(p),
        e.value == put('[', point_text(p, Seq::empty())),
    ensures
        acts(Level::Geometry, found, e, Findings { coords: Some((p.lat, p.long)), ..found }),
{
    assert forall|m: Seq<u8>| #[trigger] follows(m) implies item(
        Level::Geometry,
        found,
        Token::Quote,
        entry_text(e, m),
    ) == went_on(Findings { coords: Some((p.lat, p.long)), ..found }, m) by {
        lemma_point_join(p, m);
        lemma_single(Seq::empty(), '[', point_text(p, m));
        lemma_entry(e, m);
        let lat = p.before_lat + (encode_utf8(p.lat) + (p.after_lat + put(']', m)));
        lemma_follows(p.after_long, ',', lat);
        lemma_coordinate(p.before_long, p.long, p.after_long + put(',', lat));
        lemma_single(p.after_long, ',', lat);
        lemma_follows(p.after_lat, ']', m);
        lemma_coordinate(p.before_lat, p.lat, p.after_lat + put(']', m));
        lemma_single(p.after_lat, ']', m);
    }
}

proof fn lemma_entry_join(e: Entry, s: Seq<u8>, m: Seq<u8>)
    ensures
        entry_text(e, s) + m == entry_text(e, s + m),
{
    let a = e.value + s;
    assert(a + m =~= e.value + (s + m));
    let b = e.inner + a;
    assert(b + m =~= e.inner + (a + m));
    let c = e.colon + put(':', b);
    assert(c + m =~= e.colon + put(':', b + m));
    assert(entry_text(e, s) + m =~= encode_utf8(spelled(e.glyphs)) + put('"', c + m));
}

proof fn lemma_entries_join(es: Seq<Entry>, m: Seq<u8>)
    ensures
        entries_text(es, Seq::empty()) + m == entries_text(es, m),
    decreases es.len(),
{
    let none = Seq::<u8>::empty();
    assert(put('}', none) + m =~= put('}', m));
    if es.len() > 0 {
        let e = es[0];
        let more = entries_text(es.skip(1), none);
        lemma_entries_join(es.skip(1), m);
        let end = if es.len() == 1 {
            put('}', none)
        } else {
            put(',', more)
        };
        assert(put(',', more) + m =~= put(',', more + m));
        assert((e.after + end) + m =~= e.after + (end + m));
        lemma_entry_join(e, e.after + end, m);
        assert(entries_text(es, none) + m =~= e.before + put(
            '"',
            entry_text(e, e.after + end) + m,
        ));
    }
}

proof fn lemma_object_join(es: Seq<Entry>, gap: Seq<u8>, m: Seq<u8>)
    ensures
        put('{', object_text(es, gap, Seq::empty())) + m == put('{', object_text(es, gap, m)),
{
    let none = Seq::<u8>::empty();
    lemma_entries_join(es, m);
    assert(gap + put('}', none) + m =~= gap + put('}', m));
    assert(object_text(es, gap, none) + m =~= object_text(es, gap, m));
    assert(put('{', object_text(es, gap, none)) + m =~= put('{', object_text(es, gap, none) + m));
}

/// The members `properties` and `geometry` of a place hold its name and its point.
pub proof fn law_parts_are_taken(
    level: Level,
    e: Entry,
    es: Seq<Entry>,
    gap: Seq<u8>,
    found: Seq<Findings>,
)
    requires
        is_spaced(e),
        (level == Level::Properties && e.key == "properties"@) || (level == Level::Geometry && e.key
            == "geometry"@),
        e.value == put('{', object_text(es, gap, Seq::empty())),
        is_gap(gap),
        found.len() == es.len() + 1,
        forall|i: int| 0 <= i < es.len() ==> is_spaced(#[trigger] es[i]),
        forall|i: int| 0 <= i < es.len() ==> acts(level, found[i], #[trigger] es[i], found[i + 1]),
    ensures
        acts(Level::Feature, found[0], e, found.last()),
{
    reveal_strlit("properties");
    reveal_strlit("geometry");
    assert("properties"@.len() != "geometry"@.len());
    assert forall|m: Seq<u8>| #[trigger] follows(m) implies item(
        Level::Feature,
        found[0],
        Token::Quote,
        entry_text(e, m),
    ) == went_on(found.last(), m) by {
        lemma_object_join(es, gap, m);
        lemma_single(Seq::empty(), '{', object_text(es, gap, m));
        lemma_entry(e, m);
        law_members_are_taken_in_turn(level, es, gap, found, m);
    }
}

/// How a place is written: its members in any order, with the numbers of those that hold its name
/// and its point.
pub struct PlaceLayout {
    pub before: Seq<u8>,
    pub members: Seq<Entry>,
    pub after: Seq<u8>,
    /// Which member is `properties`, and its members.
    pub properties: int,
    pub props: Seq<Entry>,
    /// Which of these is `name`.
    pub name_at: int,
    pub name: Seq<char>,
    /// How the name is written.
    pub glyphs: Seq<Glyph>,
    /// Which member is `geometry`, and its members.
    pub geometry: int,
    pub geom: Seq<Entry>,
    /// Which of these is `coordinates`.
    pub point_at: int,
    pub point: PointText,
}

/// Whether all of `es` but number `i` and number `j` mean nothing on `level`.
pub open spec fn all_other(level: Level, es: Seq<Entry>, i: int, j: int) -> bool {
    forall|k: int|
        0 <= k < es.len() ==> is_spaced(#[trigger] es[k]) && (k != i && k != j ==> is_other(
            level,
            es[k].key,
        ) && is_value(es[k].value))
}

/// Whether a place is written so.
#[verifier::opaque]
pub open spec fn is_place(l: PlaceLayout) -> bool {
    &&& is_gap(l.before) && is_gap(l.after)
    &&& 0 <= l.properties < l.members.len() && 0 <= l.geometry < l.members.len()
    &&& all_other(Level::Feature, l.members, l.properties, l.geometry)
    &&& l.members[l.properties].key == "properties"@
    &&& l.members[l.properties].value == put('{', object_text(l.props, Seq::empty(), Seq::empty()))
    &&& 0 <= l.name_at < l.props.len()
    &&& all_other(Level::Properties, l.props, l.name_at, l.name_at)
    &&& l.props[l.name_at].key == "name"@
    &&& l.props[l.name_at].value == quoted(spelled(l.glyphs), Seq::empty())
    &&& all_glyphs(l.glyphs) && l.name == meant(l.glyphs)
    &&& l.members[l.geometry].key == "geometry"@
    &&& l.members[l.geometry].value == put('{', object_text(l.geom, Seq::empty(), Seq::empty()))
    &&& 0 <= l.point_at < l.geom.len()
    &&& all_other(Level::Geometry, l.geom, l.point_at, l.point_at)
    &&& l.geom[l.point_at].key == "coordinates"@
    &&& l.geom[l.point_at].value == put('[', point_text(l.point, Seq::empty()))
    &&& is_point(l.point)
}

/// The place that is written so.
pub open spec fn place_of(l: PlaceLayout) -> FeatureText {
    FeatureText { name: l.name, lat: l.point.lat, long: l.point.long }
}

/// However a place is written, it reads back with its name and its coordinates.
pub proof fn law_place_reads_back(l: PlaceLayout, rest: Seq<u8>)
    requires
        is_place(l),
    ensures
        place_at(Token::LCurly, object_text(l.members, Seq::empty(), rest)) == Ok::<
            (Option<FeatureText>, Seq<u8>),
            Failure,
        >((Some(place_of(l)), rest)),
{
    reveal(is_place);
    reveal_strlit("properties");
    reveal_strlit("geometry");
    assert("properties"@.len() != "geometry"@.len());
    let none = Seq::<u8>::empty();
    let point = Some((l.point.lat, l.point.long));
    let found = Seq::new(
        l.members.len() + 1,
        |k: int|
            Findings {
                name: if k > l.properties {
                    Some(l.name)
                } else {
                    None
                },
                coords: if k > l.geometry {
                    point
                } else {
                    None
                },
            },
    );
    assert forall|k: int| 0 <= k < l.members.len() implies acts(
        Level::Feature,
        found[k],
        #[trigger] l.members[k],
        found[k + 1],
    ) by {
        let e = l.members[k];
        assert(is_spaced(e));
        if k == l.properties {
            let f = found[k];
            let inner = Seq::new(
                l.props.len() + 1,
                |x: int|
                    if x > l.name_at {
                        Findings { name: Some(l.name), ..f }
                    } else {
                        f
                    },
            );
            assert forall|x: int| 0 <= x < l.props.len() implies acts(
                Level::Properties,
                inner[x],
                #[trigger] l.props[x],
                inner[x + 1],
            ) by {
                if x == l.name_at {
                    law_name_is_taken(inner[x], l.props[x], l.glyphs);
                } else {
                    law_other_member_changes_nothing(Level::Properties, inner[x], l.props[x]);
                }
            }
            law_parts_are_taken(Level::Properties, e, l.props, none, inner);
            assert(inner.last() == found[k + 1]);
        } else if k == l.geometry {
            let f = found[k];
            let inner = Seq::new(
                l.geom.len() + 1,
                |x: int|
                    if x > l.point_at {
                        Findings { coords: point, ..f }
                    } else {
                        f
                    },
            );
            assert forall|x: int| 0 <= x < l.geom.len() implies acts(
                Level::Geometry,
                inner[x],
                #[trigger] l.geom[x],
                inner[x + 1],
            ) by {
                if x == l.point_at {
                    law_point_is_taken(inner[x], l.geom[x], l.point);
                } else {
                    law_other_member_changes_nothing(Level::Geometry, inner[x], l.geom[x]);
                }
            }
            law_parts_are_taken(Level::Geometry, e, l.geom, none, inner);
            assert(inner.last() == found[k + 1]);
        } else {
            law_other_member_changes_nothing(Level::Feature, found[k], e);
            assert(found[k] == found[k + 1]);
        }
    }
    law_members_are_taken_in_turn(Level::Feature, l.members, none, found, rest);
    assert(found[0] == (Findings { name: None, coords: None }));
}

/// Places parted by commas, the closing bracket, then `rest`.
pub open spec fn places_text(ls: Seq<PlaceLayout>, rest: Seq<u8>) -> Seq<u8>
    decreases ls.len(),
{
    if ls.len() == 0 {
        put(']', rest)
    } else {
        ls[0].before + put(
            '{',
            object_text(
                ls[0].members,
                Seq::empty(),
                ls[0].after + (if ls.len() == 1 {
                    put(']', rest)
                } else {
                    put(',', places_text(ls.skip(1), rest))
                }),
            ),
        )
    }
}

/// The places that are written so.
pub open spec fn places_of(ls: Seq<PlaceLayout>) -> Seq<FeatureText> {
    ls.map_values(|l: PlaceLayout| place_of(l))
}

proof fn lemma_place_gaps(l: PlaceLayout)
    requires
        is_place(l),
    ensures
        is_gap(l.before),
        is_gap(l.after),
{
    reveal(is_place);
}

#[verifier::spinoff_prover]
#[verifier::rlimit(40)]
proof fn lemma_places(found: Seq<FeatureText>, ls: Seq<PlaceLayout>, rest: Seq<u8>)
    requires
        ls.len() > 0,
        forall|k: int| 0 <= k < ls.len() ==> is_place(#[trigger] ls[k]),
    ensures
        next_token(places_text(ls, rest)) is Some,
        (next_token(places_text(ls, rest))->0).0 == Token::LCurly,
        places_from(found, Token::LCurly, (next_token(places_text(ls, rest))->0).1) == (List {
            features: found + places_of(ls),
            end: Ok(rest),
        }),
    decreases ls.len(),
{
    let l = ls[0];
    assert(is_place(l));
    lemma_place_gaps(l);
    let end = if ls.len() == 1 {
        put(']', rest)
    } else {
        put(',', places_text(ls.skip(1), rest))
    };
    let m = l.after + end;
    let s = object_text(l.members, Seq::empty(), m);
    lemma_single(l.before, '{', s);
    law_place_reads_back(l, m);
    lemma_sequence_bound(Level::Feature, Findings { name: None, coords: None }, s);
    let next = found.push(place_of(l));
    if ls.len() == 1 {
        lemma_single(l.after, ']', rest);
        assert(found + places_of(ls) =~= next);
    } else {
        let others = ls.skip(1);
        let more = places_text(others, rest);
        lemma_single(l.after, ',', more);
        assert forall|k: int| 0 <= k < others.len() implies is_place(#[trigger] others[k]) by {
            assert(others[k] == ls[k + 1]);
        }
        lemma_places(next, others, rest);
        assert(found + places_of(ls) =~= next + places_of(others));
    }
}

proof fn lemma_places_join(ls: Seq<PlaceLayout>, m: Seq<u8>)
    ensures
        places_text(ls, Seq::empty()) + m == places_text(ls, m),
    decreases ls.len(),
{
    let none = Seq::<u8>::empty();
    assert(put(']', none) + m =~= put(']', m));
    if ls.len() > 0 {
        let l = ls[0];
        let more = places_text(ls.skip(1), none);
        lemma_places_join(ls.skip(1), m);
        let end = if ls.len() == 1 {
            put(']', none)
        } else {
            put(',', more)
        };
        assert(put(',', more) + m =~= put(',', more + m));
        assert((l.after + end) + m =~= l.after + (end + m));
        lemma_object_rest(l.members, l.after + end, m);
        assert(places_text(ls, none) + m =~= l.before + put(
            '{',
            object_text(l.members, none, l.after + end) + m,
        ));
    }
}

proof fn lemma_object_rest(es: Seq<Entry>, s: Seq<u8>, m: Seq<u8>)
    ensures
        object_text(es, Seq::empty(), s) + m == object_text(es, Seq::empty(), s + m),
{
    let none = Seq::<u8>::empty();
    if es.len() == 0 {
        assert((none + put('}', s)) + m =~= none + put('}', s + m));
    } else {
        lemma_entries_join(es, s);
        lemma_entries_join(es, s + m);
        assert((entries_text(es, none) + s) + m =~= entries_text(es, none) + (s + m));
    }
}

/// How a list of places is written: the members of the whole in any order, with the number of the
/// one that holds the list.
pub struct ListLayout {
    pub before: Seq<u8>,
    pub members: Seq<Entry>,
    pub after: Seq<u8>,
    /// Which member is `features`, and its places.
    pub features: int,
    pub places: Seq<PlaceLayout>,
    /// What an empty list holds.
    pub gap: Seq<u8>,
}

/// The list behind its opening bracket, then `rest`.
pub open spec fn list_text(l: ListLayout, rest: Seq<u8>) -> Seq<u8> {
    if l.places.len() == 0 {
        l.gap + put(']', rest)
    } else {
        places_text(l.places, rest)
    }
}

/// Whether a list of places is written so.
#[verifier::opaque]
pub open spec fn is_list(l: ListLayout) -> bool {
    &&& is_gap(l.before) && is_gap(l.after) && is_gap(l.gap)
    &&& 0 <= l.features < l.members.len()
    &&& forall|k: int| 0 <= k < l.members.len() ==> is_spaced(#[trigger] l.members[k])
    &&& forall|k: int|
        0 <= k < l.members.len() && k != l.features ==> (#[trigger] l.members[k]).key
            != "features"@ && is_value(l.members[k].value)
    &&& l.members[l.features].key == "features"@
    &&& l.members[l.features].value == put('[', list_text(l, Seq::empty()))
    &&& forall|k: int| 0 <= k < l.places.len() ==> is_place(#[trigger] l.places[k])
}

/// The whole text.
pub open spec fn written(l: ListLayout) -> Seq<u8> {
    l.before + put('{', object_text(l.members, Seq::empty(), l.after))
}

pub proof fn lemma_list_parts(l: ListLayout)
    requires
        is_list(l),
    ensures
        is_gap(l.before),
        is_gap(l.after),
        0 <= l.features < l.members.len(),
        forall|k: int| 0 <= k < l.members.len() ==> is_spaced(#[trigger] l.members[k]),
{
    reveal(is_list);
}

/// What a member of the whole leads to.
#[verifier::spinoff_prover]
#[verifier::rlimit(40)]
proof fn lemma_list_member(l: ListLayout, k: int, found: Seq<FeatureText>, m: Seq<u8>)
    requires
        is_list(l),
        0 <= k < l.members.len(),
        follows(m),
    ensures
        member_at(found, Token::Quote, entry_text(l.members[k], m)) == (List {
            features: if k == l.features {
                found + places_of(l.places)
            } else {
                found
            },
            end: Ok(m),
        }),
{
    reveal(is_list);
    let e = l.members[k];
    if k == l.features {
        let none = Seq::<u8>::empty();
        lemma_places_join(l.places, m);
        assert((l.gap + put(']', none)) + m =~= l.gap + put(']', m));
        assert(list_text(l, none) + m =~= list_text(l, m));
        assert(e.value + m =~= put('[', list_text(l, m)));
        lemma_single(none, '[', list_text(l, m));
        lemma_entry(e, m);
        if l.places.len() == 0 {
            lemma_single(l.gap, ']', m);
            assert(found + places_of(l.places) =~= found);
        } else {
            lemma_places(found, l.places, m);
        }
    } else {
        assert(e.key != "features"@ && is_value(e.value));
        lemma_entry(e, m);
    }
}

/// The places that are found before member number `k`.
pub open spec fn found_before(l: ListLayout, k: int) -> Seq<FeatureText> {
    if k > l.features {
        places_of(l.places)
    } else {
        Seq::empty()
    }
}

#[verifier::spinoff_prover]
#[verifier::rlimit(40)]
pub proof fn lemma_list_members(l: ListLayout, k: int, rest: Seq<u8>)
    requires
        is_list(l),
        0 <= k < l.members.len(),
    ensures
        next_token(entries_text(l.members.skip(k), rest)) is Some,
        (next_token(entries_text(l.members.skip(k), rest))->0).0 == Token::Quote,
        members_from(
            found_before(l, k),
            Token::Quote,
            (next_token(entries_text(l.members.skip(k), rest))->0).1,
        ) == (List { features: places_of(l.places), end: Ok(rest) }),
    decreases l.members.len() - k,
{
    let es = l.members.skip(k);
    let e = es[0];
    assert(e == l.members[k]);
    let found = found_before(l, k);
    lemma_list_parts(l);
    let end = if es.len() == 1 {
        put('}', rest)
    } else {
        put(',', entries_text(es.skip(1), rest))
    };
    let m = e.after + end;
    let s = entry_text(e, m);
    assert(is_spaced(e));
    lemma_single(e.before, '"', s);
    assert(Seq::<FeatureText>::empty() + places_of(l.places) =~= places_of(l.places));
    if es.len() == 1 {
        lemma_follows(e.after, '}', rest);
        lemma_single(e.after, '}', rest);
        lemma_list_member(l, k, found, m);
    } else {
        assert(es.skip(1) =~= l.members.skip(k + 1));
        let more = entries_text(es.skip(1), rest);
        lemma_follows(e.after, ',', more);
        lemma_single(e.after, ',', more);
        lemma_list_member(l, k, found, m);
        lemma_list_members(l, k + 1, rest);
    }
}

/// However a list of places is written, it reads back as the same places, in order, with their
/// names and coordinates.
pub proof fn law_written_places_read_back(l: ListLayout)
    requires
        is_list(l),
    ensures
        document(written(l)).features == places_of(l.places),
        document(written(l)).end is Ok,
{
    let none = Seq::<u8>::empty();
    lemma_list_parts(l);
    lemma_single(l.before, '{', object_text(l.members, none, l.after));
    assert(l.members.skip(0) =~= l.members);
    lemma_list_members(l, 0, l.after);
    lemma_gap(l.after, none);
    assert(l.after + none =~= l.after);
    assert(without_blanks(none) =~= none);
}

/// `null`, `true` and `false` are values.
pub proof fn law_literals_are_values()
    ensures
        is_value(seq!['n' as u8, 'u' as u8, 'l' as u8, 'l' as u8]),
        is_value(seq!['t' as u8, 'r' as u8, 'u' as u8, 'e' as u8]),
        is_value(seq!['f' as u8, 'a' as u8, 'l' as u8, 's' as u8, 'e' as u8]),
{
    let null = seq!['n' as u8, 'u' as u8, 'l' as u8, 'l' as u8];
    let yes = seq!['t' as u8, 'r' as u8, 'u' as u8, 'e' as u8];
    let no = seq!['f' as u8, 'a' as u8, 'l' as u8, 's' as u8, 'e' as u8];
    assert forall|m: Seq<u8>| #[trigger] follows(m) implies (next_token(null + m) == Some(
        (Token::Null, m),
    ) && next_token(yes + m) == Some((Token::True, m)) && next_token(no + m) == Some(
        (Token::False, m),
    )) by {
        assert(without_blanks(null + m) =~= null + m);
        assert(without_blanks(yes + m) =~= yes + m);
        assert(without_blanks(no + m) =~= no + m);
        assert((null + m).take(4) =~= null);
        assert((yes + m).take(4) =~= yes);
        assert((no + m).take(5) =~= no);
        assert((null + m).skip(4) =~= m);
        assert((yes + m).skip(4) =~= m);
        assert((no + m).skip(5) =~= m);
    }
}

/// A number is a value.
pub proof fn law_number_is_value(text: Seq<char>)
    requires
        is_number_text(text),
    ensures
        is_value(encode_utf8(text)),
{
    assert forall|m: Seq<u8>| #[trigger] follows(m) implies (next_token(encode_utf8(text) + m)
        matches Some((t, s)) && value(t, s) == Ok::<Seq<u8>, Failure>(m)) by {
        let s = encode_utf8(text) + m;
        lemma_number(text, m);
        assert(s[0] == encode_utf8(text)[0]);
        assert(without_blanks(s) =~= s);
        assert(s.skip(0) =~= s);
        assert(next_token(s) == Some((Token::DigitOrMinus, s)));
    }
}

/// A plain string is a value.
pub proof fn law_string_is_value(text: Seq<char>)
    requires
        is_plain(text),
    ensures
        is_value(quoted(text, Seq::empty())),
{
    assert forall|m: Seq<u8>| #[trigger] follows(m) implies (next_token(
        quoted(text, Seq::empty()) + m,
    ) matches Some((t, s)) && value(t, s) == Ok::<Seq<u8>, Failure>(m)) by {
        let s = encode_utf8(text) + put('"', m);
        assert(quoted(text, Seq::empty()) + m =~= put('"', s));
        lemma_single(Seq::empty(), '"', s);
        lemma_string(text, m);
    }
}

/// A string with escape sequences is a value.
pub proof fn law_written_string_is_value(gs: Seq<Glyph>)
    requires
        all_glyphs(gs),
    ensures
        is_value(quoted(spelled(gs), Seq::empty())),
{
    let v = quoted(spelled(gs), Seq::empty());
    assert forall|m: Seq<u8>| #[trigger] follows(m) implies (next_token(v + m) matches Some((t, s))
        && value(t, s) == Ok::<Seq<u8>, Failure>(m)) by {
        let s = encode_utf8(spelled(gs)) + put('"', m);
        assert(v + m =~= put('"', s));
        lemma_single(Seq::empty(), '"', s);
        law_written_string_reads_back(gs, m);
    }
}

#[verifier::spinoff_prover]
#[verifier::rlimit(40)]
proof fn lemma_object_entries(es: Seq<Entry>, rest: Seq<u8>)
    requires
        es.len() > 0,
        forall|k: int| 0 <= k < es.len() ==> is_spaced(#[trigger] es[k]) && is_value(es[k].value),
    ensures
        next_token(entries_text(es, rest)) is Some,
        (next_token(entries_text(es, rest))->0).0 == Token::Quote,
        elements_from(
            Kind::Object,
            Token::Quote,
            (next_token(entries_text(es, rest))->0).1,
        ) == Ok::<Seq<u8>, Failure>(rest),
    decreases es.len(),
{
    let e = es[0];
    assert(is_spaced(e) && is_value(e.value));
    let end = if es.len() == 1 {
        put('}', rest)
    } else {
        put(',', entries_text(es.skip(1), rest))
    };
    let m = e.after + end;
    let s = entry_text(e, m);
    lemma_single(e.before, '"', s);
    lemma_element_bound(Kind::Object, Token::Quote, s);
    if es.len() == 1 {
        lemma_follows(e.after, '}', rest);
        lemma_single(e.after, '}', rest);
    } else {
        let others = es.skip(1);
        lemma_follows(e.after, ',', entries_text(others, rest));
        lemma_single(e.after, ',', entries_text(others, rest));
        assert forall|k: int| 0 <= k < others.len() implies is_spaced(#[trigger] others[k])
            && is_value(others[k].value) by {
            assert(others[k] == es[k + 1]);
        }
        lemma_object_entries(others, rest);
    }
    assert(follows(m));
    lemma_entry(e, m);
}

/// An object of values is a value.
pub proof fn law_object_is_value(es: Seq<Entry>, gap: Seq<u8>)
    requires
        is_gap(gap),
        forall|k: int| 0 <= k < es.len() ==> is_spaced(#[trigger] es[k]) && is_value(es[k].value),
    ensures
        is_value(put('{', object_text(es, gap, Seq::empty()))),
{
    let v = put('{', object_text(es, gap, Seq::empty()));
    assert forall|m: Seq<u8>| #[trigger] follows(m) implies (next_token(v + m) matches Some((t, s))
        && value(t, s) == Ok::<Seq<u8>, Failure>(m)) by {
        lemma_object_join(es, gap, m);
        lemma_single(Seq::empty(), '{', object_text(es, gap, m));
        if es.len() == 0 {
            lemma_single(gap, '}', m);
        } else {
            lemma_object_entries(es, m);
        }
    }
}

/// An element of an array as it is written.
pub struct Element {
    pub before: Seq<u8>,
    pub value: Seq<u8>,
    pub after: Seq<u8>,
}

/// Whether an element is a value among blanks.
pub open spec fn is_element(v: Element) -> bool {
    is_gap(v.before) && is_gap(v.after) && is_value(v.value)
}

/// Elements parted by commas, the closing bracket, then `rest`.
pub open spec fn elements_text(vs: Seq<Element>, rest: Seq<u8>) -> Seq<u8>
    decreases vs.len(),
{
    if vs.len() == 0 {
        put(']', rest)
    } else {
        vs[0].before + (vs[0].value + (vs[0].after + (if vs.len() == 1 {
            put(']', rest)
        } else {
            put(',', elements_text(vs.skip(1), rest))
        })))
    }
}

proof fn lemma_elements_join(vs: Seq<Element>, m: Seq<u8>)
    ensures
        elements_text(vs, Seq::empty()) + m == elements_text(vs, m),
    decreases vs.len(),
{
    let none = Seq::<u8>::empty();
    assert(put(']', none) + m =~= put(']', m));
    if vs.len() > 0 {
        let v = vs[0];
        let more = elements_text(vs.skip(1), none);
        lemma_elements_join(vs.skip(1), m);
        let end = if vs.len() == 1 {
            put(']', none)
        } else {
            put(',', more)
        };
        assert(put(',', more) + m =~= put(',', more + m));
        assert(elements_text(vs, none) + m =~= v.before + (v.value + (v.after + (end + m))));
    }
}

#[verifier::spinoff_prover]
#[verifier::rlimit(40)]
proof fn lemma_array_elements(vs: Seq<Element>, rest: Seq<u8>)
    requires
        vs.len() > 0,
        forall|k: int| 0 <= k < vs.len() ==> is_element(#[trigger] vs[k]),
    ensures
        next_token(elements_text(vs, rest)) matches Some((t, s)) && t != Token::RSquare
            && elements_from(Kind::Array, t, s) == Ok::<Seq<u8>, Failure>(rest),
    decreases vs.len(),
{
    let v = vs[0];
    assert(is_element(v));
    let end = if vs.len() == 1 {
        put(']', rest)
    } else {
        put(',', elements_text(vs.skip(1), rest))
    };
    let m = v.after + end;
    lemma_gap(v.before, v.value + m);
    if vs.len() == 1 {
        lemma_follows(v.after, ']', rest);
        lemma_single(v.after, ']', rest);
    } else {
        let others = vs.skip(1);
        lemma_follows(v.after, ',', elements_text(others, rest));
        lemma_single(v.after, ',', elements_text(others, rest));
        assert forall|k: int| 0 <= k < others.len() implies is_element(#[trigger] others[k]) by {
            assert(others[k] == vs[k + 1]);
        }
        lemma_array_elements(others, rest);
    }
    assert(follows(m));
    let (t, s) = next_token(v.value + m)->0;
    lemma_element_bound(Kind::Array, t, s);
}

/// An array of values is a value.
pub proof fn law_array_is_value(vs: Seq<Element>, gap: Seq<u8>)
    requires
        is_gap(gap),
        forall|k: int| 0 <= k < vs.len() ==> is_element(#[trigger] vs[k]),
    ensures
        is_value(put('[', gap + put(']', Seq::empty()))),
        is_value(put('[', elements_text(vs, Seq::empty()))),
{
    let none = Seq::<u8>::empty();
    let a = put('[', gap + put(']', none));
    let b = put('[', elements_text(vs, none));
    assert forall|m: Seq<u8>| #[trigger] follows(m) implies (next_token(a + m) matches Some((t, s))
        && value(t, s) == Ok::<Seq<u8>, Failure>(m)) by {
        assert(a + m =~= put('[', gap + put(']', m)));
        lemma_single(none, '[', gap + put(']', m));
        lemma_single(gap, ']', m);
    }
    assert forall|m: Seq<u8>| #[trigger] follows(m) implies (next_token(b + m) matches Some((t, s))
        && value(t, s) == Ok::<Seq<u8>, Failure>(m)) by {
        lemma_elements_join(vs, m);
        assert(b + m =~= put('[', elements_text(vs, m)));
        lemma_single(none, '[', elements_text(vs, m));
        if vs.len() == 0 {
            lemma_single(none, ']', m);
        } else {
            lemma_array_elements(vs, m);
        }
    }
}

} // verus!
