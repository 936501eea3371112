//! Lists of places that are not written as they should be, and the tree that comes of a list that
//! is.

use vstd::prelude::*;
use vstd::utf8::encode_utf8;
use crate::locations::LocTree;
use crate::locations::agree::is_mark;
use crate::locations::geojson::{coordinate, item, member, point, sequence, stopped, FeatureText, Findings, Level, Member};
use crate::locations::json::{all_glyphs, blanks, is_blank, next_token, number_len, spelled, without_blanks, Expect, Failure, Glyph, Token};
use crate::locations::load::{is_node, law_names_read_back, name_data, strings_of};
use crate::locations::place::lemma_sequence_bound;
use crate::locations::source::{after_member, after_place, broken, document, finished, members, next, place_at, places, places_from, At, List, Turn};
use crate::locations::spelling::law_written_string_reads_back;
use crate::locations::value::{after_element, elements, key, Kind};
use crate::locations::written::{acts, entry_text, is_gap, is_list, is_point, is_spaced, law_members_are_taken_in_turn, law_written_places_read_back, lemma_coordinate, lemma_entry, lemma_follows, lemma_gap, lemma_list_members, lemma_list_parts, lemma_single, object_text, places_of, put, written, Entry, ListLayout, PointText};
use crate::text::is_digit;

verus! {

/// What the members of a place lead to makes the place: its name and its point, if both are
/// there. Without a name there is no place; with a name but no point it is refused.
pub proof fn law_findings_make_the_place(
    es: Seq<Entry>,
    gap: Seq<u8>,
    found: Seq<Findings>,
    rest: Seq<u8>,
)
    requires
        is_gap(gap),
        found.len() == es.len() + 1,
        found[0].name is None && found[0].coords is None,
        forall|i: int| 0 <= i < es.len() ==> is_spaced(#[trigger] es[i]),
        forall|i: int|
            0 <= i < es.len() ==> acts(Level::Feature, found[i], #[trigger] es[i], found[i + 1]),
    ensures
        place_at(Token::LCurly, object_text(es, gap, rest)) == (match (
            found.last().name,
            found.last().coords,
        ) {
            (None, _) => Ok::<(Option<FeatureText>, Seq<u8>), Failure>((None, rest)),
            (Some(_), None) => Err(Failure::MissingProperty),
            (Some(name), Some((lat, long))) => Ok((Some(FeatureText { name, lat, long }), rest)),
        }),
{
    law_members_are_taken_in_turn(Level::Feature, es, gap, found, rest);
    assert(found[0] == (Findings { name: None, coords: None }));
}

/// A place without a name is left out of the list. One with a name but without a point ends the
/// reading; the places before it stay.
pub proof fn law_incomplete_place_is_not_in_the_list(
    before: Seq<FeatureText>,
    es: Seq<Entry>,
    gap: Seq<u8>,
    found: Seq<Findings>,
    after: Seq<u8>,
    rest: Seq<u8>,
)
    requires
        is_gap(gap),
        is_gap(after),
        found.len() == es.len() + 1,
        found[0].name is None && found[0].coords is None,
        forall|i: int| 0 <= i < es.len() ==> is_spaced(#[trigger] es[i]),
        forall|i: int|
            0 <= i < es.len() ==> acts(Level::Feature, found[i], #[trigger] es[i], found[i + 1]),
    ensures
        found.last().name is None ==> places_from(
            before,
            Token::LCurly,
            object_text(es, gap, after + put(']', rest)),
        ) == (List { features: before, end: Ok(rest) }),
        found.last().name is Some && found.last().coords is None ==> places_from(
            before,
            Token::LCurly,
            object_text(es, gap, after + put(']', rest)),
        ) == (List { features: before, end: Err(Failure::MissingProperty) }),
{
    let m = after + put(']', rest);
    law_findings_make_the_place(es, gap, found, m);
    lemma_sequence_bound(
        Level::Feature,
        Findings { name: None, coords: None },
        object_text(es, gap, m),
    );
    lemma_single(after, ']', rest);
}

/// A byte that no number starts with is no coordinate.
proof fn lemma_no_coordinate(gap: Seq<u8>, b: u8, rest: Seq<u8>)
    requires
        is_gap(gap),
        !is_blank(b) && !is_digit(b) && b != '-' as u8,
    ensures
        coordinate(gap + (seq![b] + rest)) is None,
{
    let s = seq![b] + rest;
    lemma_gap(gap, s);
    assert(blanks(s) == 0);
    assert(without_blanks(s) =~= s);
    assert(s.skip(0) =~= s);
    assert(number_len(s) is None);
}

/// A point is two numbers: with a third one, with only one, or with something else in the place of
/// one it is refused.
pub proof fn law_point_is_two_numbers(found: Findings, p: PointText, b: u8, rest: Seq<u8>)
    requires
        is_point(p),
        !is_blank(b) && !is_digit(b) && b != '-' as u8,
    ensures
        point(
            found,
            p.before_long + (encode_utf8(p.long) + (p.after_long + put(
                ',',
                p.before_lat + (encode_utf8(p.lat) + (p.after_lat + put(',', rest))),
            ))),
        ) == stopped(found, Failure::Expect(Expect::CommaOrEnd)),
        point(found, p.before_long + (encode_utf8(p.long) + (p.after_long + put(']', rest))))
            == stopped(found, Failure::Expect(Expect::CommaOrEnd)),
        point(found, p.before_long + (seq![b] + rest)) == stopped(found, Failure::InvalidCoords),
        point(
            found,
            p.before_long + (encode_utf8(p.long) + (p.after_long + put(
                ',',
                p.before_lat + (seq![b] + rest),
            ))),
        ) == stopped(found, Failure::InvalidCoords),
{
    let lat = p.before_lat + (encode_utf8(p.lat) + (p.after_lat + put(',', rest)));
    lemma_follows(p.after_long, ',', lat);
    lemma_coordinate(p.before_long, p.long, p.after_long + put(',', lat));
    lemma_single(p.after_long, ',', lat);
    lemma_follows(p.after_lat, ',', rest);
    lemma_coordinate(p.before_lat, p.lat, p.after_lat + put(',', rest));
    lemma_single(p.after_lat, ',', rest);
    lemma_follows(p.after_long, ']', rest);
    lemma_coordinate(p.before_long, p.long, p.after_long + put(']', rest));
    lemma_single(p.after_long, ']', rest);
    lemma_no_coordinate(p.before_long, b, rest);
    let other = p.before_lat + (seq![b] + rest);
    lemma_follows(p.after_long, ',', other);
    lemma_coordinate(p.before_long, p.long, p.after_long + put(',', other));
    lemma_single(p.after_long, ',', other);
    lemma_no_coordinate(p.before_lat, b, rest);
}

/// What the value of a member that means something starts with.
pub open spec fn start_of(level: Level, key: Seq<char>) -> Option<Token> {
    if level == Level::Feature && (key == "properties"@ || key == "geometry"@) {
        Some(Token::LCurly)
    } else if level == Level::Properties && key == "name"@ {
        Some(Token::Quote)
    } else if level == Level::Geometry && key == "coordinates"@ {
        Some(Token::LSquare)
    } else {
        None
    }
}

/// Properties and geometry must be objects, the name must be a string, and the coordinates an
/// array: a member with a value of another kind is refused.
pub proof fn law_value_of_wrong_kind_is_refused(level: Level, found: Findings, e: Entry, m: Seq<u8>)
    requires
        is_spaced(e),
        start_of(level, e.key) is Some,
        next_token(e.value + m) matches Some((t, _)) && Some(t) != start_of(level, e.key),
    ensures
        item(level, found, Token::Quote, entry_text(e, m)) == stopped(
            found,
            Failure::Expect(Expect::Value),
        ),
{
    lemma_entry(e, m);
}

/// The whole text is one object: nothing else may stand in its place, and nothing behind it. The
/// places in it are found all the same.
pub proof fn law_text_is_one_object(l: ListLayout, gap: Seq<u8>, b: u8, rest: Seq<u8>)
    requires
        is_list(l),
        is_gap(gap),
        !is_blank(b),
    ensures
        b != '{' as u8 ==> document(gap + (seq![b] + rest)).features.len() == 0 && document(
            gap + (seq![b] + rest),
        ).end == Err::<(), Failure>(Failure::Expect(Expect::Value)),
        document(
            l.before + put('{', object_text(l.members, Seq::empty(), gap + (seq![b] + rest))),
        ).features == places_of(l.places),
        document(
            l.before + put('{', object_text(l.members, Seq::empty(), gap + (seq![b] + rest))),
        ).end == Err::<(), Failure>(Failure::Expect(Expect::Eof)),
        document(gap).features.len() == 0,
        document(gap).end == Err::<(), Failure>(Failure::Expect(Expect::Value)),
{
    let s = seq![b] + rest;
    lemma_gap(gap, s);
    assert(blanks(s) == 0);
    assert(without_blanks(s) =~= s);
    let none = Seq::<u8>::empty();
    lemma_gap(gap, none);
    assert(gap + none =~= gap);
    assert(without_blanks(none) =~= none);
    lemma_list_parts(l);
    lemma_single(l.before, '{', object_text(l.members, none, gap + s));
    assert(l.members.skip(0) =~= l.members);
    lemma_list_members(l, 0, gap + s);
}

proof fn lemma_mark(gap: Seq<u8>, b: u8, rest: Seq<u8>)
    requires
        is_gap(gap),
        !is_blank(b),
    ensures
        next_token(gap + (seq![b] + rest)) is Some,
        (next_token(gap + (seq![b] + rest))->0).0 == Token::Comma <==> b == 44,
        (next_token(gap + (seq![b] + rest))->0).0 == Token::RSquare <==> b == 93,
        (next_token(gap + (seq![b] + rest))->0).0 == Token::RCurly <==> b == 125,
        (next_token(gap + (seq![b] + rest))->0).0 == Token::LCurly <==> b == 123,
        (next_token(gap + (seq![b] + rest))->0).0 == Token::Quote <==> b == 34,
        (next_token(gap + (seq![b] + rest))->0).0 == Token::Colon <==> b == 58,
{
    let s = seq![b] + rest;
    lemma_gap(gap, s);
    assert(blanks(s) == 0);
    assert(without_blanks(s) =~= s);
}

proof fn lemma_nothing(gap: Seq<u8>)
    requires
        is_gap(gap),
    ensures
        next_token(gap) is None,
{
    let none = Seq::<u8>::empty();
    lemma_gap(gap, none);
    assert(gap + none =~= gap);
    assert(without_blanks(none) =~= none);
}

/// The elements of an array and the members of an object are parted by commas, and the bracket
/// that belongs to the opening one ends them: nothing else may stand behind an element, no comma
/// before the first or behind the last one, and the end may not lack.
pub proof fn law_elements_are_parted_by_commas(
    kind: Kind,
    gap: Seq<u8>,
    more: Seq<u8>,
    b: u8,
    rest: Seq<u8>,
)
    requires
        is_gap(gap),
        is_gap(more),
        !is_blank(b) && b != 44,
        b != (if kind == Kind::Array {
            93
        } else {
            125int
        }),
    ensures
        ({
            let close = if kind == Kind::Array {
                ']'
            } else {
                '}'
            };
            let lacking = Failure::Expect(
                if kind == Kind::Array {
                    Expect::Value
                } else {
                    Expect::String
                },
            );
            &&& after_element(kind, gap + put(close, rest)) == Ok::<Seq<u8>, Failure>(rest)
            &&& after_element(kind, gap + (seq![b] + rest)) == Err::<Seq<u8>, Failure>(
                Failure::Expect(Expect::CommaOrEnd),
            )
            &&& after_element(kind, gap) == Err::<Seq<u8>, Failure>(
                Failure::Expect(Expect::CommaOrEnd),
            )
            &&& after_element(kind, gap + put(',', more + put(close, rest))) == Err::<
                Seq<u8>,
                Failure,
            >(lacking)
            &&& after_element(kind, gap + put(',', more)) == Err::<Seq<u8>, Failure>(
                Failure::Expect(Expect::Value),
            )
            &&& elements(kind, gap) == Err::<Seq<u8>, Failure>(Failure::Expect(Expect::ValueOrEnd))
            &&& elements(kind, gap + put(close, rest)) == Ok::<Seq<u8>, Failure>(rest)
            &&& elements(kind, gap + put(',', rest)) == Err::<Seq<u8>, Failure>(lacking)
        }),
{
    let close = if kind == Kind::Array {
        ']'
    } else {
        '}'
    };
    lemma_single(gap, close, rest);
    lemma_single(more, close, rest);
    lemma_mark(gap, b, rest);
    lemma_nothing(gap);
    lemma_nothing(more);
    lemma_single(gap, ',', more + put(close, rest));
    lemma_single(gap, ',', more);
    lemma_single(gap, ',', rest);
}

/// Places are objects that are parted by commas, up to the closing bracket of the list.
pub proof fn law_places_are_parted_by_commas(
    found: Seq<FeatureText>,
    gap: Seq<u8>,
    more: Seq<u8>,
    b: u8,
    rest: Seq<u8>,
)
    requires
        is_gap(gap),
        is_gap(more),
        !is_blank(b),
    ensures
        b != 44 && b != 93 ==> after_place(found, gap + (seq![b] + rest)) == (List {
            features: found,
            end: Err(Failure::Expect(Expect::CommaOrEnd)),
        }),
        b != 123 ==> after_place(found, gap + put(',', more + (seq![b] + rest))) == (List {
            features: found,
            end: Err(Failure::Expect(Expect::Value)),
        }),
        b != 123 && b != 93 ==> places(found, gap + (seq![b] + rest)) == (List {
            features: found,
            end: Err(Failure::Expect(Expect::Value)),
        }),
        after_place(found, gap + put(']', rest)) == (List { features: found, end: Ok(rest) }),
        places(found, gap + put(']', rest)) == (List { features: found, end: Ok(rest) }),
        after_place(found, gap) == (List {
            features: found,
            end: Err(Failure::Expect(Expect::CommaOrEnd)),
        }),
        places(found, gap) == (List {
            features: found,
            end: Err(Failure::Expect(Expect::ValueOrEnd)),
        }),
{
    lemma_mark(gap, b, rest);
    lemma_mark(more, b, rest);
    lemma_nothing(gap);
    lemma_single(gap, ',', more + (seq![b] + rest));
    lemma_single(gap, ']', rest);
}

/// The members of the whole and of a place are parted by commas, up to the closing bracket.
pub proof fn law_members_are_parted_by_commas(
    found: Seq<FeatureText>,
    level: Level,
    seen: Findings,
    gap: Seq<u8>,
    more: Seq<u8>,
    b: u8,
    rest: Seq<u8>,
)
    requires
        is_gap(gap),
        is_gap(more),
        !is_blank(b),
    ensures
        b != 44 && b != 125 ==> after_member(found, gap + (seq![b] + rest)) == (List {
            features: found,
            end: Err(Failure::Expect(Expect::CommaOrEnd)),
        }),
        b != 34 ==> after_member(found, gap + put(',', more + (seq![b] + rest))) == (List {
            features: found,
            end: Err(Failure::Expect(Expect::String)),
        }),
        b != 34 && b != 125 ==> members(found, gap + (seq![b] + rest)) == (List {
            features: found,
            end: Err(Failure::Expect(Expect::String)),
        }),
        b != 34 && b != 125 ==> sequence(level, seen, gap + (seq![b] + rest)) == stopped(
            seen,
            Failure::Expect(Expect::String),
        ),
        after_member(found, gap + put('}', rest)) == (List { features: found, end: Ok(rest) }),
        after_member(found, gap) == (List {
            features: found,
            end: Err(Failure::Expect(Expect::CommaOrEnd)),
        }),
        members(found, gap) == (List {
            features: found,
            end: Err(Failure::Expect(Expect::ValueOrEnd)),
        }),
        sequence(level, seen, gap) == stopped(seen, Failure::Expect(Expect::ValueOrEnd)),
{
    lemma_mark(gap, b, rest);
    lemma_mark(more, b, rest);
    lemma_nothing(gap);
    lemma_single(gap, ',', more + (seq![b] + rest));
    lemma_single(gap, '}', rest);
}

/// A colon must stand behind the key of a member, and a value behind the colon.
pub proof fn law_key_needs_colon_and_value(gs: Seq<Glyph>, gap: Seq<u8>, more: Seq<u8>, b: u8, rest: Seq<u8>)
    requires
        all_glyphs(gs),
        is_gap(gap),
        is_gap(more),
        !is_blank(b),
        b != 58,
    ensures
        ({
            let quoted = encode_utf8(spelled(gs));
            let other = quoted + put('"', gap + (seq![b] + rest));
            let short = quoted + put('"', gap + put(':', more));
            &&& member(Token::Quote, other) == Err::<Member, Failure>(
                Failure::Expect(Expect::Colon),
            )
            &&& key(Token::Quote, other) == Err::<(Token, Seq<u8>), Failure>(
                Failure::Expect(Expect::Colon),
            )
            &&& member(Token::Quote, short) == Err::<Member, Failure>(
                Failure::Expect(Expect::Value),
            )
            &&& key(Token::Quote, short) == Err::<(Token, Seq<u8>), Failure>(
                Failure::Expect(Expect::Value),
            )
        }),
{
    law_written_string_reads_back(gs, gap + (seq![b] + rest));
    law_written_string_reads_back(gs, gap + put(':', more));
    lemma_mark(gap, b, rest);
    lemma_single(gap, ':', more);
    lemma_nothing(more);
}

/// Where reading breaks off between tokens, what is reported is what would have been for a byte
/// that no token starts with; in a string it is what is reported for its lacking end.
pub proof fn law_break_is_reported_as_what_lacks(at: At)
    ensures
        is_mark(at) ==> next(at, 0) == Turn::Fail(broken(at)),
        at is Key && finished(at) is Err ==> finished(at) == Err::<(), Failure>(broken(at)),
        at matches At::Body(_, nest) ==> nest.quoted && finished(at) is Err ==> finished(at)
            == Err::<(), Failure>(broken(at)),
        at matches At::Skip(_, nest) ==> nest.quoted && finished(at) is Err ==> finished(at)
            == Err::<(), Failure>(broken(at)),
        broken(At::Start) == Failure::Expect(Expect::Value),
        broken(At::End) == Failure::Expect(Expect::Eof),
        broken(At::AfterPlace) == Failure::Expect(Expect::CommaOrEnd),
{
}

/// The tree of a list has a node for each place, with the coordinates that were written for it,
/// and its name stands in the strings file where the node says, unless it is too long or the file
/// is full.
pub proof fn law_tree_holds_the_written_places(l: ListLayout, tree: LocTree, k: int)
    requires
        is_list(l),
        0 <= k < l.places.len(),
        tree.strings@ == strings_of(document(written(l)).features),
        tree.nodes@.len() == document(written(l)).features.len(),
        is_node(tree.nodes@[k], document(written(l)).features, k),
    ensures
        tree.nodes@.len() == l.places.len(),
        tree.nodes@[k].lat@ == l.places[k].point.lat,
        tree.nodes@[k].long@ == l.places[k].point.long,
        encode_utf8(l.places[k].name).len() <= 255 && tree.nodes@[k].data.name_offset
            + tree.nodes@[k].data.name_len <= u32::MAX ==> tree.nodes@[k].data.name_len
            == encode_utf8(l.places[k].name).len() && tree.strings@.subrange(
            tree.nodes@[k].data.name_offset as int,
            tree.nodes@[k].data.name_offset + tree.nodes@[k].data.name_len,
        ) == encode_utf8(l.places[k].name),
{
    law_written_places_read_back(l);
    let features = places_of(l.places);
    assert(features[k].name == l.places[k].name);
    if name_data(features, k).name_offset + name_data(features, k).name_len <= u32::MAX {
        law_names_read_back(features, k);
    }
}

} // verus!
