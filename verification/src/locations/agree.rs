//! Reading a list of places byte by byte leads to what the grammar says of the whole text.

use vstd::prelude::*;
use crate::locations::cut::{ends, lemma_token_cut, lemma_value_cut};
use crate::locations::extent::{end_at, is_last, lemma_past_token, lemma_past_value, within};
use crate::locations::geojson::{feature_at, lemma_member_bound, member, place_found, sequence, FeatureText, Findings, Level};
use crate::locations::json::{blanks, is_blank, lemma_blanks_bound, lemma_next_token_bound, lemma_quote_at_bound, next_token, quote_at, string_text, without_blanks, Expect, Failure, Token};
use crate::locations::place::{lemma_past_sequence, lemma_sequence_bound, lemma_sequence_cut};
use crate::locations::source::{after_member, after_place, document, finished, member_at, members, members_from, next, outside, place_at, places, places_from, run, skipped, with_place, At, List, Nest, Parsed, Turn};
use crate::locations::value::{lemma_value_bound, value};

verus! {

proof fn lemma_run_key(found: Seq<FeatureText>, held: Seq<u8>, escaped: bool, s: Seq<u8>)
    ensures
        run(found, At::Key(held, escaped), s) == (match quote_at(s, escaped) {
            Some(n) => match string_text(held + s.take(n as int)) {
                Ok(key) => run(found, At::Colon(key == "features"@), s.skip(n as int)),
                Err(f) => Parsed { features: found, end: Err(f) },
            },
            None => Parsed { features: found, end: finished(At::Key(held + s, false)) },
        }),
    decreases s.len(),
{
    if s.len() == 0 {
        assert(held + s =~= held);
    } else if !escaped && s[0] == '"' as u8 {
        assert(held.push(s[0]) =~= held + s.take(1));
    } else {
        let t = s.skip(1);
        let next = !escaped && s[0] == '\\' as u8;
        lemma_run_key(found, held.push(s[0]), next, t);
        assert(held.push(s[0]) + t =~= held + s);
        if let Some(n) = quote_at(t, next) {
            lemma_quote_at_bound(t, next);
            assert(held.push(s[0]) + t.take(n as int) =~= held + s.take(n as int + 1));
            assert(t.skip(n as int) =~= s.skip(n as int + 1));
        }
    }
}

proof fn lemma_end_at_bound(nest: Nest, comma: bool, s: Seq<u8>)
    ensures
        end_at(nest, comma, s) matches Some(n) ==> 0 < n <= s.len() && ends(
            nest,
            comma,
            s.take(n as int),
        ),
    decreases s.len(),
{
    reveal(end_at);
    if s.len() > 0 && !nest.is_ended_by(s[0], comma) {
        let t = s.skip(1);
        lemma_end_at_bound(nest.after(s[0]), comma, t);
        if let Some(n) = end_at(nest.after(s[0]), comma, t) {
            assert(s.take(n as int + 1)[0] == s[0]);
            assert(s.take(n as int + 1).skip(1) =~= t.take(n as int));
        }
    } else if s.len() > 0 {
        assert(s.take(1)[0] == s[0]);
    }
}

proof fn lemma_run_body(found: Seq<FeatureText>, held: Seq<u8>, nest: Nest, s: Seq<u8>)
    ensures
        run(found, At::Body(held, nest), s) == (match end_at(nest, false, s) {
            Some(n) => match feature_at(held + s.take(n as int)) {
                Ok(f) => run(with_place(found, f), At::AfterPlace, s.skip(n as int)),
                Err(f) => Parsed { features: found, end: Err(f) },
            },
            None => Parsed { features: found, end: finished(At::Body(held + s, outside())) },
        }),
    decreases s.len(),
{
    reveal(end_at);
    if s.len() == 0 {
        assert(held + s =~= held);
    } else if nest.is_ended_by(s[0], false) {
        assert(held.push(s[0]) =~= held + s.take(1));
    } else {
        let t = s.skip(1);
        let after = nest.after(s[0]);
        lemma_run_body(found, held.push(s[0]), after, t);
        assert(held.push(s[0]) + t =~= held + s);
        if let Some(n) = end_at(after, false, t) {
            lemma_end_at_bound(after, false, t);
            assert(held.push(s[0]) + t.take(n as int) =~= held + s.take(n as int + 1));
            assert(t.skip(n as int) =~= s.skip(n as int + 1));
        }
    }
}

/// What a turn leads to, with `s` behind it.
spec fn resumed(found: Seq<FeatureText>, turn: Turn, s: Seq<u8>) -> Parsed {
    match turn {
        Turn::On(at) => run(found, at, s),
        Turn::Found(f, at) => run(found.push(f), at, s),
        Turn::Fail(f) => Parsed { features: found, end: Err(f) },
    }
}

proof fn lemma_run_skip(found: Seq<FeatureText>, held: Seq<u8>, nest: Nest, s: Seq<u8>)
    ensures
        run(found, At::Skip(held, nest), s) == (match end_at(nest, true, s) {
            Some(n) => resumed(found, skipped(held + s.take(n as int)), s.skip(n as int)),
            None => Parsed { features: found, end: finished(At::Skip(held + s, outside())) },
        }),
    decreases s.len(),
{
    reveal(end_at);
    if s.len() == 0 {
        assert(held + s =~= held);
    } else if nest.is_ended_by(s[0], true) {
        assert(held.push(s[0]) =~= held + s.take(1));
    } else {
        let t = s.skip(1);
        let after = nest.after(s[0]);
        lemma_run_skip(found, held.push(s[0]), after, t);
        assert(held.push(s[0]) + t =~= held + s);
        if let Some(n) = end_at(after, true, t) {
            lemma_end_at_bound(after, true, t);
            assert(held.push(s[0]) + t.take(n as int) =~= held + s.take(n as int + 1));
            assert(t.skip(n as int) =~= s.skip(n as int + 1));
        }
    }
}

/// The end of the whole: nothing but blanks may follow.
pub open spec fn closed(l: List) -> Parsed {
    Parsed {
        features: l.features,
        end: match l.end {
            Ok(rest) => if next_token(rest) is None {
                Ok(())
            } else {
                Err(Failure::Expect(Expect::Eof))
            },
            Err(f) => Err(f),
        },
    }
}

/// The members that follow one.
pub open spec fn then_members(l: List) -> Parsed {
    match l.end {
        Ok(rest) => closed(after_member(l.features, rest)),
        Err(f) => Parsed { features: l.features, end: Err(f) },
    }
}

pub open spec fn failed(found: Seq<FeatureText>, x: Expect) -> List {
    List { features: found, end: Err(Failure::Expect(x)) }
}

/// The value of a member that starts with the token `t` before `s`.
pub open spec fn member_value(found: Seq<FeatureText>, list: bool, t: Token, s: Seq<u8>) -> List {
    if !list {
        List { features: found, end: value(t, s) }
    } else if t != Token::LSquare {
        failed(found, Expect::Value)
    } else {
        places(found, s)
    }
}

/// What the grammar says of `s`, where the reading stands at `at`.
pub open spec fn by_grammar(found: Seq<FeatureText>, at: At, s: Seq<u8>) -> Parsed {
    match at {
        At::Start => match next_token(s) {
            Some((Token::LCurly, s1)) => closed(members(found, s1)),
            _ => closed(failed(found, Expect::Value)),
        },
        At::FirstMember => closed(members(found, s)),
        At::Member => match next_token(s) {
            Some((t, s1)) => closed(members_from(found, t, s1)),
            None => closed(failed(found, Expect::Value)),
        },
        At::Colon(list) => match next_token(s) {
            Some((Token::Colon, s1)) => match next_token(s1) {
                Some((t, s2)) => then_members(member_value(found, list, t, s2)),
                None => closed(failed(found, Expect::Value)),
            },
            _ => closed(failed(found, Expect::Colon)),
        },
        At::List => match next_token(s) {
            Some((t, s1)) => then_members(member_value(found, true, t, s1)),
            None => closed(failed(found, Expect::Value)),
        },
        At::FirstPlace => then_members(places(found, s)),
        At::Place => match next_token(s) {
            Some((t, s1)) => then_members(places_from(found, t, s1)),
            None => closed(failed(found, Expect::Value)),
        },
        At::AfterPlace => then_members(after_place(found, s)),
        At::AfterMember => closed(after_member(found, s)),
        _ => closed(List { features: found, end: Ok(s) }),
    }
}

/// Whether a single byte is next.
pub open spec fn is_mark(at: At) -> bool {
    !(at is Key || at is Skip || at is Body)
}

proof fn lemma_blank_first(s: Seq<u8>)
    requires
        s.len() > 0,
        is_blank(s[0]),
    ensures
        next_token(s) == next_token(s.skip(1)),
{
    lemma_blanks_bound(s.skip(1));
    assert(s.skip(1).skip(blanks(s.skip(1)) as int) =~= s.skip(blanks(s) as int));
}

/// The token that a text starts with which does not start with a blank.
proof fn lemma_mark(s: Seq<u8>)
    requires
        s.len() > 0,
        !is_blank(s[0]),
    ensures
        next_token(s) is Some,
        ({
            let (t, s1) = next_token(s)->0;
            &&& t == Token::LCurly <==> s[0] == '{' as u8
            &&& t == Token::RCurly <==> s[0] == '}' as u8
            &&& t == Token::LSquare <==> s[0] == '[' as u8
            &&& t == Token::RSquare <==> s[0] == ']' as u8
            &&& t == Token::Quote <==> s[0] == '"' as u8
            &&& t == Token::Comma <==> s[0] == ',' as u8
            &&& t == Token::Colon <==> s[0] == ':' as u8
            &&& (t == Token::LCurly || t == Token::RCurly || t == Token::LSquare || t
                == Token::RSquare || t == Token::Quote || t == Token::Comma || t == Token::Colon)
                ==> s1 == s.skip(1)
        }),
{
    assert(without_blanks(s) =~= s);
}

proof fn lemma_places_from_bound(found: Seq<FeatureText>, t: Token, s: Seq<u8>)
    ensures
        places_from(found, t, s).end matches Ok(r) ==> r.len() <= s.len(),
    decreases s.len(), 1nat,
{
    let nothing = Findings { name: None, coords: None };
    lemma_sequence_bound(Level::Feature, nothing, s);
    if let Ok((f, s1)) = place_at(t, s) {
        lemma_after_place_bound(with_place(found, f), s1);
    }
}

proof fn lemma_after_place_bound(found: Seq<FeatureText>, s: Seq<u8>)
    ensures
        after_place(found, s).end matches Ok(r) ==> r.len() <= s.len(),
    decreases s.len(), 0nat,
{
    lemma_next_token_bound(s);
    if let Some((t, s1)) = next_token(s) {
        lemma_next_token_bound(s1);
        if let Some((t2, s2)) = next_token(s1) {
            if t == Token::Comma {
                lemma_places_from_bound(found, t2, s2);
            }
        }
    }
}

proof fn lemma_member_at_bound(found: Seq<FeatureText>, t: Token, s: Seq<u8>)
    ensures
        member_at(found, t, s).end matches Ok(r) ==> r.len() <= s.len(),
        closed(members_from(found, t, s)) == then_members(member_at(found, t, s)),
{
    lemma_member_bound(t, s);
    if let Ok(m) = member(t, s) {
        lemma_value_bound(m.token, m.rest);
        lemma_next_token_bound(m.rest);
        if let Some((t1, s1)) = next_token(m.rest) {
            lemma_places_from_bound(found, t1, s1);
        }
    }
}

/// A member that is passed over: the bytes up to the one behind it are read by themselves.
proof fn lemma_skip_agrees(found: Seq<FeatureText>, s: Seq<u8>)
    requires
        forall|at: At, rest: Seq<u8>|
            is_mark(at) && rest.len() < s.len() ==> #[trigger] run(found, at, rest) == by_grammar(
                found,
                at,
                rest,
            ),
    ensures
        run(found, At::Skip(Seq::empty(), outside()), s) == (match next_token(s) {
            Some((t, s1)) => then_members(List { features: found, end: value(t, s1) }),
            None => closed(failed(found, Expect::Value)),
        }),
{
    let none = Seq::<u8>::empty();
    lemma_run_skip(found, none, outside(), s);
    lemma_end_at_bound(outside(), true, s);
    lemma_past_token(0, true, s);
    lemma_next_token_bound(s);
    match end_at(outside(), true, s) {
        None => {
            assert(none + s =~= s);
            if let Some((t, s1)) = next_token(s) {
                lemma_past_value(t, s1, 0, true);
                lemma_value_bound(t, s1);
                if let Ok(r) = value(t, s1) {
                    lemma_past_token(0, true, r);
                    lemma_next_token_bound(r);
                }
            }
        },
        Some(n) => {
            let p = s.take(n as int);
            let m = s.skip(n as int);
            assert(none + p =~= p);
            assert(p + m =~= s);
            lemma_token_cut(0, true, p, m);
            let (t, q) = next_token(p)->0;
            lemma_value_cut(t, q, m, 0, true);
            lemma_past_value(t, q, 0, true);
            lemma_value_bound(t, q);
            if let Ok(q2) = value(t, q) {
                assert(ends(within(0), true, q2));
                lemma_token_cut(0, true, q2, m);
                let (t2, q3) = next_token(q2)->0;
                if is_last(t2, 0, true) {
                    assert(q3 + m =~= m);
                    assert(run(found, At::Member, m) == by_grammar(found, At::Member, m));
                    assert(run(found, At::End, m) == by_grammar(found, At::End, m));
                }
            }
        },
    }
}

/// A place: the bytes up to its closing bracket are read by themselves.
proof fn lemma_body_agrees(found: Seq<FeatureText>, s: Seq<u8>)
    requires
        forall|f: Seq<FeatureText>, rest: Seq<u8>|
            rest.len() < s.len() ==> #[trigger] run(f, At::AfterPlace, rest) == by_grammar(
                f,
                At::AfterPlace,
                rest,
            ),
    ensures
        run(found, At::Body(Seq::empty(), outside()), s) == then_members(
            places_from(found, Token::LCurly, s),
        ),
{
    let none = Seq::<u8>::empty();
    let nothing = Findings { name: None, coords: None };
    lemma_run_body(found, none, outside(), s);
    lemma_end_at_bound(outside(), false, s);
    lemma_past_sequence(Level::Feature, nothing, s);
    match end_at(outside(), false, s) {
        None => {
            assert(none + s =~= s);
        },
        Some(n) => {
            let p = s.take(n as int);
            let m = s.skip(n as int);
            assert(none + p =~= p);
            assert(p + m =~= s);
            lemma_sequence_cut(Level::Feature, nothing, p, m);
            lemma_past_sequence(Level::Feature, nothing, p);
            lemma_sequence_bound(Level::Feature, nothing, p);
            let whole = sequence(Level::Feature, nothing, p);
            if let Ok(q) = whole.end {
                assert(q.len() == 0);
                assert(q + m =~= m);
                if let Ok(f) = place_found(whole.found) {
                    assert(run(with_place(found, f), At::AfterPlace, m) == by_grammar(
                        with_place(found, f),
                        At::AfterPlace,
                        m,
                    ));
                }
            }
        },
    }
}

/// A key: the bytes up to its last quote are read by themselves.
proof fn lemma_key_agrees(found: Seq<FeatureText>, s: Seq<u8>)
    requires
        forall|at: At, rest: Seq<u8>|
            is_mark(at) && rest.len() < s.len() ==> #[trigger] run(found, at, rest) == by_grammar(
                found,
                at,
                rest,
            ),
    ensures
        run(found, At::Key(Seq::empty(), false), s) == closed(
            members_from(found, Token::Quote, s),
        ),
{
    let none = Seq::<u8>::empty();
    lemma_run_key(found, none, false, s);
    lemma_quote_at_bound(s, false);
    lemma_member_at_bound(found, Token::Quote, s);
    match quote_at(s, false) {
        None => {
            assert(none + s =~= s);
        },
        Some(n) => {
            assert(none + s.take(n as int) =~= s.take(n as int));
            let rest = s.skip(n as int);
            if let Ok(key) = string_text(s.take(n as int)) {
                let at = At::Colon(key == "features"@);
                assert(run(found, at, rest) == by_grammar(found, at, rest));
            }
        },
    }
}

/// Reading goes on as the grammar says, wherever a single byte is next.
proof fn lemma_run_agrees(found: Seq<FeatureText>, at: At, s: Seq<u8>)
    requires
        is_mark(at),
    ensures
        run(found, at, s) == by_grammar(found, at, s),
    decreases s.len(),
{
    if s.len() == 0 {
        assert(without_blanks(s) =~= s);
    } else if is_blank(s[0]) {
        lemma_blank_first(s);
        lemma_run_agrees(found, at, s.skip(1));
    } else {
        let s1 = s.skip(1);
        lemma_mark(s);
        assert forall|f: Seq<FeatureText>, a: At, rest: Seq<u8>|
            is_mark(a) && rest.len() < s.len() implies #[trigger] run(f, a, rest) == by_grammar(
            f,
            a,
            rest,
        ) by {
            lemma_run_agrees(f, a, rest);
        }
        match at {
            At::FirstMember => lemma_key_agrees(found, s1),
            At::Member => lemma_key_agrees(found, s1),
            At::Colon(list) => {
                if !list {
                    lemma_skip_agrees(found, s1);
                }
            },
            At::FirstPlace => lemma_body_agrees(found, s1),
            At::Place => lemma_body_agrees(found, s1),
            _ => {},
        }
        match next(at, s[0]) {
            Turn::On(a) => {
                if is_mark(a) {
                    assert(run(found, a, s1) == by_grammar(found, a, s1));
                }
            },
            _ => {},
        }
    }
}

/// Reading any text byte by byte finds the places that the grammar finds in the whole, and fails
/// exactly where and as it does.
pub proof fn law_reading_follows_the_grammar(s: Seq<u8>)
    ensures
        run(Seq::empty(), At::Start, s) == document(s),
{
    lemma_run_agrees(Seq::empty(), At::Start, s);
}

} // verus!
