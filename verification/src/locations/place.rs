//! Places read out of part of a text. Counting brackets outside strings finds the end of every
//! place that the grammar reads, and what the grammar reads up to there does not depend on what
//! follows.

use vstd::prelude::*;
use crate::locations::cut::{ends, ends_behind, lemma_blanks_cut, lemma_number_cut, lemma_string_cut, lemma_token_cut, lemma_value_cut, same};
use crate::locations::extent::{behind, end_at, in_string, is_last, later, lemma_later, lemma_past_blanks, lemma_past_number, lemma_past_string, lemma_past_token, lemma_past_value, within};
use crate::locations::geojson::{coordinate, item, items, lemma_member_bound, lemma_string_at_bound, member, point, sequence, Findings, Level, Outcome};
use crate::locations::json::{blanks, last_bytes, lemma_blanks_bound, lemma_next_token_bound, lemma_number_len_bound, lemma_quote_at_bound, next_token, number_len, string_at, without_blanks, Token};
use crate::locations::value::{is_end, lemma_end_of_end, lemma_value_bound};

verus! {

/// How many arrays and objects within a place are open on `level`.
pub open spec fn depth(level: Level) -> nat {
    if level == Level::Feature {
        0
    } else {
        1
    }
}

pub proof fn lemma_coordinate_bound(s: Seq<u8>)
    ensures
        coordinate(s) matches Some((_, r)) ==> is_end(r, s) && r.len() < s.len(),
{
    lemma_blanks_bound(s);
    let t = without_blanks(s);
    lemma_number_len_bound(t);
    if let Some(n) = number_len(t) {
        assert(t.skip(n as int) =~= last_bytes(s, (t.len() - n) as nat));
    }
}

pub proof fn lemma_point_bound(found: Findings, s: Seq<u8>)
    ensures
        point(found, s).end matches Ok(r) ==> is_end(r, s),
{
    lemma_coordinate_bound(s);
    if let Some((_, s1)) = coordinate(s) {
        lemma_next_token_bound(s1);
        if let Some((_, s2)) = next_token(s1) {
            lemma_end_of_end(s2, s1, s);
            lemma_coordinate_bound(s2);
            if let Some((_, s3)) = coordinate(s2) {
                lemma_end_of_end(s3, s2, s);
                lemma_next_token_bound(s3);
                if let Some((_, s4)) = next_token(s3) {
                    lemma_end_of_end(s4, s3, s);
                }
            }
        }
    }
}

pub proof fn lemma_item_bound(level: Level, found: Findings, t: Token, s: Seq<u8>)
    ensures
        item(level, found, t, s).end matches Ok(r) ==> is_end(r, s),
    decreases s.len(), 3 * level.height(),
{
    lemma_member_bound(t, s);
    if let Ok(m) = member(t, s) {
        let rest = m.rest;
        lemma_value_bound(m.token, rest);
        lemma_string_at_bound(rest);
        lemma_point_bound(found, rest);
        if level == Level::Feature {
            lemma_sequence_bound(Level::Properties, found, rest);
            lemma_sequence_bound(Level::Geometry, found, rest);
        }
        if let Ok(r) = item(level, found, t, s).end {
            assert(is_end(r, rest));
            lemma_end_of_end(r, rest, s);
        }
    }
}

pub proof fn lemma_items_bound(level: Level, found: Findings, t: Token, s: Seq<u8>)
    ensures
        items(level, found, t, s).end matches Ok(r) ==> is_end(r, s),
        item(level, found, t, s).end matches Ok(s1) ==> (next_token(s1) matches Some((Token::Comma, s2))
            ==> (next_token(s2) matches Some((_, s3)) ==> s3.len() < s.len())),
    decreases s.len(), 3 * level.height() + 1,
{
    lemma_item_bound(level, found, t, s);
    let one = item(level, found, t, s);
    if let Ok(s1) = one.end {
        lemma_next_token_bound(s1);
        if let Some((end, s2)) = next_token(s1) {
            lemma_end_of_end(s2, s1, s);
            lemma_next_token_bound(s2);
            if let Some((t3, s3)) = next_token(s2) {
                lemma_end_of_end(s3, s2, s);
                if end == Token::Comma {
                    lemma_items_bound(level, one.found, t3, s3);
                    if let Ok(r) = items(level, one.found, t3, s3).end {
                        lemma_end_of_end(r, s3, s);
                    }
                }
            }
        }
    }
}

pub proof fn lemma_sequence_bound(level: Level, found: Findings, s: Seq<u8>)
    ensures
        sequence(level, found, s).end matches Ok(r) ==> is_end(r, s),
    decreases s.len(), 3 * level.height() + 2,
{
    lemma_next_token_bound(s);
    if let Some((t, s1)) = next_token(s) {
        lemma_items_bound(level, found, t, s1);
        if let Ok(r) = items(level, found, t, s1).end {
            lemma_end_of_end(r, s1, s);
        }
    }
}

pub proof fn lemma_past_coordinate(k: nat, s: Seq<u8>)
    ensures
        coordinate(s) matches Some((_, r)) ==> end_at(within(k), false, s) == later(
            end_at(within(k), false, r),
            s.len() - r.len(),
        ),
{
    let t = without_blanks(s);
    lemma_past_blanks(k, false, s);
    lemma_number_len_bound(t);
    if let Some(n) = number_len(t) {
        lemma_past_number(k, false, t);
        lemma_later(end_at(within(k), false, t.skip(n as int)), n as int, blanks(s) as int);
    }
}

pub proof fn lemma_past_point(found: Findings, s: Seq<u8>)
    ensures
        point(found, s).end matches Ok(r) ==> end_at(within(2), false, s) == later(
            end_at(within(1), false, r),
            s.len() - r.len(),
        ),
{
    lemma_past_coordinate(2, s);
    lemma_coordinate_bound(s);
    if let Some((_, s1)) = coordinate(s) {
        lemma_next_token_bound(s1);
        lemma_past_token(2, false, s1);
        if let Some((_, s2)) = next_token(s1) {
            lemma_past_coordinate(2, s2);
            lemma_coordinate_bound(s2);
            if let Some((_, s3)) = coordinate(s2) {
                lemma_next_token_bound(s3);
                lemma_past_token(2, false, s3);
                if let Some((_, s4)) = next_token(s3) {
                    let o = end_at(within(1), false, s4);
                    lemma_later(o, s3.len() - s4.len(), s2.len() - s3.len());
                    lemma_later(o, s2.len() - s4.len(), s1.len() - s2.len());
                    lemma_later(o, s1.len() - s4.len(), s.len() - s1.len());
                }
            }
        }
    }
}

pub proof fn lemma_past_member(t: Token, s: Seq<u8>, k: nat)
    ensures
        member(t, s) matches Ok(m) ==> t == Token::Quote && (!is_last(m.token, k, false) ==> end_at(
            in_string(k),
            false,
            s,
        ) == later(end_at(behind(m.token, k), false, m.rest), s.len() - m.rest.len())),
{
    lemma_string_at_bound(s);
    lemma_quote_at_bound(s, false);
    lemma_past_string(k, false, s, false);
    if let Ok((_, s1)) = string_at(s) {
        lemma_past_token(k, false, s1);
        lemma_next_token_bound(s1);
        if let Some((_, s2)) = next_token(s1) {
            lemma_past_token(k, false, s2);
            lemma_next_token_bound(s2);
            if let Some((t3, s3)) = next_token(s2) {
                let o = end_at(behind(t3, k), false, s3);
                lemma_later(o, s2.len() - s3.len(), s1.len() - s2.len());
                lemma_later(o, s1.len() - s3.len(), s.len() - s1.len());
            }
        }
    }
}

#[verifier::spinoff_prover]
#[verifier::rlimit(60)]
pub proof fn lemma_past_item(level: Level, found: Findings, t: Token, s: Seq<u8>)
    ensures
        item(level, found, t, s).end matches Ok(r) ==> end_at(behind(t, depth(level)), false, s)
            == later(end_at(within(depth(level)), false, r), s.len() - r.len()),
    decreases s.len(), 3 * level.height(),
{
    let k = depth(level);
    lemma_member_bound(t, s);
    lemma_past_member(t, s, k);
    if let Ok(m) = member(t, s) {
        let rest = m.rest;
        lemma_value_bound(m.token, rest);
        lemma_past_value(m.token, rest, k, false);
        lemma_string_at_bound(rest);
        lemma_quote_at_bound(rest, false);
        lemma_past_string(k, false, rest, false);
        lemma_point_bound(found, rest);
        lemma_past_point(found, rest);
        if level == Level::Feature {
            lemma_sequence_bound(Level::Properties, found, rest);
            lemma_sequence_bound(Level::Geometry, found, rest);
            lemma_past_sequence(Level::Properties, found, rest);
            lemma_past_sequence(Level::Geometry, found, rest);
        }
        if let Ok(r) = item(level, found, t, s).end {
            assert(!is_last(m.token, k, false));
            assert(end_at(behind(m.token, k), false, rest) == later(
                end_at(within(k), false, r),
                rest.len() - r.len(),
            ));
            lemma_later(end_at(within(k), false, r), rest.len() - r.len(), s.len() - rest.len());
        }
    }
}

/// Where a level ends that is read up to `r` out of `s`.
pub open spec fn closing(level: Level, s: Seq<u8>, r: Seq<u8>) -> Option<nat> {
    if level == Level::Feature {
        Some((s.len() - r.len()) as nat)
    } else {
        later(end_at(within(0), false, r), s.len() - r.len())
    }
}

#[verifier::spinoff_prover]
#[verifier::rlimit(60)]
pub proof fn lemma_past_items(level: Level, found: Findings, t: Token, s: Seq<u8>)
    ensures
        items(level, found, t, s).end matches Ok(r) ==> end_at(behind(t, depth(level)), false, s)
            == closing(level, s, r),
    decreases s.len(), 3 * level.height() + 1,
{
    let k = depth(level);
    lemma_item_bound(level, found, t, s);
    lemma_items_bound(level, found, t, s);
    lemma_past_item(level, found, t, s);
    let one = item(level, found, t, s);
    if let Ok(s1) = one.end {
        lemma_next_token_bound(s1);
        lemma_past_token(k, false, s1);
        if let Some((end, s2)) = next_token(s1) {
            if end == Token::RCurly {
                lemma_later(end_at(within(0), false, s2), s1.len() - s2.len(), s.len() - s1.len());
            } else if end == Token::Comma {
                lemma_next_token_bound(s2);
                lemma_past_token(k, false, s2);
                if let Some((t3, s3)) = next_token(s2) {
                    lemma_past_items(level, one.found, t3, s3);
                    lemma_items_bound(level, one.found, t3, s3);
                    if let Ok(r) = items(level, one.found, t3, s3).end {
                        lemma_items_start(level, one.found, t3, s3);
                        let o = end_at(behind(t3, k), false, s3);
                        lemma_later(o, s2.len() - s3.len(), s1.len() - s2.len());
                        lemma_later(o, s1.len() - s3.len(), s.len() - s1.len());
                        lemma_later(
                            end_at(within(0), false, r),
                            s3.len() - r.len(),
                            s.len() - s3.len(),
                        );
                    }
                }
            }
        }
    }
}

/// Members start with a quote.
pub proof fn lemma_items_start(level: Level, found: Findings, t: Token, s: Seq<u8>)
    ensures
        items(level, found, t, s).end is Ok ==> t == Token::Quote,
{
    assert(item(level, found, t, s).end is Ok ==> member(t, s) is Ok);
}

pub proof fn lemma_past_sequence(level: Level, found: Findings, s: Seq<u8>)
    ensures
        sequence(level, found, s).end matches Ok(r) ==> end_at(within(depth(level)), false, s)
            == closing(level, s, r),
    decreases s.len(), 3 * level.height() + 2,
{
    let k = depth(level);
    lemma_next_token_bound(s);
    lemma_past_token(k, false, s);
    if let Some((t, s1)) = next_token(s) {
        if t != Token::RCurly {
            lemma_past_items(level, found, t, s1);
            lemma_items_bound(level, found, t, s1);
            lemma_items_start(level, found, t, s1);
            if let Ok(r) = items(level, found, t, s1).end {
                lemma_later(end_at(within(0), false, r), s1.len() - r.len(), s.len() - s1.len());
            }
        }
    }
}

/// Whether reading led to the same, but for `m` behind it.
pub open spec fn same_outcome(a: Outcome, b: Outcome, m: Seq<u8>) -> bool {
    a.found == b.found && same(a.end, b.end, m)
}

pub proof fn lemma_coordinate_cut(k: nat, p: Seq<u8>, m: Seq<u8>)
    requires
        ends(within(k), false, p),
    ensures
        match (coordinate(p), coordinate(p + m)) {
            (Some((a, q)), Some((b, r))) => a == b && r == q + m && ends(within(k), false, q),
            (None, None) => true,
            _ => false,
        },
{
    lemma_past_blanks(k, false, p);
    lemma_token_cut(k, false, p, m);
    lemma_blanks_bound(p);
    let b = without_blanks(p);
    lemma_blanks_cut(p, m);
    assert(without_blanks(p + m) =~= b + m);
    assert(ends(within(k), false, b));
    lemma_number_cut(k, false, b, m);
    if let Some(n) = number_len(b) {
        lemma_past_number(k, false, b);
        assert((b + m).take(n as int) =~= b.take(n as int));
    }
}

pub proof fn lemma_point_cut(found: Findings, p: Seq<u8>, m: Seq<u8>)
    requires
        ends(within(2), false, p),
    ensures
        same_outcome(point(found, p), point(found, p + m), m),
{
    lemma_coordinate_cut(2, p, m);
    if let Some((_, q1)) = coordinate(p) {
        lemma_token_cut(2, false, q1, m);
        if let Some((Token::Comma, q2)) = next_token(q1) {
            lemma_coordinate_cut(2, q2, m);
            if let Some((_, q3)) = coordinate(q2) {
                lemma_token_cut(2, false, q3, m);
            }
        }
    }
}

pub proof fn lemma_member_cut(t: Token, p: Seq<u8>, m: Seq<u8>, k: nat)
    requires
        ends_behind(t, k, false, p),
    ensures
        match (member(t, p), member(t, p + m)) {
            (Ok(a), Ok(b)) => {
                &&& a.key == b.key
                &&& a.token == b.token
                &&& b.rest == a.rest + m
                &&& ends_behind(a.token, k, false, a.rest)
            },
            (Err(f), Err(g)) => f == g,
            _ => false,
        },
{
    if t == Token::Quote {
        lemma_string_cut(k, false, p, m);
        if let Ok((_, q)) = string_at(p) {
            lemma_token_cut(k, false, q, m);
            let (t2, q2) = next_token(q)->0;
            if t2 == Token::Colon {
                lemma_token_cut(k, false, q2, m);
            }
        }
    }
}

#[verifier::spinoff_prover]
#[verifier::rlimit(60)]
pub proof fn lemma_item_cut(level: Level, found: Findings, t: Token, p: Seq<u8>, m: Seq<u8>)
    requires
        ends_behind(t, depth(level), false, p),
    ensures
        same_outcome(item(level, found, t, p), item(level, found, t, p + m), m),
    decreases p.len(), 3 * level.height(),
{
    let k = depth(level);
    lemma_member_cut(t, p, m, k);
    lemma_member_bound(t, p);
    if let Ok(a) = member(t, p) {
        if level == Level::Feature && a.key == "properties"@ {
            if a.token == Token::LCurly {
                lemma_sequence_cut(Level::Properties, found, a.rest, m);
            }
        } else if level == Level::Feature && a.key == "geometry"@ {
            if a.token == Token::LCurly {
                lemma_sequence_cut(Level::Geometry, found, a.rest, m);
            }
        } else if level == Level::Properties && a.key == "name"@ {
            if a.token == Token::Quote {
                lemma_string_cut(k, false, a.rest, m);
            }
        } else if level == Level::Geometry && a.key == "coordinates"@ {
            if a.token == Token::LSquare {
                lemma_point_cut(found, a.rest, m);
            }
        } else {
            lemma_value_cut(a.token, a.rest, m, k, false);
        }
    }
}

#[verifier::spinoff_prover]
#[verifier::rlimit(60)]
pub proof fn lemma_items_cut(level: Level, found: Findings, t: Token, p: Seq<u8>, m: Seq<u8>)
    requires
        ends_behind(t, depth(level), false, p),
    ensures
        same_outcome(items(level, found, t, p), items(level, found, t, p + m), m),
    decreases p.len(), 3 * level.height() + 1,
{
    let k = depth(level);
    lemma_item_cut(level, found, t, p, m);
    lemma_item_bound(level, found, t, p);
    lemma_items_bound(level, found, t, p);
    lemma_items_bound(level, found, t, p + m);
    lemma_past_item(level, found, t, p);
    let one = item(level, found, t, p);
    if let Ok(q) = one.end {
        assert(member(t, p) is Ok && t == Token::Quote);
        assert(ends(within(k), false, q));
        lemma_token_cut(k, false, q, m);
        lemma_next_token_bound(q);
        let (end, q2) = next_token(q)->0;
        if end == Token::Comma {
            lemma_token_cut(k, false, q2, m);
            lemma_next_token_bound(q2);
            let (t3, q3) = next_token(q2)->0;
            lemma_items_cut(level, one.found, t3, q3, m);
        }
    }
}

pub proof fn lemma_sequence_cut(level: Level, found: Findings, p: Seq<u8>, m: Seq<u8>)
    requires
        ends(within(depth(level)), false, p),
    ensures
        same_outcome(sequence(level, found, p), sequence(level, found, p + m), m),
    decreases p.len(), 3 * level.height() + 2,
{
    lemma_token_cut(depth(level), false, p, m);
    lemma_next_token_bound(p);
    let (t, q) = next_token(p)->0;
    if t != Token::RCurly {
        lemma_items_cut(level, found, t, q, m);
    }
}

} // verus!
