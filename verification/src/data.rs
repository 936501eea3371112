//! What is shown of the place to go to, and how full the battery is.

use vstd::prelude::*;
use vstd::arithmetic::div_mod::{lemma_div_is_ordered, lemma_fundamental_div_mod};
use crate::locations::LocParseError;
use crate::text::{decimal, ends_with, is_digits, law_end_is_kept, law_decimal_is_the_number, number_of, push_decimal};

verus! {

/// The place to go to.
#[derive(Debug, Clone, Copy, PartialEq, Eq, Structural)]
pub enum Place {
    /// There is no storage card, or no list of places on it, so the way leads to the north pole.
    NoCard,
    /// The list of places is empty, so the way leads to the north pole.
    NoLocations,
    /// The nearest place: what tells it from the others, and how many decimeters it is away.
    Near { tag: usize, dist_dm: u32 },
}

/// What is shown. Angles are of type `A`, in radians.
#[derive(Debug, Clone, PartialEq, Eq)]
pub struct Data<A> {
    /// Which place `name` belongs to.
    pub name_cache_tag: Option<usize>,
    pub name: String,
    pub dist: String,
    pub true_heading_rad: A,
    pub dist_m: u32,
    pub bearing_rad: A,
    pub bat: u8,
}

/// Why nothing can be shown.
#[derive(Debug, PartialEq, Eq)]
pub enum DataError {
    /// The date is none, for this reason.
    InvalidDate(String),
    /// The magnetic declination is not known, for this reason.
    CompassError(String),
    /// The nearest place could not be loaded.
    LocParseError(LocParseError),
}

impl DataError {
    /// What the failure is reported as.
    pub open spec fn text(self) -> Seq<char> {
        match self {
            DataError::InvalidDate(e) => "GPS date was invalid: "@ + e@,
            DataError::CompassError(e) => "error finding magnetic declination: "@ + e@,
            DataError::LocParseError(e) => "could not load nearest location: "@ + e.text(),
        }
    }

    /// What the failure is reported as.
    pub fn message(&self) -> (r: String)
        ensures
            r@ == self.text(),
    {
        match self {
            DataError::InvalidDate(e) => {
                let mut out = "GPS date was invalid: ".to_string();
                out.append(e.as_str());
                out
            },
            DataError::CompassError(e) => {
                let mut out = "error finding magnetic declination: ".to_string();
                out.append(e.as_str());
                out
            },
            DataError::LocParseError(e) => {
                let mut out = "could not load nearest location: ".to_string();
                out.append(e.message().as_str());
                out
            },
        }
    }
}

impl From<LocParseError> for DataError {
    fn from(value: LocParseError) -> (r: DataError) {
        DataError::LocParseError(value)
    }
}

impl vstd::std_specs::convert::FromSpecImpl<LocParseError> for DataError {
    open spec fn obeys_from_spec() -> bool {
        true
    }

    open spec fn from_spec(value: LocParseError) -> DataError {
        DataError::LocParseError(value)
    }
}

/// How a distance is shown: from a kilometer and a half on in kilometers, below in meters,
/// with one decimal that is not rounded.
pub open spec fn distance_text(dist_dm: nat) -> Seq<char> {
    if dist_dm >= 15000 {
        decimal(dist_dm / 10000) + "."@ + decimal((dist_dm % 10000) / 1000) + " km"@
    } else {
        decimal(dist_dm / 10) + "."@ + decimal(dist_dm % 10) + " m"@
    }
}

/// Shows a distance.
pub fn show_distance(dist_dm: u32) -> (r: String)
    ensures
        r@ == distance_text(dist_dm as nat),
{
    let mut out = String::new();
    if dist_dm >= 15000 {
        push_decimal(&mut out, dist_dm / 10000);
        out.append(".");
        push_decimal(&mut out, (dist_dm % 10000) / 1000);
        out.append(" km");
    } else {
        push_decimal(&mut out, dist_dm / 10);
        out.append(".");
        push_decimal(&mut out, dist_dm % 10);
        out.append(" m");
    }
    proof {
        assert(out@ =~= distance_text(dist_dm as nat));
    }
    out
}

/// Whether the name of `place` has to be read from the storage card, as it is not the one that
/// is `cached`.
pub open spec fn needs_name(place: Place, cached: Option<(usize, String)>) -> bool {
    match (place, cached) {
        (Place::Near { tag, .. }, Some((t, _))) => t != tag,
        (Place::Near { .. }, None) => true,
        _ => false,
    }
}

/// Whether the name of `place` has to be read from the storage card, as it is not the one that
/// is `cached`.
pub fn wants_name(place: Place, cached: &Option<(usize, String)>) -> (r: bool)
    ensures
        r == needs_name(place, *cached),
{
    match place {
        Place::Near { tag, .. } => match cached {
            Some((t, _)) => *t != tag,
            None => true,
        },
        _ => false,
    }
}

/// Puts together what is shown.
///
/// `cached` is the name shown last, with the place that it belongs to. `loaded` is what reading
/// the name of `place` gave, where it has to be read. `position` is the own position as text and
/// `pole_m` the way to the north pole in meters: both are shown where there is no place to go to.
/// `bat_raw` is what [`bat_level_25`] takes.
pub fn parse_and_calc<A>(
    place: Place,
    cached: Option<(usize, String)>,
    loaded: Option<Result<String, LocParseError>>,
    position: String,
    pole_m: u32,
    true_heading_rad: A,
    bearing_rad: A,
    bat_raw: (u16, (u16, u16)),
) -> (r: Result<Data<A>, DataError>)
    requires
        needs_name(place, cached) ==> loaded is Some,
        bat_raw.1.0 < bat_raw.1.1,
    ensures
        r is Err <==> needs_name(place, cached) && loaded->0 is Err,
        r matches Err(e) ==> e == DataError::LocParseError((loaded->0)->Err_0),
        r matches Ok(data) ==> {
            &&& data.true_heading_rad == true_heading_rad
            &&& data.bearing_rad == bearing_rad
            &&& data.bat == level(bat_raw.0 as int, bat_raw.1.0 as int, bat_raw.1.1 as int)
            &&& match place {
                Place::NoCard => {
                    &&& data.name_cache_tag is None
                    &&& data.name@ == "No SD"@
                    &&& data.dist@ == position@
                    &&& data.dist_m == pole_m
                },
                Place::NoLocations => {
                    &&& data.name_cache_tag is None
                    &&& data.name@ == "No Locs"@
                    &&& data.dist@ == position@
                    &&& data.dist_m == pole_m
                },
                Place::Near { tag, dist_dm } => {
                    &&& data.name_cache_tag == Some(tag)
                    &&& data.name@ == (if needs_name(place, cached) {
                        (loaded->0)->Ok_0@
                    } else {
                        (cached->0).1@
                    })
                    &&& data.dist@ == distance_text(dist_dm as nat)
                    &&& data.dist_m == dist_dm / 10
                },
            }
        },
{
    let bat = bat_level_25(bat_raw.0, bat_raw.1);
    let needed = wants_name(place, &cached);
    let (name_cache_tag, name, dist, dist_m) = match place {
        Place::Near { tag, dist_dm } => {
            let name = match (cached, loaded) {
                (Some((_, name)), _) if !needed => name,
                (_, Some(Ok(name))) => name,
                (_, Some(Err(e))) => {
                    return Err(DataError::LocParseError(e));
                },
                (_, None) => String::new(),
            };
            (Some(tag), name, show_distance(dist_dm), dist_dm / 10)
        },
        Place::NoLocations => (None, "No Locs".to_string(), position, pole_m),
        Place::NoCard => (None, "No SD".to_string(), position, pole_m),
    };
    Ok(Data { name_cache_tag, name, dist, true_heading_rad, dist_m, bearing_rad, bat })
}

/// What is kept of a name for the next time: the place that it belongs to, and the name.
pub open spec fn is_kept<A>(cached: Option<(usize, String)>, data: Data<A>) -> bool {
    match data.name_cache_tag {
        Some(tag) => cached == Some((tag, data.name)),
        None => cached is None,
    }
}

/// What is kept of what was shown for the next time.
pub fn name_cache<A>(data: Data<A>) -> (r: Option<(usize, String)>)
    ensures
        is_kept(r, data),
{
    match data.name_cache_tag {
        Some(tag) => Some((tag, data.name)),
        None => None,
    }
}

/// As long as the same place is the nearest, its name is read only once.
pub proof fn law_name_is_read_once<A>(data: Data<A>, cached: Option<(usize, String)>, place: Place)
    requires
        is_kept(cached, data),
        place is Near,
    ensures
        needs_name(place, cached) <==> data.name_cache_tag != Some(place->tag),
        !needs_name(place, cached) ==> (cached->0).1 == data.name,
{
}

/// No name is read where there is no place to go to.
pub proof fn law_no_place_needs_no_name(place: Place, cached: Option<(usize, String)>)
    ensures
        needs_name(place, cached) ==> place is Near,
        place is Near && cached is None ==> needs_name(place, cached),
{
}

/// What was said of the reason is said at the end of the message, and the three kinds of failure
/// have different messages.
pub proof fn law_message_gives_the_reason(reason: String, e: LocParseError, other: String)
    ensures
        ends_with(DataError::InvalidDate(reason).text(), reason@),
        ends_with(DataError::CompassError(reason).text(), reason@),
        ends_with(DataError::LocParseError(e).text(), e.text()),
        DataError::InvalidDate(reason).text() != DataError::CompassError(other).text(),
        DataError::InvalidDate(reason).text() != DataError::LocParseError(e).text(),
        DataError::CompassError(reason).text() != DataError::LocParseError(e).text(),
{
    reveal_strlit("GPS date was invalid: ");
    reveal_strlit("error finding magnetic declination: ");
    reveal_strlit("could not load nearest location: ");
    law_end_is_kept("GPS date was invalid: "@, reason@);
    law_end_is_kept("error finding magnetic declination: "@, reason@);
    law_end_is_kept("could not load nearest location: "@, e.text());
    assert(DataError::InvalidDate(reason).text()[0] == 'G');
    assert(DataError::CompassError(reason).text()[0] == 'e');
    assert(DataError::CompassError(other).text()[0] == 'e');
    assert(DataError::LocParseError(e).text()[0] == 'c');
}

/// Twenty-five times the charge of a lithium polymer cell, where `counts` of `range` counts of
/// 6.6 V are measured. Below 3.85 V, which is 7/12 of the range, the charge is three times the
/// volts less 11; from there on it is 1.3 times the volts less 4.45.
pub open spec fn charge_25(counts: int, range: int) -> int {
    if 12 * counts < 7 * range {
        if 495 * counts / range < 275 {
            0
        } else {
            495 * counts / range - 275
        }
    } else {
        429 * counts / (2 * range) - 111
    }
}

/// The counts above those at no voltage.
pub open spec fn counts_above(raw: int, zero: int) -> int {
    if raw < zero {
        0
    } else {
        raw - zero
    }
}

/// The battery level of `raw` counts, where `zero` counts stand for no voltage and `full` counts
/// for 6.6 V. Only its last eight bits are kept.
pub open spec fn level(raw: int, zero: int, full: int) -> int {
    charge_25(counts_above(raw, zero), full - zero) % 256
}

proof fn lemma_charge_parts(counts: int, range: int)
    requires
        0 <= counts,
        0 < range,
    ensures
        12 * counts < 7 * range ==> 0 <= charge_25(counts, range) <= 13,
        12 * counts >= 7 * range ==> 14 <= charge_25(counts, range),
        counts <= range ==> charge_25(counts, range) <= 103,
{
    if 12 * counts < 7 * range {
        let q = 495 * counts / range;
        lemma_fundamental_div_mod(495 * counts, range);
        assert(q <= 288) by (nonlinear_arith)
            requires
                495 * counts == range * q + (495 * counts) % range,
                0 <= (495 * counts) % range,
                12 * counts <= 7 * range,
                0 < range,
        ;
    } else {
        let q = 429 * counts / (2 * range);
        lemma_fundamental_div_mod(429 * counts, 2 * range);
        assert(q >= 125) by (nonlinear_arith)
            requires
                429 * counts == (2 * range) * q + (429 * counts) % (2 * range),
                (429 * counts) % (2 * range) < 2 * range,
                12 * counts >= 7 * range,
                0 < range,
        ;
        if counts <= range {
            assert(q <= 214) by (nonlinear_arith)
                requires
                    429 * counts == (2 * range) * q + (429 * counts) % (2 * range),
                    0 <= (429 * counts) % (2 * range),
                    counts <= range,
                    0 < range,
            ;
        }
    }
}

/// More voltage is never less charge.
pub proof fn law_charge_is_monotone(a: int, b: int, range: int)
    requires
        0 <= a <= b,
        0 < range,
    ensures
        0 <= charge_25(a, range) <= charge_25(b, range),
{
    lemma_charge_parts(a, range);
    lemma_charge_parts(b, range);
    lemma_div_is_ordered(495 * a, 495 * b, range);
    lemma_div_is_ordered(429 * a, 429 * b, 2 * range);
}

/// A higher measurement is never a lower level, as long as the charge fits in eight bits.
pub proof fn law_level_is_monotone(a: int, b: int, zero: int, full: int)
    requires
        a <= b,
        zero < full,
        charge_25(counts_above(b, zero), full - zero) < 256,
    ensures
        level(a, zero, full) <= level(b, zero, full),
{
    law_charge_is_monotone(counts_above(a, zero), counts_above(b, zero), full - zero);
}

/// Within the range that can be measured the level is that of the charge, and at most 103.
pub proof fn law_level_in_range(raw: int, zero: int, full: int)
    requires
        zero < full,
        raw <= full,
    ensures
        level(raw, zero, full) == charge_25(counts_above(raw, zero), full - zero),
        0 <= level(raw, zero, full) <= 103,
{
    lemma_charge_parts(counts_above(raw, zero), full - zero);
}

/// The battery level, where a full battery is at 25. `range` holds the counts for no voltage
/// and for 6.6 V.
pub fn bat_level_25(raw_val: u16, range: (u16, u16)) -> (r: u8)
    requires
        range.0 < range.1,
    ensures
        r == level(raw_val as int, range.0 as int, range.1 as int),
{
    let range_abs = (range.1 - range.0) as u32;
    let measure_shifted = raw_val.saturating_sub(range.0) as u32;
    proof {
        lemma_charge_parts(measure_shifted as int, range_abs as int);
    }
    if 12 * measure_shifted < 7 * range_abs {
        let charge: u32 = ((495 * measure_shifted) / range_abs).saturating_sub(275);
        (charge % 256) as u8
    } else {
        let charge: u32 = (429 * measure_shifted) / (2 * range_abs) - 111;
        (charge % 256) as u8
    }
}

/// Whether `text` is a number with one decimal and a unit: `whole` before the point, `tenth`
/// behind it.
pub open spec fn is_measure(text: Seq<char>, whole: Seq<char>, tenth: char, unit: Seq<char>) -> bool {
    &&& is_digits(whole)
    &&& '0' <= tenth <= '9'
    &&& text == whole + seq!['.', tenth, ' '] + unit
}

/// The digits in the text of a distance, before and behind its point.
pub open spec fn distance_digits(dist_dm: nat) -> (Seq<char>, char) {
    if dist_dm >= 15000 {
        (decimal(dist_dm / 10000), decimal((dist_dm % 10000) / 1000)[0])
    } else {
        (decimal(dist_dm / 10), decimal(dist_dm % 10)[0])
    }
}

/// The text of a distance reads back. Below a kilometer and a half it is in meters, and exact to
/// the decimeter; from there on it is in kilometers, and what is below 100 m is left out.
pub proof fn law_distance_reads_back(dist_dm: nat)
    ensures
        dist_dm < 15000 ==> exists|whole: Seq<char>, tenth: char|
            is_measure(distance_text(dist_dm), whole, tenth, seq!['m']) && 10 * number_of(whole)
                + (tenth as int - '0' as int) == dist_dm,
        dist_dm >= 15000 ==> exists|whole: Seq<char>, tenth: char|
            is_measure(distance_text(dist_dm), whole, tenth, seq!['k', 'm']) && 10000 * number_of(
                whole,
            ) + 1000 * (tenth as int - '0' as int) == dist_dm - dist_dm % 1000,
{
    reveal_strlit(".");
    reveal_strlit(" m");
    reveal_strlit(" km");
    let (whole, tenth) = distance_digits(dist_dm);
    if dist_dm >= 15000 {
        let d = (dist_dm % 10000) / 1000;
        law_decimal_is_the_number(dist_dm / 10000);
        law_decimal_is_the_number(d);
        assert(decimal(d) =~= seq![tenth]);
        lemma_one_digit(tenth);
        assert(distance_text(dist_dm) =~= whole + seq!['.', tenth, ' '] + seq!['k', 'm']);
        assert('0' <= decimal(d)[0] <= '9');
        assert(is_measure(distance_text(dist_dm), whole, tenth, seq!['k', 'm']));
    } else {
        let d = dist_dm % 10;
        law_decimal_is_the_number(dist_dm / 10);
        law_decimal_is_the_number(d);
        assert(decimal(d) =~= seq![tenth]);
        lemma_one_digit(tenth);
        assert(distance_text(dist_dm) =~= whole + seq!['.', tenth, ' '] + seq!['m']);
        assert('0' <= decimal(d)[0] <= '9');
        assert(is_measure(distance_text(dist_dm), whole, tenth, seq!['m']));
    }
}

proof fn lemma_one_digit(c: char)
    ensures
        number_of(seq![c]) == c as int - '0' as int,
{
    assert(seq![c].drop_last() =~= Seq::<char>::empty());
    reveal_with_fuel(number_of, 2);
}

proof fn lemma_measure_is_one(
    text: Seq<char>,
    a: Seq<char>,
    x: char,
    b: Seq<char>,
    y: char,
    unit: Seq<char>,
)
    requires
        is_measure(text, a, x, unit),
        is_measure(text, b, y, unit),
    ensures
        a == b,
        x == y,
{
    assert(text.len() == a.len() + 3 + unit.len());
    assert(text.len() == b.len() + 3 + unit.len());
    assert(a =~= text.take(a.len() as int));
    assert(b =~= text.take(b.len() as int));
    assert(text[a.len() as int + 1] == x);
    assert(text[b.len() as int + 1] == y);
}

/// Different distances below a kilometer and a half have different texts.
pub proof fn law_near_distances_differ(a: nat, b: nat)
    requires
        a < 15000,
        b < 15000,
        a != b,
    ensures
        distance_text(a) != distance_text(b),
{
    law_distance_reads_back(a);
    law_distance_reads_back(b);
    let unit = seq!['m'];
    let (p, x) = choose|whole: Seq<char>, tenth: char|
        is_measure(distance_text(a), whole, tenth, unit) && 10 * number_of(whole) + (tenth as int
            - '0' as int) == a;
    let (q, y) = choose|whole: Seq<char>, tenth: char|
        is_measure(distance_text(b), whole, tenth, unit) && 10 * number_of(whole) + (tenth as int
            - '0' as int) == b;
    if distance_text(a) == distance_text(b) {
        lemma_measure_is_one(distance_text(a), p, x, q, y, unit);
    }
}

/// The charge follows two lines, rounded down: with `v` volts for `counts` of `range` counts of
/// 6.6 V, below 3.85 V it is 25 times 3 v - 11, but not less than nothing; from there on it is 25
/// times 1.3 v, less 111.
pub proof fn law_charge_follows_the_lines(counts: int, range: int)
    requires
        0 <= counts,
        0 < range,
    ensures
        12 * counts < 7 * range && 495 * counts < 275 * range ==> charge_25(counts, range) == 0,
        12 * counts < 7 * range && 495 * counts >= 275 * range ==> range * (charge_25(counts, range)
            + 275) <= 495 * counts < range * (charge_25(counts, range) + 276),
        12 * counts >= 7 * range ==> 2 * range * (charge_25(counts, range) + 111) <= 429 * counts
            < 2 * range * (charge_25(counts, range) + 112),
{
    let q = 495 * counts / range;
    let h = 429 * counts / (2 * range);
    lemma_fundamental_div_mod(495 * counts, range);
    lemma_fundamental_div_mod(429 * counts, 2 * range);
    assert(0 <= (495 * counts) % range < range);
    assert(0 <= (429 * counts) % (2 * range) < 2 * range);
    assert(range * q <= 495 * counts < range * (q + 1)) by (nonlinear_arith)
        requires
            495 * counts == range * q + (495 * counts) % range,
            0 <= (495 * counts) % range < range,
    ;
    assert(2 * range * h <= 429 * counts < 2 * range * (h + 1)) by (nonlinear_arith)
        requires
            429 * counts == (2 * range) * h + (429 * counts) % (2 * range),
            0 <= (429 * counts) % (2 * range) < 2 * range,
    ;
    if 495 * counts < 275 * range {
        assert(q < 275) by (nonlinear_arith)
            requires
                range * q <= 495 * counts,
                495 * counts < 275 * range,
                0 < range,
        ;
    } else {
        assert(q >= 275) by (nonlinear_arith)
            requires
                495 * counts < range * (q + 1),
                495 * counts >= 275 * range,
                0 < range,
        ;
    }
}

/// Whatever is measured, the level is the charge but for its bits above the eighth.
pub proof fn law_level_keeps_eight_bits(raw: int, zero: int, full: int)
    requires
        zero < full,
    ensures
        0 <= level(raw, zero, full) < 256,
        (charge_25(counts_above(raw, zero), full - zero) - level(raw, zero, full)) % 256 == 0,
        raw >= zero ==> counts_above(raw, zero) == raw - zero,
        raw <= zero ==> counts_above(raw, zero) == 0,
{
}

/// Only how far a measurement is above that of no voltage counts, and one below it counts as none.
pub proof fn law_level_counts_from_zero(raw: int, zero: int, full: int, shift: int)
    ensures
        level(raw + shift, zero + shift, full + shift) == level(raw, zero, full),
        raw <= zero ==> level(raw, zero, full) == level(zero, zero, full),
{
}

} // verus!
