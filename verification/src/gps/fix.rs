//! What a sentence of the receiver says on the position, and what it does to what is known.

use vstd::prelude::*;
use vstd::string::StringSliceAdditionalSpecFns;
use vstd::utf8::{decode_utf8, is_ascii_chars_encode_utf8, is_char_boundary_iff_not_is_continuation_byte, is_continuation_byte, valid_utf8, valid_utf8_split};
use crate::date::{is_date, Date};
use crate::gps::{GpsError, ReadErrorType};
use crate::gps::link::{lemma_test_is_acknowledged, wait_begins, AckWait, MAX_ACK_SENTENCES};
use crate::gps::sentence::{frame, framed};
use crate::text::{all_digits, contents, digits_value, fields, is_digit, is_float, joined, law_fields_join_back, law_joined_fields_are_parted, parse_signed, parse_unsigned, piece, read_utf8, reads_as_float, same_bytes, signed, split, unsigned};

verus! {

/// A time of day, as written: hours, minutes, and seconds with their fraction.
#[derive(Debug, PartialEq, Eq)]
pub struct Clock {
    pub hours: Vec<u8>,
    pub minutes: Vec<u8>,
    pub seconds: Vec<u8>,
}

/// A latitude or longitude, as written: degrees and minutes, to the south or west where
/// `negative`.
#[derive(Debug, PartialEq, Eq)]
pub struct Coordinate {
    pub degrees: Vec<u8>,
    pub minutes: Vec<u8>,
    pub negative: bool,
}

/// A height above the ellipsoid in meters, as written: the height above the geoid and that
/// of the geoid, which add up to it.
#[derive(Debug, PartialEq, Eq)]
pub struct Height {
    pub altitude: Vec<u8>,
    pub separation: Vec<u8>,
}

/// What the model of a [`Clock`] holds.
pub struct ClockText {
    pub hours: Seq<u8>,
    pub minutes: Seq<u8>,
    pub seconds: Seq<u8>,
}

/// What the model of a [`Coordinate`] holds.
pub struct CoordinateText {
    pub degrees: Seq<u8>,
    pub minutes: Seq<u8>,
    pub negative: bool,
}

/// What the model of a [`Height`] holds.
pub struct HeightText {
    pub altitude: Seq<u8>,
    pub separation: Seq<u8>,
}

impl View for Clock {
    type V = ClockText;

    open spec fn view(&self) -> ClockText {
        ClockText { hours: self.hours@, minutes: self.minutes@, seconds: self.seconds@ }
    }
}

impl View for Coordinate {
    type V = CoordinateText;

    open spec fn view(&self) -> CoordinateText {
        CoordinateText {
            degrees: self.degrees@,
            minutes: self.minutes@,
            negative: self.negative,
        }
    }
}

impl View for Height {
    type V = HeightText;

    open spec fn view(&self) -> HeightText {
        HeightText { altitude: self.altitude@, separation: self.separation@ }
    }
}

impl ClockText {
    /// Every part reads as a number.
    pub open spec fn wf(self) -> bool {
        is_float(self.hours) && is_float(self.minutes) && is_float(self.seconds)
    }
}

impl CoordinateText {
    /// Every part reads as a number.
    pub open spec fn wf(self) -> bool {
        is_float(self.degrees) && is_float(self.minutes)
    }
}

impl HeightText {
    /// Every part reads as a number.
    pub open spec fn wf(self) -> bool {
        is_float(self.altitude) && is_float(self.separation)
    }
}

/// How the reading of a part of a sentence comes out.
#[derive(Debug, Clone, Copy, PartialEq, Eq, Structural)]
pub enum Check {
    /// It is as it should be.
    Pass,
    /// It is not.
    Malformed,
    /// It cannot be read: it is cut where it has no character, or it leads to a number that
    /// is too great to compute with.
    Unreadable,
}

impl Check {
    /// How two parts come out that are read one after the other: the second is not looked at
    /// unless the first is as it should be.
    pub open spec fn and(self, next: Check) -> Check {
        if self == Check::Pass {
            next
        } else {
            self
        }
    }

    fn and_check(self, next: Check) -> (r: Check)
        ensures
            r == self.and(next),
    {
        match self {
            Check::Pass => next,
            _ => self,
        }
    }
}

/// Whether a character of the UTF-8 text `s` starts at `i`, or the text ends there.
pub open spec fn is_cut(s: Seq<u8>, i: int) -> bool {
    0 <= i <= s.len() && (i == s.len() || !is_continuation_byte(s[i]))
}

/// Whether the text `s` has a part from `from` to `to`.
pub open spec fn has_part(s: Seq<u8>, from: int, to: int) -> bool {
    from <= to && is_cut(s, from) && is_cut(s, to)
}

/// How the part of `s` from `from` to `to` comes out, which should read as a number.
pub open spec fn number_check(s: Seq<u8>, from: int, to: int) -> Check {
    if !has_part(s, from, to) {
        Check::Unreadable
    } else if is_float(s.subrange(from, to)) {
        Check::Pass
    } else {
        Check::Malformed
    }
}

/// How `s` comes out, which should be one of two letters.
pub open spec fn letter_check(s: Seq<u8>, plus: char, minus: char) -> Check {
    if s == seq![plus as u8] || s == seq![minus as u8] {
        Check::Pass
    } else {
        Check::Malformed
    }
}

/// How the fields for time and position come out: `hhmmss.sss`, `ddmm.mmmm`, `N` or `S`,
/// `dddmm.mmmm`, `E` or `W`.
pub open spec fn fix_check(
    time: Seq<u8>,
    lat: Seq<u8>,
    ns: Seq<u8>,
    long: Seq<u8>,
    ew: Seq<u8>,
) -> Check {
    number_check(time, 0, 2).and(number_check(time, 2, 4)).and(
        number_check(time, 4, time.len() as int),
    ).and(letter_check(ns, 'N', 'S')).and(number_check(lat, 0, 2)).and(
        number_check(lat, 2, lat.len() as int),
    ).and(letter_check(ew, 'E', 'W')).and(number_check(long, 0, 3)).and(
        number_check(long, 3, long.len() as int),
    )
}

/// The time in a field that comes out well.
pub open spec fn clock_of(time: Seq<u8>) -> ClockText {
    ClockText {
        hours: time.subrange(0, 2),
        minutes: time.subrange(2, 4),
        seconds: time.subrange(4, time.len() as int),
    }
}

/// The latitude in fields that come out well.
pub open spec fn latitude_of(lat: Seq<u8>, ns: Seq<u8>) -> CoordinateText {
    CoordinateText {
        degrees: lat.subrange(0, 2),
        minutes: lat.subrange(2, lat.len() as int),
        negative: ns == seq!['S' as u8],
    }
}

/// The longitude in fields that come out well.
pub open spec fn longitude_of(long: Seq<u8>, ew: Seq<u8>) -> CoordinateText {
    CoordinateText {
        degrees: long.subrange(0, 3),
        minutes: long.subrange(3, long.len() as int),
        negative: ew == seq!['W' as u8],
    }
}

/// How the fields for the height come out, whose units should be meters.
pub open spec fn height_check(
    alt: Seq<u8>,
    alt_unit: Seq<u8>,
    sep: Seq<u8>,
    sep_unit: Seq<u8>,
) -> Check {
    if is_float(alt) && is_float(sep) && alt_unit == seq!['M' as u8] && sep_unit
        == seq!['M' as u8] {
        Check::Pass
    } else {
        Check::Malformed
    }
}

/// The year in the field for the date, of this century or any other; the month; the day.
pub open spec fn date_numbers(d: Seq<u8>) -> (Option<int>, Option<nat>, Option<nat>) {
    (
        match signed(d.subrange(4, d.len() as int)) {
            Some(y) => Some(2000 + y),
            None => None,
        },
        unsigned(d.subrange(2, 4), 0xff),
        unsigned(d.subrange(0, 2), 0xff),
    )
}

/// How the field for the date comes out: `ddmmyy`.
pub open spec fn date_check(d: Seq<u8>) -> Check {
    let (year, month, day) = date_numbers(d);
    if !has_part(d, 4, d.len() as int) {
        Check::Unreadable
    } else if year is None {
        Check::Malformed
    } else if year->0 > i32::MAX || !has_part(d, 2, 4) {
        Check::Unreadable
    } else if month is None || !(1 <= month->0 <= 12) {
        Check::Malformed
    } else if !has_part(d, 0, 2) {
        Check::Unreadable
    } else if day is None || !is_date(year->0, month->0 as int, day->0 as int) {
        Check::Malformed
    } else {
        Check::Pass
    }
}

/// The date in a field that comes out well.
pub open spec fn date_of(d: Seq<u8>) -> Date {
    let (year, month, day) = date_numbers(d);
    Date { year: year->0 as i32, month: month->0 as u8, day: day->0 as u8 }
}

/// What a sentence says.
pub enum Report {
    /// There is no fix.
    NoFix,
    /// A fix, with the height.
    Position { time: ClockText, lat: CoordinateText, long: CoordinateText, hgt: HeightText },
    /// A fix, with the date.
    Dated { time: ClockText, lat: CoordinateText, long: CoordinateText, date: Date },
    /// Not what its name promises.
    Malformed,
    /// A sentence of another name.
    Unexpected(Seq<char>),
    /// Nothing that can be read.
    Unreadable,
}

/// What a `GPGGA` sentence with the fields `fs` says. The seventh field is `0` without a fix.
pub open spec fn gga_report(fs: Seq<Seq<u8>>) -> Report {
    if fs.len() < 13 {
        Report::Malformed
    } else if fs[6] == seq!['0' as u8] {
        Report::NoFix
    } else {
        match fix_check(fs[1], fs[2], fs[3], fs[4], fs[5]).and(
            height_check(fs[9], fs[10], fs[11], fs[12]),
        ) {
            Check::Pass => Report::Position {
                time: clock_of(fs[1]),
                lat: latitude_of(fs[2], fs[3]),
                long: longitude_of(fs[4], fs[5]),
                hgt: HeightText { altitude: fs[9], separation: fs[11] },
            },
            Check::Malformed => Report::Malformed,
            Check::Unreadable => Report::Unreadable,
        }
    }
}

/// What a `GPRMC` sentence with the fields `fs` says. The third field is `V` without a fix.
pub open spec fn rmc_report(fs: Seq<Seq<u8>>) -> Report {
    if fs.len() < 10 {
        Report::Malformed
    } else if fs[2] == seq!['V' as u8] {
        Report::NoFix
    } else {
        match fix_check(fs[1], fs[3], fs[4], fs[5], fs[6]).and(date_check(fs[9])) {
            Check::Pass => Report::Dated {
                time: clock_of(fs[1]),
                lat: latitude_of(fs[3], fs[4]),
                long: longitude_of(fs[5], fs[6]),
                date: date_of(fs[9]),
            },
            Check::Malformed => Report::Malformed,
            Check::Unreadable => Report::Unreadable,
        }
    }
}

/// What `sentence` says.
pub open spec fn report(sentence: Seq<u8>) -> Report {
    let fs = fields(sentence, ',' as u8);
    if !valid_utf8(sentence) {
        Report::Malformed
    } else if fs[0] == "GPGGA".spec_bytes() {
        gga_report(fs)
    } else if fs[0] == "GPRMC".spec_bytes() {
        rmc_report(fs)
    } else {
        Report::Unexpected(decode_utf8(fs[0]))
    }
}

fn at_cut(s: &[u8], i: usize) -> (r: bool)
    ensures
        r == is_cut(s@, i as int),
{
    i == s.len() || (i < s.len() && !(s[i] >= 0x80 && s[i] <= 0xbf))
}

fn check_part(s: &[u8], from: usize, to: usize) -> (r: bool)
    ensures
        r == has_part(s@, from as int, to as int),
{
    from <= to && at_cut(s, from) && at_cut(s, to)
}

fn check_number(s: &[u8], from: usize, to: usize) -> (r: Check)
    ensures
        r == number_check(s@, from as int, to as int),
{
    if !check_part(s, from, to) {
        Check::Unreadable
    } else if reads_as_float(vstd::slice::slice_subrange(s, from, to)) {
        Check::Pass
    } else {
        Check::Malformed
    }
}

fn is_letter(s: &[u8], letter: u8) -> (r: bool)
    ensures
        r == (s@ == seq![letter]),
{
    let r = s.len() == 1 && s[0] == letter;
    proof {
        if r {
            assert(s@ =~= seq![letter]);
        }
    }
    r
}

fn check_letter(s: &[u8], plus: u8, minus: u8) -> (r: Check)
    ensures
        r == (if s@ == seq![plus] || s@ == seq![minus] {
            Check::Pass
        } else {
            Check::Malformed
        }),
{
    if is_letter(s, plus) || is_letter(s, minus) {
        Check::Pass
    } else {
        Check::Malformed
    }
}

fn check_fix(time: &[u8], lat: &[u8], ns: &[u8], long: &[u8], ew: &[u8]) -> (r: Check)
    ensures
        r == fix_check(time@, lat@, ns@, long@, ew@),
{
    check_number(time, 0, 2).and_check(check_number(time, 2, 4)).and_check(
        check_number(time, 4, time.len()),
    ).and_check(check_letter(ns, 'N' as u8, 'S' as u8)).and_check(
        check_number(lat, 0, 2),
    ).and_check(check_number(lat, 2, lat.len())).and_check(
        check_letter(ew, 'E' as u8, 'W' as u8),
    ).and_check(check_number(long, 0, 3)).and_check(check_number(long, 3, long.len()))
}

fn check_height(alt: &[u8], alt_unit: &[u8], sep: &[u8], sep_unit: &[u8]) -> (r: Check)
    ensures
        r == height_check(alt@, alt_unit@, sep@, sep_unit@),
{
    if reads_as_float(alt) && reads_as_float(sep) && is_letter(alt_unit, 'M' as u8) && is_letter(
        sep_unit,
        'M' as u8,
    ) {
        Check::Pass
    } else {
        Check::Malformed
    }
}

/// Reads the field for the date.
fn read_date(d: &[u8]) -> (r: (Check, Option<Date>))
    ensures
        r.0 == date_check(d@),
        r.0 == Check::Pass ==> r.1 == Some(date_of(d@)) && date_of(d@).wf(),
{
    if !check_part(d, 4, d.len()) {
        return (Check::Unreadable, None);
    }
    let year: i32 = match parse_signed(vstd::slice::slice_subrange(d, 4, d.len())) {
        Some(y) => {
            if y > i32::MAX - 2000 {
                return (Check::Unreadable, None);
            }
            2000 + y
        },
        None => {
            return (Check::Malformed, None);
        },
    };
    if !check_part(d, 2, 4) {
        return (Check::Unreadable, None);
    }
    let month: u8 = match parse_unsigned(vstd::slice::slice_subrange(d, 2, 4), 0xff) {
        Some(m) => m as u8,
        None => {
            return (Check::Malformed, None);
        },
    };
    if month < 1 || month > 12 {
        return (Check::Malformed, None);
    }
    if !check_part(d, 0, 2) {
        return (Check::Unreadable, None);
    }
    let day: u8 = match parse_unsigned(vstd::slice::slice_subrange(d, 0, 2), 0xff) {
        Some(n) => n as u8,
        None => {
            return (Check::Malformed, None);
        },
    };
    match Date::new(year, month, day) {
        Some(date) => (Check::Pass, Some(date)),
        None => (Check::Malformed, None),
    }
}

/// A [`Report`] that can be acted on.
enum Reported {
    NoFix,
    Position { time: Clock, lat: Coordinate, long: Coordinate, hgt: Height },
    Dated { time: Clock, lat: Coordinate, long: Coordinate, date: Date },
    Malformed,
    Unexpected(String),
    Unreadable,
}

impl View for Reported {
    type V = Report;

    closed spec fn view(&self) -> Report {
        match *self {
            Reported::NoFix => Report::NoFix,
            Reported::Position { time, lat, long, hgt } => Report::Position {
                time: time@,
                lat: lat@,
                long: long@,
                hgt: hgt@,
            },
            Reported::Dated { time, lat, long, date } => Report::Dated {
                time: time@,
                lat: lat@,
                long: long@,
                date,
            },
            Reported::Malformed => Report::Malformed,
            Reported::Unexpected(name) => Report::Unexpected(name@),
            Reported::Unreadable => Report::Unreadable,
        }
    }
}

/// Takes time and position out of fields that come out well.
fn parse_time_lat_long(time: &[u8], lat: &[u8], ns: &[u8], long: &[u8], ew: &[u8]) -> (r: (
    Clock,
    Coordinate,
    Coordinate,
))
    requires
        fix_check(time@, lat@, ns@, long@, ew@) == Check::Pass,
    ensures
        r.0@ == clock_of(time@),
        r.1@ == latitude_of(lat@, ns@),
        r.2@ == longitude_of(long@, ew@),
        r.0@.wf(),
        r.1@.wf(),
        r.2@.wf(),
{
    (
        Clock {
            hours: piece(time, 0, 2),
            minutes: piece(time, 2, 4),
            seconds: piece(time, 4, time.len()),
        },
        Coordinate {
            degrees: piece(lat, 0, 2),
            minutes: piece(lat, 2, lat.len()),
            negative: is_letter(ns, 'S' as u8),
        },
        Coordinate {
            degrees: piece(long, 0, 3),
            minutes: piece(long, 3, long.len()),
            negative: is_letter(ew, 'W' as u8),
        },
    )
}

fn read_gga(fs: &Vec<Vec<u8>>) -> (r: Reported)
    ensures
        r@ == gga_report(contents(fs@)),
{
    let ghost c = contents(fs@);
    if fs.len() < 13 {
        return Reported::Malformed;
    }
    let (time, lat, ns) = (fs[1].as_slice(), fs[2].as_slice(), fs[3].as_slice());
    let (long, ew) = (fs[4].as_slice(), fs[5].as_slice());
    let (alt, alt_unit) = (fs[9].as_slice(), fs[10].as_slice());
    let (sep, sep_unit) = (fs[11].as_slice(), fs[12].as_slice());
    if is_letter(fs[6].as_slice(), '0' as u8) {
        return Reported::NoFix;
    }
    let fix = check_fix(time, lat, ns, long, ew);
    match fix.and_check(check_height(alt, alt_unit, sep, sep_unit)) {
        Check::Pass => {
            let (time, lat, long) = parse_time_lat_long(time, lat, ns, long, ew);
            let hgt = Height {
                altitude: piece(alt, 0, alt.len()),
                separation: piece(sep, 0, sep.len()),
            };
            proof {
                assert(c[9].subrange(0, c[9].len() as int) =~= c[9]);
                assert(c[11].subrange(0, c[11].len() as int) =~= c[11]);
            }
            Reported::Position { time, lat, long, hgt }
        },
        Check::Malformed => Reported::Malformed,
        Check::Unreadable => Reported::Unreadable,
    }
}

fn read_rmc(fs: &Vec<Vec<u8>>) -> (r: Reported)
    ensures
        r@ == rmc_report(contents(fs@)),
{
    let ghost c = contents(fs@);
    if fs.len() < 10 {
        return Reported::Malformed;
    }
    let (time, lat, ns) = (fs[1].as_slice(), fs[3].as_slice(), fs[4].as_slice());
    let (long, ew, day) = (fs[5].as_slice(), fs[6].as_slice(), fs[9].as_slice());
    if is_letter(fs[2].as_slice(), 'V' as u8) {
        return Reported::NoFix;
    }
    let fix = check_fix(time, lat, ns, long, ew);
    let (checked, date) = read_date(day);
    match (fix.and_check(checked), date) {
        (Check::Pass, Some(date)) => {
            let (time, lat, long) = parse_time_lat_long(time, lat, ns, long, ew);
            Reported::Dated { time, lat, long, date }
        },
        (Check::Unreadable, _) => Reported::Unreadable,
        _ => Reported::Malformed,
    }
}

proof fn lemma_first_field(s: Seq<u8>, sep: u8)
    ensures
        fields(s, sep).len() >= 1,
        fields(s, sep)[0].len() <= s.len(),
        fields(s, sep)[0] == s.take(fields(s, sep)[0].len() as int),
        fields(s, sep).len() == 1 ==> fields(s, sep)[0] == s,
        fields(s, sep)[0].len() < s.len() ==> s[fields(s, sep)[0].len() as int] == sep,
    decreases s.len(),
{
    if s.len() == 0 {
        assert(s.take(0) =~= s);
    } else {
        let t = s.drop_last();
        lemma_first_field(t, sep);
        let f = fields(t, sep)[0];
        assert(t.take(f.len() as int) =~= s.take(f.len() as int));
        if s.last() != sep && fields(t, sep).len() == 1 {
            assert(f.push(s.last()) =~= s);
            assert(s.take(s.len() as int) =~= s);
        } else {
            assert(fields(s, sep)[0] == f);
            if s.last() != sep {
                law_fields_join_back(t, sep);
                assert(f.len() < t.len()) by {
                    if f.len() == t.len() {
                        assert(f =~= t);
                        lemma_many_fields_have_separator(t, sep);
                        assert(f.contains(sep));
                    }
                }
            }
        }
    }
}

proof fn lemma_many_fields_have_separator(s: Seq<u8>, sep: u8)
    requires
        fields(s, sep).len() > 1,
    ensures
        s.contains(sep),
    decreases s.len(),
{
    let t = s.drop_last();
    if s.last() == sep {
        assert(s[s.len() - 1] == sep);
    } else {
        lemma_many_fields_have_separator(t, sep);
        let i = choose|i: int| 0 <= i < t.len() && t[i] == sep;
        assert(s[i] == sep);
    }
}

proof fn lemma_name_is_text(sentence: Seq<u8>)
    requires
        valid_utf8(sentence),
    ensures
        valid_utf8(fields(sentence, ',' as u8)[0]),
{
    lemma_first_field(sentence, ',' as u8);
    let name = fields(sentence, ',' as u8)[0];
    let k = name.len() as int;
    if k < sentence.len() {
        is_char_boundary_iff_not_is_continuation_byte(sentence, k);
        valid_utf8_split(sentence, k);
        assert(name =~= sentence.subrange(0, k));
    } else {
        assert(name =~= sentence);
    }
}

fn read_report(sentence: &[u8]) -> (r: Reported)
    ensures
        r@ == report(sentence@),
{
    if read_utf8(sentence).is_none() {
        return Reported::Malformed;
    }
    let fs = split(sentence, ',' as u8);
    proof {
        assert(contents(fs@)[0] == fs@[0]@);
        lemma_name_is_text(sentence@);
    }
    if same_bytes(fs[0].as_slice(), "GPGGA".as_bytes()) {
        return read_gga(&fs);
    }
    if same_bytes(fs[0].as_slice(), "GPRMC".as_bytes()) {
        return read_rmc(&fs);
    }
    match read_utf8(fs[0].as_slice()) {
        Some(name) => Reported::Unexpected(name.to_string()),
        None => Reported::Malformed,
    }
}

/// What is known of the position, and how recent it is.
#[derive(Debug, PartialEq, Eq)]
pub struct GpsMtk {
    /// How many sentences have come since the last fix, up to the greatest number that fits.
    pub stale: u8,
    /// Latitude and longitude.
    pub pos: [Coordinate; 2],
    /// The height above the ellipsoid.
    pub hgt: Height,
    pub date: Date,
    /// The time of day of the last fix.
    pub time: Clock,
}

/// What the model of a [`GpsMtk`] holds.
pub struct Known {
    pub stale: u8,
    pub lat: CoordinateText,
    pub long: CoordinateText,
    pub hgt: HeightText,
    pub date: Date,
    pub time: ClockText,
}

impl View for GpsMtk {
    type V = Known;

    open spec fn view(&self) -> Known {
        Known {
            stale: self.stale,
            lat: self.pos@[0]@,
            long: self.pos@[1]@,
            hgt: self.hgt@,
            date: self.date,
            time: self.time@,
        }
    }
}

impl Known {
    /// Everything that is known reads as a number, and the date is one.
    pub open spec fn wf(self) -> bool {
        &&& self.lat.wf()
        &&& self.long.wf()
        &&& self.hgt.wf()
        &&& self.time.wf()
        &&& self.date.wf()
    }

    /// What is known after a sentence that says `said`.
    pub open spec fn after(self, said: Report) -> Known {
        match said {
            Report::NoFix => Known {
                stale: if self.stale == u8::MAX {
                    u8::MAX
                } else {
                    (self.stale + 1) as u8
                },
                ..self
            },
            Report::Position { time, lat, long, hgt } => Known {
                stale: 0,
                lat,
                long,
                hgt,
                time,
                ..self
            },
            Report::Dated { time, lat, long, date } => Known {
                stale: 0,
                lat,
                long,
                date,
                time,
                ..self
            },
            _ => self,
        }
    }

    /// What is known after sentences that say `said` one after the other.
    pub open spec fn after_all(self, said: Seq<Report>) -> Known
        decreases said.len(),
    {
        if said.len() == 0 {
            self
        } else {
            self.after_all(said.drop_last()).after(said.last())
        }
    }
}

/// After a fix, sentences without one leave it as it is, and are counted up to 255.
pub proof fn law_stale_counts_since_the_fix(known: Known, fix: Report, said: Seq<Report>)
    requires
        fix is Position || fix is Dated,
        forall|i: int| 0 <= i < said.len() ==> #[trigger] said[i] is NoFix,
    ensures
        known.after(fix).after_all(said) == (Known {
            stale: if said.len() < 255 {
                said.len() as u8
            } else {
                255
            },
            ..known.after(fix)
        }),
    decreases said.len(),
{
    if said.len() > 0 {
        law_stale_counts_since_the_fix(known, fix, said.drop_last());
    }
}

/// A sentence with a fix makes the position fresh, and no other does.
pub proof fn law_only_a_fix_is_fresh(known: Known, said: Report)
    ensures
        known.after(said).stale == 0 <==> said is Position || said is Dated || (known.stale == 0
            && !(said is NoFix)),
{
}

/// How the reading of the sentence for an update goes on.
#[derive(Debug, PartialEq, Eq)]
pub enum UpdateRead {
    /// With this sentence.
    Use(Vec<u8>),
    /// With a search for a line end, then one more try.
    DiscardAndRetry,
    /// Not at all.
    Fail(GpsError),
}

/// Whether `e` on a first read is made up for by a second one.
pub open spec fn is_made_up_for(e: GpsError) -> bool {
    e == GpsError::ReadError(ReadErrorType::Overrun) || e == GpsError::TooLong
}

fn zero() -> (r: Vec<u8>)
    ensures
        r@ == seq!['0' as u8],
        is_float(r@),
{
    let mut v: Vec<u8> = Vec::new();
    v.push('0' as u8);
    proof {
        let s = v@;
        assert(s =~= seq!['0' as u8]);
        assert(s.skip(1) =~= Seq::<u8>::empty());
        reveal_with_fuel(crate::text::digit_run, 2);
    }
    v
}

impl GpsMtk {
    /// Nothing is known: there never was a fix, the position is zero, the date the earliest.
    pub fn new() -> (gps: GpsMtk)
        ensures
            gps@.wf(),
            gps.stale == u8::MAX,
            gps@.lat == (CoordinateText {
                degrees: seq!['0' as u8],
                minutes: seq!['0' as u8],
                negative: false,
            }),
            gps@.long == gps@.lat,
            gps@.hgt == (HeightText { altitude: seq!['0' as u8], separation: seq!['0' as u8] }),
            gps.date.year == -9999 && gps.date.month == 1 && gps.date.day == 1,
            gps@.time == (ClockText {
                hours: seq!['0' as u8],
                minutes: seq!['0' as u8],
                seconds: seq!['0' as u8],
            }),
    {
        GpsMtk {
            stale: u8::MAX,
            pos: [
                Coordinate { degrees: zero(), minutes: zero(), negative: false },
                Coordinate { degrees: zero(), minutes: zero(), negative: false },
            ],
            hgt: Height { altitude: zero(), separation: zero() },
            date: Date::min(),
            time: Clock { hours: zero(), minutes: zero(), seconds: zero() },
        }
    }

    /// How the reading of the sentence for an update goes on after `read`: an overrun and a
    /// sentence that is too long are made up for once.
    pub fn update_read(first: bool, read: Result<Vec<u8>, GpsError>) -> (r: UpdateRead)
        ensures
            match read {
                Ok(sentence) => r == UpdateRead::Use(sentence),
                Err(e) => if first && is_made_up_for(e) {
                    r == UpdateRead::DiscardAndRetry
                } else {
                    r == UpdateRead::Fail(e)
                },
            },
    {
        match read {
            Ok(sentence) => UpdateRead::Use(sentence),
            Err(e) => {
                if first {
                    match e {
                        GpsError::ReadError(ReadErrorType::Overrun) => UpdateRead::DiscardAndRetry,
                        GpsError::TooLong => UpdateRead::DiscardAndRetry,
                        e => UpdateRead::Fail(e),
                    }
                } else {
                    UpdateRead::Fail(e)
                }
            },
        }
    }

    /// Whether `sentence` can be read: it is not cut where it has no character, nor does it
    /// lead to a number that is too great to compute with.
    pub fn is_readable(sentence: &[u8]) -> (r: bool)
        ensures
            r == !(report(sentence@) is Unreadable),
    {
        match read_report(sentence) {
            Reported::Unreadable => false,
            _ => true,
        }
    }

    /// Takes note of a sentence. One that is not understood changes nothing.
    pub fn update(&mut self, sentence: &[u8]) -> (r: Result<(), GpsError>)
        requires
            !(report(sentence@) is Unreadable),
        ensures
            final(self)@ == old(self)@.after(report(sentence@)),
            match report(sentence@) {
                Report::Malformed => r == Err::<(), GpsError>(GpsError::MalformedResponse),
                Report::Unexpected(name) => r matches Err(GpsError::UnexpectedCommand(n)) && n@
                    == name,
                _ => r is Ok,
            },
            r is Err ==> final(self)@ == old(self)@,
            old(self)@.wf() ==> final(self)@.wf(),
    {
        match read_report(sentence) {
            Reported::NoFix => {
                self.stale = self.stale.saturating_add(1);
                Ok(())
            },
            Reported::Position { time, lat, long, hgt } => {
                self.pos = [lat, long];
                self.hgt = hgt;
                self.time = time;
                self.stale = 0;
                Ok(())
            },
            Reported::Dated { time, lat, long, date } => {
                self.pos = [lat, long];
                self.time = time;
                self.date = date;
                self.stale = 0;
                Ok(())
            },
            Reported::Unexpected(name) => Err(GpsError::UnexpectedCommand(name)),
            _ => Err(GpsError::MalformedResponse),
        }
    }

    /// What is to be sent to put the receiver to sleep.
    pub fn enter_standby() -> (sent: Vec<u8>)
        ensures
            sent@ == framed("PMTK161,0".spec_bytes()),
    {
        frame("PMTK161,0".as_bytes())
    }

    /// What is to be sent to see if the link works or to wake the receiver up, and the wait for
    /// its acknowledgement.
    pub fn test() -> (r: (Vec<u8>, Result<AckWait, GpsError>))
        ensures
            r.0@ == framed("PMTK000".spec_bytes()),
            r.1 == Ok::<AckWait, GpsError>(AckWait { number: 0, remaining: MAX_ACK_SENTENCES }),
    {
        proof {
            lemma_test_is_acknowledged();
        }
        GpsMtk::write_sentence("PMTK000".as_bytes())
    }

    /// What is to be sent for the command `cmd`, and the wait for its acknowledgement.
    pub fn write_sentence(cmd: &[u8]) -> (r: (Vec<u8>, Result<AckWait, GpsError>))
        requires
            crate::gps::link::is_command(cmd@) ==> cmd@.len() >= 7,
        ensures
            r.0@ == framed(cmd@),
            r.1 == wait_begins(cmd@),
    {
        (frame(cmd), AckWait::new(cmd))
    }
}

/// The fields of a sentence that say where and when a fix was taken.
pub struct FixFields {
    /// `hhmmss.sss`
    pub time: Seq<u8>,
    /// `ddmm.mmmm`
    pub lat: Seq<u8>,
    /// `N` or `S`
    pub ns: Seq<u8>,
    /// `dddmm.mmmm`
    pub long: Seq<u8>,
    /// `E` or `W`
    pub ew: Seq<u8>,
}

/// Whether every byte of `s` is an ASCII character other than a comma.
pub open spec fn is_plain_field(s: Seq<u8>) -> bool {
    forall|i: int| 0 <= i < s.len() ==> #[trigger] s[i] < 0x80 && s[i] != ',' as u8
}

/// Whether the fields are as they should be: letters for the directions, and numbers elsewhere.
pub open spec fn is_fix(f: FixFields) -> bool {
    &&& is_plain_field(f.time) && is_plain_field(f.lat) && is_plain_field(f.long)
    &&& f.ns == seq![78u8] || f.ns == seq![83u8]
    &&& f.ew == seq![69u8] || f.ew == seq![87u8]
    &&& f.time.len() >= 4 && is_float(f.time.subrange(0, 2)) && is_float(f.time.subrange(2, 4))
    &&& is_float(f.time.subrange(4, f.time.len() as int))
    &&& f.lat.len() >= 2 && is_float(f.lat.subrange(0, 2))
    &&& is_float(f.lat.subrange(2, f.lat.len() as int))
    &&& f.long.len() >= 3 && is_float(f.long.subrange(0, 3))
    &&& is_float(f.long.subrange(3, f.long.len() as int))
}

/// Whether what is known of time and position is what the fields say: latitude and longitude are
/// south and west where the letters are `S` and `W`, their degrees are the first two and the
/// first three bytes, and their minutes what follows; hours and minutes are two bytes each, and
/// the seconds what follows.
pub open spec fn is_known_from(known: Known, f: FixFields) -> bool {
    &&& known.stale == 0
    &&& known.lat.degrees + known.lat.minutes == f.lat && known.lat.degrees.len() == 2
    &&& known.lat.negative <==> f.ns == seq![83u8]
    &&& known.long.degrees + known.long.minutes == f.long && known.long.degrees.len() == 3
    &&& known.long.negative <==> f.ew == seq![87u8]
    &&& known.time.hours + known.time.minutes + known.time.seconds == f.time
    &&& known.time.hours.len() == 2 && known.time.minutes.len() == 2
}

/// A `GPGGA` sentence with a fix, whose other fields are `quality`, two that are not looked at,
/// the height with its unit, that of the geoid with its unit, and `more`.
pub open spec fn gga_sentence(
    f: FixFields,
    quality: Seq<u8>,
    others: (Seq<u8>, Seq<u8>),
    alt: Seq<u8>,
    sep: Seq<u8>,
    more: Seq<Seq<u8>>,
) -> Seq<u8> {
    joined(
        seq![
            "GPGGA".spec_bytes(),
            f.time,
            f.lat,
            f.ns,
            f.long,
            f.ew,
            quality,
            others.0,
            others.1,
            alt,
            seq![77u8],
            sep,
            seq![77u8],
        ] + more,
        44,
    )
}

/// A `GPRMC` sentence with a fix, whose other fields are `status`, two that are not looked at,
/// the date, and `more`.
pub open spec fn rmc_sentence(
    f: FixFields,
    status: Seq<u8>,
    others: (Seq<u8>, Seq<u8>),
    date: Seq<u8>,
    more: Seq<Seq<u8>>,
) -> Seq<u8> {
    joined(
        seq![
            "GPRMC".spec_bytes(),
            f.time,
            status,
            f.lat,
            f.ns,
            f.long,
            f.ew,
            others.0,
            others.1,
            date,
        ] + more,
        44,
    )
}

proof fn lemma_fix_passes(f: FixFields)
    requires
        is_fix(f),
    ensures
        fix_check(f.time, f.lat, f.ns, f.long, f.ew) == Check::Pass,
        !f.time.contains(44) && !f.lat.contains(44) && !f.ns.contains(44) && !f.long.contains(44)
            && !f.ew.contains(44),
        clock_of(f.time).hours + clock_of(f.time).minutes + clock_of(f.time).seconds == f.time,
        latitude_of(f.lat, f.ns).degrees + latitude_of(f.lat, f.ns).minutes == f.lat,
        longitude_of(f.long, f.ew).degrees + longitude_of(f.long, f.ew).minutes == f.long,
{
    assert(f.ns[0] == 78 || f.ns[0] == 83);
    assert(f.ew[0] == 69 || f.ew[0] == 87);
    let t = clock_of(f.time);
    assert(t.hours + t.minutes + t.seconds =~= f.time);
    let lat = latitude_of(f.lat, f.ns);
    assert(lat.degrees + lat.minutes =~= f.lat);
    let long = longitude_of(f.long, f.ew);
    assert(long.degrees + long.minutes =~= f.long);
}

proof fn lemma_names()
    ensures
        "GPGGA".spec_bytes() == seq![71u8, 80u8, 71u8, 71u8, 65u8],
        "GPRMC".spec_bytes() == seq![71u8, 80u8, 82u8, 77u8, 67u8],
{
    reveal_strlit("GPGGA");
    reveal_strlit("GPRMC");
    is_ascii_chars_encode_utf8("GPGGA"@);
    is_ascii_chars_encode_utf8("GPRMC"@);
    assert("GPGGA".spec_bytes() =~= seq![71u8, 80u8, 71u8, 71u8, 65u8]);
    assert("GPRMC".spec_bytes() =~= seq![71u8, 80u8, 82u8, 77u8, 67u8]);
}

/// After a `GPGGA` sentence with a fix, position and time are those of its fields, and the height
/// is that of its tenth and twelfth field. The date stays.
pub proof fn law_gga_sets_the_position(
    known: Known,
    f: FixFields,
    quality: Seq<u8>,
    others: (Seq<u8>, Seq<u8>),
    alt: Seq<u8>,
    sep: Seq<u8>,
    more: Seq<Seq<u8>>,
)
    requires
        is_fix(f),
        quality != seq![48u8],
        is_float(alt) && is_float(sep),
        !quality.contains(44) && !others.0.contains(44) && !others.1.contains(44),
        !alt.contains(44) && !sep.contains(44),
        forall|i: int| 0 <= i < more.len() ==> !(#[trigger] more[i]).contains(44),
        valid_utf8(gga_sentence(f, quality, others, alt, sep, more)),
    ensures
        is_known_from(
            known.after(report(gga_sentence(f, quality, others, alt, sep, more))),
            f,
        ),
        ({
            let after = known.after(report(gga_sentence(f, quality, others, alt, sep, more)));
            after.hgt.altitude == alt && after.hgt.separation == sep && after.date == known.date
        }),
{
    let unit = seq![77u8];
    let fs = seq![
        "GPGGA".spec_bytes(),
        f.time,
        f.lat,
        f.ns,
        f.long,
        f.ew,
        quality,
        others.0,
        others.1,
        alt,
        unit,
        sep,
        unit,
    ] + more;
    lemma_names();
    lemma_fix_passes(f);
    assert(!unit.contains(44));
    assert(!"GPGGA".spec_bytes().contains(44));
    assert forall|i: int| 0 <= i < fs.len() implies !(#[trigger] fs[i]).contains(44) by {
        if i >= 13 {
            assert(fs[i] == more[i - 13]);
        }
    }
    law_joined_fields_are_parted(fs, 44);
}

/// After a `GPRMC` sentence with a fix, position and time are those of its fields, and the date
/// is that of its tenth field: day, month and year of the century in two digits each. The height
/// stays.
pub proof fn law_rmc_sets_the_position(
    known: Known,
    f: FixFields,
    status: Seq<u8>,
    others: (Seq<u8>, Seq<u8>),
    date: Seq<u8>,
    more: Seq<Seq<u8>>,
)
    requires
        is_fix(f),
        status != seq![86u8],
        !status.contains(44) && !others.0.contains(44) && !others.1.contains(44),
        date.len() == 6,
        forall|i: int| 0 <= i < 6 ==> 48 <= #[trigger] date[i] <= 57,
        is_date(
            2000 + 10 * (date[4] - 48) + (date[5] - 48),
            10 * (date[2] - 48) + (date[3] - 48),
            10 * (date[0] - 48) + (date[1] - 48),
        ),
        forall|i: int| 0 <= i < more.len() ==> !(#[trigger] more[i]).contains(44),
        valid_utf8(rmc_sentence(f, status, others, date, more)),
    ensures
        is_known_from(known.after(report(rmc_sentence(f, status, others, date, more))), f),
        ({
            let after = known.after(report(rmc_sentence(f, status, others, date, more)));
            &&& after.date.year == 2000 + 10 * (date[4] - 48) + (date[5] - 48)
            &&& after.date.month == 10 * (date[2] - 48) + (date[3] - 48)
            &&& after.date.day == 10 * (date[0] - 48) + (date[1] - 48)
            &&& after.hgt == known.hgt
        }),
{
    let fs = seq![
        "GPRMC".spec_bytes(),
        f.time,
        status,
        f.lat,
        f.ns,
        f.long,
        f.ew,
        others.0,
        others.1,
        date,
    ] + more;
    lemma_names();
    lemma_fix_passes(f);
    assert(!"GPRMC".spec_bytes().contains(44));
    assert(!date.contains(44)) by {
        assert forall|i: int| 0 <= i < date.len() implies date[i] != 44 by {
            assert(48 <= date[i] <= 57);
        }
    }
    assert forall|i: int| 0 <= i < fs.len() implies !(#[trigger] fs[i]).contains(44) by {
        if i >= 10 {
            assert(fs[i] == more[i - 10]);
        }
    }
    law_joined_fields_are_parted(fs, 44);
    lemma_two_digits(date, 0);
    lemma_two_digits(date, 2);
    lemma_two_digits(date, 4);
    assert(date_check(date) == Check::Pass);
}

proof fn lemma_two_digits(d: Seq<u8>, i: int)
    requires
        0 <= i,
        i + 2 <= d.len(),
        48 <= d[i] <= 57,
        48 <= d[i + 1] <= 57,
    ensures
        unsigned(d.subrange(i, i + 2), 0xff) == Some((10 * (d[i] - 48) + (d[i + 1] - 48)) as nat),
        signed(d.subrange(i, i + 2)) == Some(10 * (d[i] - 48) + (d[i + 1] - 48)),
{
    let s = d.subrange(i, i + 2);
    reveal_with_fuel(digits_value, 3);
    assert(s.drop_last() =~= seq![d[i]]);
    assert(s.drop_last().drop_last() =~= Seq::<u8>::empty());
    assert(s[0] == d[i] && s[1] == d[i + 1]);
}

/// Sentences of both names with the same time and position leave the same time and position.
pub proof fn law_gga_and_rmc_agree(a: Known, b: Known, f: FixFields)
    requires
        is_known_from(a, f),
        is_known_from(b, f),
    ensures
        a.lat == b.lat,
        a.long == b.long,
        a.time == b.time,
        a.stale == b.stale,
{
    assert(a.lat.degrees =~= f.lat.take(2) && b.lat.degrees =~= f.lat.take(2));
    assert(a.lat.minutes =~= f.lat.skip(2) && b.lat.minutes =~= f.lat.skip(2));
    assert(a.long.degrees =~= f.long.take(3) && b.long.degrees =~= f.long.take(3));
    assert(a.long.minutes =~= f.long.skip(3) && b.long.minutes =~= f.long.skip(3));
    assert(a.time.hours =~= f.time.take(2) && b.time.hours =~= f.time.take(2));
    assert(a.time.minutes =~= f.time.subrange(2, 4) && b.time.minutes =~= f.time.subrange(2, 4));
    assert(a.time.seconds =~= f.time.skip(4) && b.time.seconds =~= f.time.skip(4));
}

/// Without a fix, which a zero in the seventh field of `GPGGA` and a `V` in the third of `GPRMC`
/// say, everything that is known stays, and is one sentence older.
pub proof fn law_no_fix_keeps_the_position(known: Known, sentence: Seq<u8>, fs: Seq<Seq<u8>>)
    requires
        valid_utf8(sentence),
        sentence == joined(fs, 44),
        forall|i: int| 0 <= i < fs.len() ==> !(#[trigger] fs[i]).contains(44),
        (fs.len() >= 13 && fs[0] == seq![71u8, 80u8, 71u8, 71u8, 65u8] && fs[6] == seq![48u8]) || (
        fs.len() >= 10 && fs[0] == seq![71u8, 80u8, 82u8, 77u8, 67u8] && fs[2] == seq![86u8]),
    ensures
        known.after(report(sentence)).lat == known.lat,
        known.after(report(sentence)).long == known.long,
        known.after(report(sentence)).hgt == known.hgt,
        known.after(report(sentence)).date == known.date,
        known.after(report(sentence)).time == known.time,
        known.stale < 255 ==> known.after(report(sentence)).stale == known.stale + 1,
        known.stale == 255 ==> known.after(report(sentence)).stale == 255,
{
    lemma_names();
    law_joined_fields_are_parted(fs, 44);
    assert(fs[0][2] == 71 || fs[0][2] == 82);
}

/// Whether these fields are a time, a latitude and a longitude with their letters.
pub open spec fn are_fix_fields(
    time: Seq<u8>,
    lat: Seq<u8>,
    ns: Seq<u8>,
    long: Seq<u8>,
    ew: Seq<u8>,
) -> bool {
    &&& ns == seq![78u8] || ns == seq![83u8]
    &&& ew == seq![69u8] || ew == seq![87u8]
    &&& time.len() >= 4 && is_float(time.subrange(0, 2)) && is_float(time.subrange(2, 4))
    &&& is_float(time.subrange(4, time.len() as int))
    &&& lat.len() >= 2 && is_float(lat.subrange(0, 2)) && is_float(
        lat.subrange(2, lat.len() as int),
    )
    &&& long.len() >= 3 && is_float(long.subrange(0, 3)) && is_float(
        long.subrange(3, long.len() as int),
    )
}

/// A position is taken only from a sentence that has one: with enough fields, numbers where they
/// must be, the right letters and units, and a date that there is.
pub proof fn law_only_a_whole_fix_is_taken(sentence: Seq<u8>)
    ensures
        ({
            let fs = fields(sentence, 44);
            &&& report(sentence) is Position ==> {
                &&& fs.len() >= 13 && fs[0] == seq![71u8, 80u8, 71u8, 71u8, 65u8]
                &&& fs[6] != seq![48u8]
                &&& are_fix_fields(fs[1], fs[2], fs[3], fs[4], fs[5])
                &&& is_float(fs[9]) && fs[10] == seq![77u8]
                &&& is_float(fs[11]) && fs[12] == seq![77u8]
            }
            &&& report(sentence) matches Report::Dated { date, .. } ==> {
                &&& fs.len() >= 10 && fs[0] == seq![71u8, 80u8, 82u8, 77u8, 67u8]
                &&& fs[2] != seq![86u8]
                &&& are_fix_fields(fs[1], fs[3], fs[4], fs[5], fs[6])
                &&& is_date(date.year as int, date.month as int, date.day as int)
            }
            &&& report(sentence) is NoFix ==> (fs[0] == seq![71u8, 80u8, 71u8, 71u8, 65u8]
                && fs.len() >= 13 && fs[6] == seq![48u8]) || (fs[0] == seq![
                71u8,
                80u8,
                82u8,
                77u8,
                67u8,
            ] && fs.len() >= 10 && fs[2] == seq![86u8])
        }),
{
    lemma_names();
}

/// A sentence of another kind is not expected, and named so; one that is no text is malformed.
pub proof fn law_other_sentence_is_unexpected(sentence: Seq<u8>)
    ensures
        !valid_utf8(sentence) ==> report(sentence) is Malformed,
        valid_utf8(sentence) ==> {
            let name = fields(sentence, 44)[0];
            report(sentence) is Unexpected <==> name != seq![71u8, 80u8, 71u8, 71u8, 65u8] && name
                != seq![71u8, 80u8, 82u8, 77u8, 67u8]
        },
        report(sentence) matches Report::Unexpected(name) ==> name == decode_utf8(
            fields(sentence, 44)[0],
        ),
{
    lemma_names();
}

/// A sentence that is refused changes nothing of what is known.
pub proof fn law_refused_sentence_changes_nothing(known: Known, said: Report)
    requires
        said is Malformed || said is Unexpected || said is Unreadable,
    ensures
        known.after(said) == known,
{
}

/// Every sentence whose fields are ASCII text, and are not too short to be parted, can be read.
pub proof fn law_ascii_sentence_is_readable(sentence: Seq<u8>)
    requires
        forall|k: int, i: int|
            0 <= k < fields(sentence, 44).len() && 0 <= i < fields(sentence, 44)[k].len()
                ==> #[trigger] fields(sentence, 44)[k][i] < 0x80,
        fields(sentence, 44).len() >= 10 ==> {
            let fs = fields(sentence, 44);
            &&& fs[0] == seq![71u8, 80u8, 71u8, 71u8, 65u8] ==> fs[1].len() >= 4 && fs[2].len() >= 2
                && fs[4].len() >= 3
            &&& fs[0] == seq![71u8, 80u8, 82u8, 77u8, 67u8] ==> fs[1].len() >= 4 && fs[3].len() >= 2
                && fs[5].len() >= 3 && fs[9].len() == 6
        },
    ensures
        !(report(sentence) is Unreadable),
{
    lemma_names();
    let fs = fields(sentence, 44);
    if fs.len() >= 10 && fs[0] == seq![71u8, 80u8, 82u8, 77u8, 67u8] {
        let d = fs[9];
        lemma_short_year(d.subrange(4, 6));
        assert(is_cut(d, 2) && is_cut(d, 4) && is_cut(d, 6) && is_cut(d, 0));
    }
}

proof fn lemma_short_year(s: Seq<u8>)
    requires
        s.len() == 2,
    ensures
        signed(s) matches Some(n) ==> n <= 99,
{
    reveal_with_fuel(digits_value, 3);
    assert(s.skip(1).drop_last() =~= Seq::<u8>::empty());
    assert(s.drop_last().drop_last() =~= Seq::<u8>::empty());
    if all_digits(s) {
        assert(s[0] <= 57 && s[1] <= 57);
        assert(is_digit(s[0]) && is_digit(s[1]));
    }
    if all_digits(s.skip(1)) {
        assert(is_digit(s.skip(1)[0]));
    }
}

/// Of the failures to read a sentence only two are made up for by another try: lost bytes, and a
/// sentence without an end.
pub proof fn law_two_failures_are_made_up_for(e: GpsError)
    ensures
        is_made_up_for(GpsError::TooLong),
        is_made_up_for(GpsError::ReadError(ReadErrorType::Overrun)),
        is_made_up_for(e) ==> e is TooLong || e is ReadError,
        is_made_up_for(e) && e is ReadError ==> e->ReadError_0 == ReadErrorType::Overrun,
{
}

} // verus!
