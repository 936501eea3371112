//! The device as a whole: what its interrupts ask for, its clock, the time that files bear, and
//! what each turn of its main loop decides.

use vstd::prelude::*;
use crate::locations::LocParseError;
use crate::locations::load::Timestamp;

verus! {

/// What asks for the attention of the main loop.
#[derive(Debug, Clone, Copy, PartialEq, Eq, Structural)]
pub enum Attention {
    /// 50 ms have passed since the last frame.
    DeadlineAlarm,
    /// The satellite receiver has data to be read.
    GpsRx,
    /// The orientation sensor has data to be read.
    ImuRx,
}

/// What has asked for the attention of the main loop since it last looked.
#[derive(Debug, Clone, Copy, PartialEq, Eq, Structural)]
pub struct InterruptFlags {
    /// 50 ms have passed since the last frame.
    pub deadline_alarm: bool,
    /// The satellite receiver has data to be read.
    pub gps_rx: bool,
    /// The orientation sensor has data to be read.
    pub imu_rx: bool,
}

impl InterruptFlags {
    /// Whether `a` has asked.
    pub open spec fn asked(self, a: Attention) -> bool {
        match a {
            Attention::DeadlineAlarm => self.deadline_alarm,
            Attention::GpsRx => self.gps_rx,
            Attention::ImuRx => self.imu_rx,
        }
    }

    /// The same, but for whether `a` has asked.
    pub open spec fn with(self, a: Attention, asked: bool) -> InterruptFlags {
        match a {
            Attention::DeadlineAlarm => InterruptFlags { deadline_alarm: asked, ..self },
            Attention::GpsRx => InterruptFlags { gps_rx: asked, ..self },
            Attention::ImuRx => InterruptFlags { imu_rx: asked, ..self },
        }
    }

    /// Nothing has asked.
    pub fn new() -> (r: InterruptFlags)
        ensures
            forall|a: Attention| !r.asked(a),
    {
        InterruptFlags { deadline_alarm: false, gps_rx: false, imu_rx: false }
    }

    fn put(&mut self, a: Attention, asked: bool)
        ensures
            *final(self) == old(self).with(a, asked),
    {
        match a {
            Attention::DeadlineAlarm => {
                self.deadline_alarm = asked;
            },
            Attention::GpsRx => {
                self.gps_rx = asked;
            },
            Attention::ImuRx => {
                self.imu_rx = asked;
            },
        }
    }

    /// Asks for attention.
    pub fn raise(&mut self, a: Attention)
        ensures
            *final(self) == old(self).with(a, true),
    {
        self.put(a, true);
    }

    /// Whether `a` is to be attended to, because it has asked or because it is `pending` all the
    /// same. If it is, it has not asked any more.
    pub fn take(&mut self, a: Attention, pending: bool) -> (r: bool)
        ensures
            r == (old(self).asked(a) || pending),
            *final(self) == old(self).with(a, false),
    {
        let asked = match a {
            Attention::DeadlineAlarm => self.deadline_alarm,
            Attention::GpsRx => self.gps_rx,
            Attention::ImuRx => self.imu_rx,
        };
        self.put(a, false);
        asked || pending
    }
}

/// What was asked for stays asked for until it is attended to, and only that is then forgotten.
pub proof fn law_attention_is_kept(flags: InterruptFlags, a: Attention, b: Attention, asked: bool)
    ensures
        flags.with(a, asked).asked(a) == asked,
        b != a ==> flags.with(a, asked).asked(b) == flags.asked(b),
{
}

/// The time that files written to the storage card bear.
#[derive(Debug, Clone, Copy, PartialEq, Eq, Structural)]
pub struct FakeTimesource {
    pub year_since_1970: u8,
    pub zero_indexed_month: u8,
    pub zero_indexed_day: u8,
    pub hours: u8,
    pub minutes: u8,
    pub seconds: u8,
}

impl FakeTimesource {
    /// The time as one value.
    pub open spec fn time(self) -> Timestamp {
        Timestamp {
            year_since_1970: self.year_since_1970,
            zero_indexed_month: self.zero_indexed_month,
            zero_indexed_day: self.zero_indexed_day,
            hours: self.hours,
            minutes: self.minutes,
            seconds: self.seconds,
        }
    }

    /// The start of the year 1970.
    pub fn new() -> (r: FakeTimesource)
        ensures
            r.time() == (Timestamp {
                year_since_1970: 0,
                zero_indexed_month: 0,
                zero_indexed_day: 0,
                hours: 0,
                minutes: 0,
                seconds: 0,
            }),
    {
        FakeTimesource {
            year_since_1970: 0,
            zero_indexed_month: 0,
            zero_indexed_day: 0,
            hours: 0,
            minutes: 0,
            seconds: 0,
        }
    }

    /// Files bear `timestamp` from now on.
    pub fn set(&mut self, timestamp: Timestamp)
        ensures
            final(self).time() == timestamp,
    {
        self.year_since_1970 = timestamp.year_since_1970;
        self.zero_indexed_month = timestamp.zero_indexed_month;
        self.zero_indexed_day = timestamp.zero_indexed_day;
        self.hours = timestamp.hours;
        self.minutes = timestamp.minutes;
        self.seconds = timestamp.seconds;
    }
}

/// Each part of the time is kept as what it is.
pub proof fn law_time_is_kept(source: FakeTimesource)
    ensures
        source.time().year_since_1970 == source.year_since_1970,
        source.time().zero_indexed_month == source.zero_indexed_month,
        source.time().zero_indexed_day == source.zero_indexed_day,
        source.time().hours == source.hours,
        source.time().minutes == source.minutes,
        source.time().seconds == source.seconds,
{
}

/// What tells the storage card the time.
#[derive(Debug, Clone, Copy, PartialEq, Eq)]
pub struct FakeTimesourceReader();

impl Default for FakeTimesourceReader {
    fn default() -> (r: FakeTimesourceReader)
        ensures
            r == FakeTimesourceReader(),
    {
        FakeTimesourceReader()
    }
}

impl FakeTimesourceReader {
    /// The time that `source` was last set to.
    pub fn get_timestamp(&self, source: &FakeTimesource) -> (r: Timestamp)
        ensures
            r == source.time(),
    {
        Timestamp {
            year_since_1970: source.year_since_1970,
            zero_indexed_month: source.zero_indexed_month,
            zero_indexed_day: source.zero_indexed_day,
            hours: source.hours,
            minutes: source.minutes,
            seconds: source.seconds,
        }
    }
}

/// Reads a running counter of 64 bits in halves of 32.
#[derive(Debug, Clone, Copy, PartialEq, Eq, Structural)]
pub struct TickReader {
    /// The upper half as it was read last.
    pub hi: u32,
}

/// The counter whose halves are `hi` and `low`.
pub open spec fn ticks(hi: nat, low: nat) -> nat {
    hi * 0x1_0000_0000 + low
}

impl TickReader {
    /// Starts with the upper half.
    pub fn new(hi: u32) -> (r: TickReader)
        ensures
            r.hi == hi,
    {
        TickReader { hi }
    }

    /// Takes the lower half, and the upper half that was read after it. If the upper half has
    /// changed, both have to be read again.
    pub fn get_ticks(&mut self, low: u32, hi: u32) -> (r: Option<u64>)
        ensures
            final(self).hi == hi,
            match r {
                Some(t) => old(self).hi == hi && t == ticks(hi as nat, low as nat),
                None => old(self).hi != hi,
            },
    {
        if self.hi == hi {
            let t: u64 = (hi as u64) << 32 | low as u64;
            proof {
                assert(t == hi as u64 * 0x1_0000_0000 + low as u64) by (bit_vector)
                    requires
                        t == (hi as u64) << 32 | low as u64,
                ;
            }
            Some(t)
        } else {
            self.hi = hi;
            None
        }
    }
}

/// What is read of a counter that never runs backwards is what it was when its lower half was
/// read: `first`, `middle` and `last` are the counter at the three reads.
pub proof fn law_ticks_are_the_counter(first: nat, middle: nat, last: nat)
    requires
        first <= middle <= last,
        first / 0x1_0000_0000 == last / 0x1_0000_0000,
    ensures
        ticks(first / 0x1_0000_0000, middle % 0x1_0000_0000) == middle,
{
}

/// For how many frames the device stays awake after it was shaken.
pub const WAKE_TICKS: u32 = 600;

/// Every how many frames the battery is measured: every 60 seconds.
pub const BAT_MEASURE_TIME: u32 = 1200;

/// What the main loop keeps from turn to turn.
#[derive(Debug, Clone, Copy, PartialEq, Eq, Structural)]
pub struct MainLoop {
    /// How many frames the device stays awake. It sleeps at 0.
    pub ticks_until_sleep: u32,
    /// In how many frames the battery is measured.
    pub frames_until_bat: u32,
}

impl MainLoop {
    /// Awake, with the battery just measured.
    pub fn new() -> (r: MainLoop)
        ensures
            r == (MainLoop { ticks_until_sleep: WAKE_TICKS, frames_until_bat: BAT_MEASURE_TIME }),
    {
        MainLoop { ticks_until_sleep: WAKE_TICKS, frames_until_bat: BAT_MEASURE_TIME }
    }

    /// What is kept after news from the orientation sensor. Time alone does not bring sleep
    /// nearer.
    pub open spec fn after_imu(self, shaken: bool) -> MainLoop {
        if shaken {
            MainLoop { ticks_until_sleep: WAKE_TICKS, ..self }
        } else {
            self
        }
    }

    /// Takes news from the orientation sensor: whether the device was shaken. Says whether the
    /// sleeping parts are to be woken.
    pub fn imu_update(&mut self, shaken: bool) -> (wake: bool)
        ensures
            *final(self) == old(self).after_imu(shaken),
            wake == (shaken && old(self).ticks_until_sleep == 0),
    {
        if !shaken {
            return false;
        }
        let wake = self.ticks_until_sleep == 0;
        self.ticks_until_sleep = WAKE_TICKS;
        wake
    }

    /// What is kept after a frame.
    pub open spec fn after_frame(self) -> MainLoop {
        MainLoop {
            frames_until_bat: if self.frames_until_bat <= 1 {
                BAT_MEASURE_TIME
            } else {
                (self.frames_until_bat - 1) as u32
            },
            ..self
        }
    }

    /// Starts a frame. Says whether the battery is to be measured for it.
    pub fn frame(&mut self) -> (measure: bool)
        ensures
            *final(self) == old(self).after_frame(),
            measure == (old(self).frames_until_bat <= 1),
    {
        if self.frames_until_bat <= 1 {
            self.frames_until_bat = BAT_MEASURE_TIME;
            true
        } else {
            self.frames_until_bat = self.frames_until_bat - 1;
            false
        }
    }

    /// What is kept after `n` frames.
    pub open spec fn after_frames(self, n: nat) -> MainLoop
        decreases n,
    {
        if n == 0 {
            self
        } else {
            self.after_frames((n - 1) as nat).after_frame()
        }
    }
}

/// A device that is awake stays so, whatever the orientation sensor reports.
pub proof fn law_stays_awake(state: MainLoop, shaken: bool)
    requires
        state.ticks_until_sleep != 0,
    ensures
        state.after_imu(shaken).ticks_until_sleep != 0,
        state.after_frame().ticks_until_sleep != 0,
{
}

/// A device that is shaken is to stay awake for 600 frames from then on. Nothing else
/// that the orientation sensor reports changes anything, and frames do not bring sleep nearer.
pub proof fn law_shaking_wakes(state: MainLoop, shaken: bool)
    ensures
        state.after_imu(true).ticks_until_sleep == 600,
        state.after_imu(false) == state,
        state.after_imu(shaken).frames_until_bat == state.frames_until_bat,
        state.after_imu(true).after_imu(shaken) == state.after_imu(true),
        state.after_frame().ticks_until_sleep == state.ticks_until_sleep,
{
}

/// After the frame in which the battery was measured come 1199 frames without, and so on: it is
/// measured in every 1200th frame.
pub proof fn law_battery_is_measured_regularly(state: MainLoop, n: nat)
    requires
        state.frames_until_bat == BAT_MEASURE_TIME,
    ensures
        state.after_frames(n).frames_until_bat == 1200 - n % 1200,
        state.after_frames(n).ticks_until_sleep == state.ticks_until_sleep,
        state.after_frames(n).frames_until_bat <= 1 <==> (n + 1) % 1200 == 0,
    decreases n,
{
    if n > 0 {
        law_battery_is_measured_regularly(state, (n - 1) as nat);
    }
}

/// Whether the satellite is shown without a cross, `timestamp` microseconds after the start:
/// always where the position is fresh, and in every other second where it is not.
pub open spec fn gps_ok_shown(stale: int, timestamp: int) -> bool {
    stale == 0 || (timestamp / 1_000_000) % 2 == 1
}

/// Whether the satellite is shown without a cross, `timestamp` microseconds after the start.
pub fn show_gps_ok(stale: u8, timestamp: u64) -> (r: bool)
    ensures
        r == gps_ok_shown(stale as int, timestamp as int),
{
    stale == 0 || (timestamp / 1_000_000) % 2 == 1
}

/// The cross blinks where the position is not fresh: it is there in the first second, and a second
/// later it is there exactly if it was not. Where the position is fresh there is none.
pub proof fn law_cross_blinks(stale: int, timestamp: int)
    requires
        timestamp >= 0,
    ensures
        stale != 0 && timestamp < 1_000_000 ==> !gps_ok_shown(stale, timestamp),
        stale == 0 ==> gps_ok_shown(stale, timestamp),
        stale != 0 ==> gps_ok_shown(stale, timestamp + 1_000_000) == !gps_ok_shown(
            stale,
            timestamp,
        ),
{
}

/// The tree of places, where a card without a list of places has none.
pub fn tree_of<T>(loaded: Result<T, LocParseError>) -> (r: Result<Option<T>, LocParseError>)
    ensures
        match loaded {
            Ok(tree) => r == Ok::<Option<T>, LocParseError>(Some(tree)),
            Err(LocParseError::SourceMissing) => r == Ok::<Option<T>, LocParseError>(None),
            Err(e) => r == Err::<Option<T>, LocParseError>(e),
        },
{
    match loaded {
        Ok(tree) => Ok(Some(tree)),
        Err(LocParseError::SourceMissing) => Ok(None),
        Err(e) => Err(e),
    }
}

} // verus!
