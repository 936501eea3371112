//! The ring of lights that points the way.

use vstd::prelude::*;

verus! {

/// How many lights the ring has.
pub const LED_COUNT: usize = 24;

/// How bright the lights are while the ring is tried at the start.
pub const STARTUP_BRIGHTNESS: u8 = 32;

/// How long each light is on while the ring is tried at the start, in milliseconds.
pub const STARTUP_DELAY_MS: u32 = 85;

/// How bright the red, green, blue and white parts of a light are.
#[derive(Debug, Clone, Copy, PartialEq, Eq, Structural)]
pub struct Rgbw {
    pub r: u8,
    pub g: u8,
    pub b: u8,
    pub w: u8,
}

impl Rgbw {
    /// A light that is off.
    pub open spec fn dark() -> Rgbw {
        Rgbw { r: 0, g: 0, b: 0, w: 0 }
    }

    /// Light number `l` while the ring is tried at the start: red, green, blue and white in turn.
    pub open spec fn trial(l: int) -> Rgbw {
        if l % 4 == 0 {
            Rgbw { r: STARTUP_BRIGHTNESS, ..Rgbw::dark() }
        } else if l % 4 == 1 {
            Rgbw { g: STARTUP_BRIGHTNESS, ..Rgbw::dark() }
        } else if l % 4 == 2 {
            Rgbw { b: STARTUP_BRIGHTNESS, ..Rgbw::dark() }
        } else {
            Rgbw { w: STARTUP_BRIGHTNESS, ..Rgbw::dark() }
        }
    }
}

/// The ring with all lights off.
pub fn leds_off() -> (r: [Rgbw; 24])
    ensures
        forall|i: int| 0 <= i < 24 ==> #[trigger] r@[i] == Rgbw::dark(),
{
    [Rgbw { r: 0, g: 0, b: 0, w: 0 }; 24]
}

/// The ring with the two lights on between which the way leads: `low_color` at number `low`,
/// counted round the ring in either direction, and `high_color` at the next.
pub fn set_leds_from_direction_distance(
    low: i32,
    low_color: Rgbw,
    high_color: Rgbw,
) -> (r: [Rgbw; 24])
    ensures
        r@[low as int % 24] == low_color,
        r@[(low + 1) % 24] == high_color,
        forall|i: int|
            0 <= i < 24 && i != low as int % 24 && i != (low + 1) % 24 ==> #[trigger] r@[i]
                == Rgbw::dark(),
{
    let mut out = leds_off();
    let place: usize = low.checked_rem_euclid(24).unwrap() as usize;
    out[place] = low_color;
    out[(place + 1) % 24] = high_color;
    out
}

/// What is shown while the ring is tried at the start: each light on its own, and at last none.
pub fn startup_ring() -> (r: Vec<[Rgbw; 24]>)
    ensures
        r@.len() == 25,
        forall|l: int, i: int|
            0 <= l < 25 && 0 <= i < 24 ==> #[trigger] r@[l]@[i] == (if i == l {
                Rgbw::trial(l)
            } else {
                Rgbw::dark()
            }),
{
    let mut frames: Vec<[Rgbw; 24]> = Vec::new();
    let mut l: usize = 0;
    while l < LED_COUNT
        invariant
            l <= 24,
            frames@.len() == l,
            forall|k: int, i: int|
                0 <= k < l && 0 <= i < 24 ==> #[trigger] frames@[k]@[i] == (if i == k {
                    Rgbw::trial(k)
                } else {
                    Rgbw::dark()
                }),
        decreases 24 - l,
    {
        let mut data = leds_off();
        data[l] = match l % 4 {
            0 => Rgbw { r: STARTUP_BRIGHTNESS, g: 0, b: 0, w: 0 },
            1 => Rgbw { r: 0, g: STARTUP_BRIGHTNESS, b: 0, w: 0 },
            2 => Rgbw { r: 0, g: 0, b: STARTUP_BRIGHTNESS, w: 0 },
            _ => Rgbw { r: 0, g: 0, b: 0, w: STARTUP_BRIGHTNESS },
        };
        frames.push(data);
        l = l + 1;
    }
    frames.push(leds_off());
    frames
}

/// Each light is tried in one colour at its brightness, and four lights in a row in four
/// different colours: red, green, blue, white.
pub proof fn law_lights_are_tried_in_turn(l: int)
    ensures
        Rgbw::trial(l).r + Rgbw::trial(l).g + Rgbw::trial(l).b + Rgbw::trial(l).w
            == STARTUP_BRIGHTNESS,
        STARTUP_BRIGHTNESS == 32,
        Rgbw::trial(4 * l).r == STARTUP_BRIGHTNESS,
        Rgbw::trial(4 * l + 1).g == STARTUP_BRIGHTNESS,
        Rgbw::trial(4 * l + 2).b == STARTUP_BRIGHTNESS,
        Rgbw::trial(4 * l + 3).w == STARTUP_BRIGHTNESS,
        Rgbw::dark().r == 0 && Rgbw::dark().g == 0 && Rgbw::dark().b == 0 && Rgbw::dark().w == 0,
{
}

} // verus!
