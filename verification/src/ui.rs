//! What stands on the screen, as a list of things to draw.

use vstd::prelude::*;
use crate::date::{month_name, show_month, Date};
use crate::text::{decimal, is_digits, law_decimal_is_the_number, law_signed_decimal_is_the_number, number_of, push_decimal, push_signed, signed_decimal};

verus! {

#[derive(Debug, Clone, Copy, PartialEq, Eq, Structural)]
pub enum Font {
    /// 7 by 13 pixels, bold.
    Big,
    /// 6 by 10 pixels.
    Base,
}

/// What of a line of text stands at the given height.
#[derive(Debug, Clone, Copy, PartialEq, Eq, Structural)]
pub enum Baseline {
    Top,
    Bottom,
}

/// A place on the screen, in pixels to the right of and below its upper left corner.
#[derive(Debug, Clone, Copy, PartialEq, Eq, Structural)]
pub struct Point {
    pub x: i32,
    pub y: i32,
}

/// A picture.
#[derive(Debug, Clone, Copy, PartialEq, Eq, Structural)]
pub enum Bitmap {
    /// A satellite, 16 pixels wide.
    Satellite,
    /// A small cross, 8 pixels wide.
    Cross,
}

/// Something to draw. Text is of type `T`.
#[derive(Debug, PartialEq, Eq)]
pub enum DrawOp<T> {
    /// Wipes the screen.
    Clear,
    /// Text that is centred at `at`.
    Text { text: T, at: Point, font: Font, baseline: Baseline },
    /// A rectangle with round corners, either its outline of one pixel or filled.
    RoundedRectangle { at: Point, width: u32, height: u32, corner: u32, filled: bool },
    /// A line of one pixel.
    Line { from: Point, to: Point },
    Pixel { x: u32, y: u32 },
    Picture { picture: Bitmap, at: Point },
    /// Sends what has been drawn to the screen.
    Flush,
}

/// What the model of something to draw is.
pub open spec fn op_text(op: DrawOp<String>) -> DrawOp<Seq<char>> {
    match op {
        DrawOp::Clear => DrawOp::Clear,
        DrawOp::Text { text, at, font, baseline } => DrawOp::Text {
            text: text@,
            at,
            font,
            baseline,
        },
        DrawOp::RoundedRectangle { at, width, height, corner, filled } => DrawOp::RoundedRectangle {
            at,
            width,
            height,
            corner,
            filled,
        },
        DrawOp::Line { from, to } => DrawOp::Line { from, to },
        DrawOp::Pixel { x, y } => DrawOp::Pixel { x, y },
        DrawOp::Picture { picture, at } => DrawOp::Picture { picture, at },
        DrawOp::Flush => DrawOp::Flush,
    }
}

/// What the model of a list of things to draw is.
pub open spec fn drawn(ops: Seq<DrawOp<String>>) -> Seq<DrawOp<Seq<char>>> {
    ops.map_values(|op: DrawOp<String>| op_text(op))
}

proof fn lemma_drawn_push(ops: Seq<DrawOp<String>>, op: DrawOp<String>)
    ensures
        drawn(ops.push(op)) == drawn(ops).push(op_text(op)),
{
    assert(drawn(ops.push(op)) =~= drawn(ops).push(op_text(op)));
}

fn draw(out: &mut Vec<DrawOp<String>>, op: DrawOp<String>)
    ensures
        drawn(final(out)@) == drawn(old(out)@).push(op_text(op)),
{
    proof {
        lemma_drawn_push(out@, op);
    }
    out.push(op);
}

/// The battery: its outline, as many pixels of charge as `bat` says, and its nub.
pub open spec fn bat_ops(bat: u8) -> Seq<DrawOp<Seq<char>>> {
    let outline = DrawOp::RoundedRectangle {
        at: Point { x: 3, y: 3 },
        width: 29,
        height: 9,
        corner: 4,
        filled: false,
    };
    let charge = DrawOp::RoundedRectangle {
        at: Point { x: 5, y: 5 },
        width: bat as u32,
        height: 5,
        corner: 2,
        filled: true,
    };
    let nub = seq![
        DrawOp::Pixel { x: 33, y: 6 },
        DrawOp::Pixel { x: 33, y: 7 },
        DrawOp::Pixel { x: 33, y: 8 },
    ];
    if bat > 0 {
        seq![outline, charge] + nub
    } else {
        seq![outline] + nub
    }
}

fn draw_bat(out: &mut Vec<DrawOp<String>>, bat: u8)
    ensures
        drawn(final(out)@) == drawn(old(out)@) + bat_ops(bat),
{
    draw(
        out,
        DrawOp::RoundedRectangle {
            at: Point { x: 3, y: 3 },
            width: 29,
            height: 9,
            corner: 4,
            filled: false,
        },
    );
    if bat > 0 {
        draw(
            out,
            DrawOp::RoundedRectangle {
                at: Point { x: 5, y: 5 },
                width: bat as u32,
                height: 5,
                corner: 2,
                filled: true,
            },
        );
    }
    draw(out, DrawOp::Pixel { x: 33, y: 6 });
    draw(out, DrawOp::Pixel { x: 33, y: 7 });
    draw(out, DrawOp::Pixel { x: 33, y: 8 });
    proof {
        assert(drawn(out@) =~= drawn(old(out)@) + bat_ops(bat));
    }
}

/// So many pixels to the right of and above the centre of the compass rose.
#[derive(Debug, Clone, Copy, PartialEq, Eq, Structural)]
pub struct Offset {
    pub right: i8,
    pub up: i8,
}

impl Offset {
    /// The place on the screen.
    pub open spec fn point(self) -> Point {
        Point { x: (112 + self.right) as i32, y: (16 - self.up) as i32 }
    }

    fn place(self) -> (r: Point)
        ensures
            r == self.point(),
    {
        Point { x: 112 + self.right as i32, y: 16 - self.up as i32 }
    }
}

/// The corners of the compass rose, turned to the heading.
#[derive(Debug, Clone, Copy, PartialEq, Eq)]
pub struct Rose {
    /// The strokes of the letter for north, from its lower left to its upper right end.
    pub letter: [Offset; 4],
    /// The arrow that points north.
    pub tip: Offset,
    pub left: Offset,
    pub right: Offset,
    pub notch: Offset,
}

/// A line between two places on the compass rose.
pub open spec fn rose_line(from: Offset, to: Offset) -> DrawOp<Seq<char>> {
    DrawOp::Line { from: from.point(), to: to.point() }
}

/// The compass rose: the letter for north, and the arrow.
pub open spec fn hdg_ops(rose: Rose) -> Seq<DrawOp<Seq<char>>> {
    seq![
        rose_line(rose.letter@[0], rose.letter@[1]),
        rose_line(rose.letter@[1], rose.letter@[2]),
        rose_line(rose.letter@[2], rose.letter@[3]),
        rose_line(rose.tip, rose.left),
        rose_line(rose.tip, rose.right),
        rose_line(rose.notch, rose.left),
        rose_line(rose.notch, rose.right),
    ]
}

fn draw_hdg(out: &mut Vec<DrawOp<String>>, rose: &Rose)
    ensures
        drawn(final(out)@) == drawn(old(out)@) + hdg_ops(*rose),
{
    draw(out, DrawOp::Line { from: rose.letter[0].place(), to: rose.letter[1].place() });
    draw(out, DrawOp::Line { from: rose.letter[1].place(), to: rose.letter[2].place() });
    draw(out, DrawOp::Line { from: rose.letter[2].place(), to: rose.letter[3].place() });
    draw(out, DrawOp::Line { from: rose.tip.place(), to: rose.left.place() });
    draw(out, DrawOp::Line { from: rose.tip.place(), to: rose.right.place() });
    draw(out, DrawOp::Line { from: rose.notch.place(), to: rose.left.place() });
    draw(out, DrawOp::Line { from: rose.notch.place(), to: rose.right.place() });
    proof {
        assert(drawn(out@) =~= drawn(old(out)@) + hdg_ops(*rose));
    }
}

/// The satellite, and the cross over it where `show_x` is set.
pub open spec fn sat_ops(show_x: bool) -> Seq<DrawOp<Seq<char>>> {
    let satellite = DrawOp::Picture { picture: Bitmap::Satellite, at: Point { x: 0, y: 48 } };
    let cross = DrawOp::Picture { picture: Bitmap::Cross, at: Point { x: 0, y: 48 } };
    if show_x {
        seq![satellite, cross]
    } else {
        seq![satellite]
    }
}

fn draw_sat(out: &mut Vec<DrawOp<String>>, show_x: bool)
    ensures
        drawn(final(out)@) == drawn(old(out)@) + sat_ops(show_x),
{
    draw(out, DrawOp::Picture { picture: Bitmap::Satellite, at: Point { x: 0, y: 48 } });
    if show_x {
        draw(out, DrawOp::Picture { picture: Bitmap::Cross, at: Point { x: 0, y: 48 } });
    }
    proof {
        assert(drawn(out@) =~= drawn(old(out)@) + sat_ops(show_x));
    }
}

/// How a date is shown: the name of the month, the day, and the year.
pub open spec fn date_text(date: Date) -> Seq<char> {
    month_name(date.month as int) + " "@ + decimal(date.day as nat) + " "@ + signed_decimal(
        date.year as int,
    )
}

/// The date, below in the middle.
pub open spec fn date_ops(date: Date) -> Seq<DrawOp<Seq<char>>> {
    seq![
        DrawOp::Text {
            text: date_text(date),
            at: Point { x: 64, y: 53 },
            font: Font::Base,
            baseline: Baseline::Top,
        },
    ]
}

fn draw_date(out: &mut Vec<DrawOp<String>>, date: Date)
    requires
        date.wf(),
    ensures
        drawn(final(out)@) == drawn(old(out)@) + date_ops(date),
{
    let mut text = show_month(date.month);
    text.append(" ");
    push_decimal(&mut text, date.day as u32);
    text.append(" ");
    push_signed(&mut text, date.year);
    draw(
        out,
        DrawOp::Text { text, at: Point { x: 64, y: 53 }, font: Font::Base, baseline: Baseline::Top },
    );
    proof {
        assert(drawn(out@) =~= drawn(old(out)@) + date_ops(date));
    }
}

/// What is drawn where a part of the screen may be left out.
pub open spec fn ui_ops(
    dist: Seq<char>,
    loc: Seq<char>,
    bat: Option<u8>,
    rose: Option<Rose>,
    satellite_ok: Option<bool>,
    date: Option<Date>,
) -> Seq<DrawOp<Seq<char>>> {
    let middle = Point { x: 64, y: 32 };
    let nothing = Seq::<DrawOp<Seq<char>>>::empty();
    seq![
        DrawOp::Clear,
        DrawOp::Text { text: dist, at: middle, font: Font::Big, baseline: Baseline::Bottom },
        DrawOp::Text { text: loc, at: middle, font: Font::Base, baseline: Baseline::Top },
    ] + (match bat {
        Some(bat) => bat_ops(bat),
        None => nothing,
    }) + (match rose {
        Some(rose) => hdg_ops(rose),
        None => nothing,
    }) + (match satellite_ok {
        Some(ok) => sat_ops(!ok),
        None => nothing,
    }) + (match date {
        Some(date) => date_ops(date),
        None => nothing,
    }) + seq![DrawOp::Flush]
}

/// The whole screen: `dist` in big letters above `loc`, and as far as they are given the
/// battery, the compass rose, whether the satellites are found, and the date.
pub fn draw_ui(
    dist: &str,
    loc: &str,
    bat: Option<u8>,
    rose: Option<Rose>,
    satellite_ok: Option<bool>,
    date: Option<Date>,
) -> (r: Vec<DrawOp<String>>)
    requires
        date matches Some(date) ==> date.wf(),
    ensures
        drawn(r@) == ui_ops(dist@, loc@, bat, rose, satellite_ok, date),
{
    let mut out: Vec<DrawOp<String>> = Vec::new();
    draw(&mut out, DrawOp::Clear);
    draw(
        &mut out,
        DrawOp::Text {
            text: dist.to_string(),
            at: Point { x: 64, y: 32 },
            font: Font::Big,
            baseline: Baseline::Bottom,
        },
    );
    draw(
        &mut out,
        DrawOp::Text {
            text: loc.to_string(),
            at: Point { x: 64, y: 32 },
            font: Font::Base,
            baseline: Baseline::Top,
        },
    );
    if let Some(bat) = bat {
        draw_bat(&mut out, bat);
    }
    if let Some(rose) = rose {
        draw_hdg(&mut out, &rose);
    }
    if let Some(satellite_ok) = satellite_ok {
        draw_sat(&mut out, !satellite_ok);
    }
    if let Some(date) = date {
        draw_date(&mut out, date);
    }
    draw(&mut out, DrawOp::Flush);
    proof {
        assert(drawn(out@) =~= ui_ops(dist@, loc@, bat, rose, satellite_ok, date));
    }
    out
}

impl Bitmap {
    /// How many pixels wide the picture is.
    pub open spec fn columns(self) -> nat {
        match self {
            Bitmap::Satellite => 16,
            Bitmap::Cross => 8,
        }
    }

    /// The rows of the picture from the top down, eight pixels a byte, the leftmost in the
    /// highest bit.
    pub open spec fn rows(self) -> Seq<u8> {
        match self {
            Bitmap::Satellite => seq![
                0b0000_0000, 0b0000_0000,
                0b0000_0000, 0b0000_0000,
                0b0000_0000, 0b0000_0000,
                0b0000_0000, 0b0000_0000,
                0b0000_0000, 0b0000_0000,
                0b0000_0000, 0b1000_0000,
                0b0000_0000, 0b0101_1000,
                0b0000_0000, 0b0010_0100,
                0b0000_0000, 0b0100_0100,
                0b0000_0011, 0b0000_1000,
                0b0000_0100, 0b1001_0100,
                0b0000_0010, 0b0100_0010,
                0b0000_0001, 0b0010_0000,
                0b0000_0010, 0b1010_0000,
                0b0000_0100, 0b0100_0000,
                0b0000_0000, 0b0000_0000,
            ],
            Bitmap::Cross => seq![
                0b0000_0000,
                0b0100_0100,
                0b0010_1000,
                0b0001_0000,
                0b0010_1000,
                0b0100_0100,
            ],
        }
    }

    /// How many pixels wide the picture is.
    pub fn width(self) -> (r: u32)
        ensures
            r == self.columns(),
    {
        match self {
            Bitmap::Satellite => 16,
            Bitmap::Cross => 8,
        }
    }

    /// The rows of the picture from the top down, eight pixels a byte, the leftmost in the
    /// highest bit.
    pub fn data(self) -> (r: Vec<u8>)
        ensures
            r@ == self.rows(),
    {
        let r: Vec<u8> = match self {
            Bitmap::Satellite => vec![
                0b0000_0000, 0b0000_0000,
                0b0000_0000, 0b0000_0000,
                0b0000_0000, 0b0000_0000,
                0b0000_0000, 0b0000_0000,
                0b0000_0000, 0b0000_0000,
                0b0000_0000, 0b1000_0000,
                0b0000_0000, 0b0101_1000,
                0b0000_0000, 0b0010_0100,
                0b0000_0000, 0b0100_0100,
                0b0000_0011, 0b0000_1000,
                0b0000_0100, 0b1001_0100,
                0b0000_0010, 0b0100_0010,
                0b0000_0001, 0b0010_0000,
                0b0000_0010, 0b1010_0000,
                0b0000_0100, 0b0100_0000,
                0b0000_0000, 0b0000_0000,
            ],
            Bitmap::Cross => vec![
                0b0000_0000,
                0b0100_0100,
                0b0010_1000,
                0b0001_0000,
                0b0010_1000,
                0b0100_0100,
            ],
        };
        proof {
            assert(r@ =~= self.rows());
        }
        r
    }
}

/// Whether `op` fills a rectangle.
pub open spec fn fills(op: DrawOp<Seq<char>>) -> bool {
    op matches DrawOp::RoundedRectangle { filled, .. } && filled
}

/// Whether `op` draws `picture`.
pub open spec fn pictures(op: DrawOp<Seq<char>>, picture: Bitmap) -> bool {
    op matches DrawOp::Picture { picture: p, .. } && p == picture
}

/// What is drawn before the battery.
spec fn head_ops(dist: Seq<char>, loc: Seq<char>) -> Seq<DrawOp<Seq<char>>> {
    ui_ops(dist, loc, None, None, None, None).drop_last()
}

/// What is drawn behind the battery.
spec fn tail_ops(rose: Option<Rose>, satellite_ok: Option<bool>, date: Option<Date>) -> Seq<
    DrawOp<Seq<char>>,
> {
    ui_ops(Seq::empty(), Seq::empty(), None, rose, satellite_ok, date).skip(3)
}

proof fn lemma_screen(
    dist: Seq<char>,
    loc: Seq<char>,
    bat: Option<u8>,
    rose: Option<Rose>,
    satellite_ok: Option<bool>,
    date: Option<Date>,
)
    ensures
        ui_ops(dist, loc, bat, rose, satellite_ok, date) == head_ops(dist, loc) + ((match bat {
            Some(bat) => bat_ops(bat),
            None => Seq::empty(),
        }) + tail_ops(rose, satellite_ok, date)),
        head_ops(dist, loc).len() == 3,
        forall|i: int|
            0 <= i < 3 ==> !fills(#[trigger] head_ops(dist, loc)[i]) && !(head_ops(
                dist,
                loc,
            )[i] is Picture),
        forall|i: int|
            0 <= i < tail_ops(rose, satellite_ok, date).len() ==> !fills(
                #[trigger] tail_ops(rose, satellite_ok, date)[i],
            ),
{
    assert(ui_ops(dist, loc, bat, rose, satellite_ok, date) =~= head_ops(dist, loc) + ((match bat {
        Some(bat) => bat_ops(bat),
        None => Seq::empty(),
    }) + tail_ops(rose, satellite_ok, date)));
}

/// Whether number `i` of `ops` is the only filled rectangle, and `width` pixels wide.
pub open spec fn is_only_bar(ops: Seq<DrawOp<Seq<char>>>, i: int, width: int) -> bool {
    &&& 0 <= i < ops.len()
    &&& ops[i] matches DrawOp::RoundedRectangle { at, width: w, filled, .. } && filled && w == width
        && at.x == 5 && at.y == 5
    &&& forall|j: int| 0 <= j < ops.len() && fills(#[trigger] ops[j]) ==> j == i
}

/// The bar of the battery is as many pixels wide as the level says, and always starts at the same
/// place: there is exactly one filled rectangle on the screen, and none for an empty battery.
pub proof fn law_battery_bar_is_as_wide_as_the_level(
    dist: Seq<char>,
    loc: Seq<char>,
    bat: u8,
    rose: Option<Rose>,
    satellite_ok: Option<bool>,
    date: Option<Date>,
)
    ensures
        bat > 0 ==> exists|i: int|
            is_only_bar(ui_ops(dist, loc, Some(bat), rose, satellite_ok, date), i, bat as int),
        bat == 0 ==> forall|j: int|
            0 <= j < ui_ops(dist, loc, Some(bat), rose, satellite_ok, date).len() ==> !fills(
                #[trigger] ui_ops(dist, loc, Some(bat), rose, satellite_ok, date)[j],
            ),
        forall|j: int|
            0 <= j < ui_ops(dist, loc, None, rose, satellite_ok, date).len() ==> !fills(
                #[trigger] ui_ops(dist, loc, None, rose, satellite_ok, date)[j],
            ),
{
    lemma_screen(dist, loc, Some(bat), rose, satellite_ok, date);
    lemma_screen(dist, loc, None, rose, satellite_ok, date);
    let head = head_ops(dist, loc);
    let tail = tail_ops(rose, satellite_ok, date);
    let none = ui_ops(dist, loc, None, rose, satellite_ok, date);
    assert forall|j: int| 0 <= j < none.len() implies !fills(#[trigger] none[j]) by {
        if j < 3 {
            assert(none[j] == head[j]);
        } else {
            assert(none[j] == tail[j - 3]);
        }
    }
    let ops = ui_ops(dist, loc, Some(bat), rose, satellite_ok, date);
    let b = bat_ops(bat);
    assert forall|j: int| 0 <= j < ops.len() && fills(#[trigger] ops[j]) implies bat > 0 && j
        == 4 by {
        if j < 3 {
            assert(ops[j] == head[j]);
        } else if j < 3 + b.len() {
            assert(ops[j] == b[j - 3]);
        } else {
            assert(ops[j] == tail[j - 3 - b.len()]);
        }
    }
    if bat > 0 {
        assert(ops[4] == b[1]);
        assert(is_only_bar(ops, 4, bat as int));
    }
}

/// Of two levels the higher has the wider bar, by as many pixels.
pub proof fn law_higher_level_has_wider_bar(a: u8, b: u8, i: int, j: int)
    requires
        0 < a < b,
        0 <= i < bat_ops(a).len(),
        0 <= j < bat_ops(b).len(),
        fills(bat_ops(a)[i]),
        fills(bat_ops(b)[j]),
    ensures
        bat_ops(a)[i]->RoundedRectangle_at == bat_ops(b)[j]->RoundedRectangle_at,
        bat_ops(a)[i]->RoundedRectangle_height == bat_ops(b)[j]->RoundedRectangle_height,
        bat_ops(b)[j]->RoundedRectangle_width - bat_ops(a)[i]->RoundedRectangle_width == b - a,
{
}

/// The outline of the battery and its nub are drawn for every level, two pixels around the bar of
/// a full one.
pub proof fn law_battery_outline_holds_the_bar(bat: u8)
    ensures
        bat_ops(bat)[0] matches DrawOp::RoundedRectangle { at, width, height, corner, filled } && {
            &&& !filled
            &&& at.x + 2 == 5 && at.y + 2 == 5
            &&& at.x + width == 5 + 25 + 2 && at.y + height == 5 + 5 + 2
            &&& corner == 4
            &&& bat > 0 ==> (bat_ops(bat)[1] matches DrawOp::RoundedRectangle {
                at: p,
                height: h,
                corner: c,
                filled: true,
                ..
            } && p.x == 5 && p.y == 5 && h == 5 && c == 2)
            &&& forall|y: u32| 6 <= y <= 8 ==> #[trigger] bat_ops(bat).contains(
                DrawOp::Pixel { x: 33, y },
            )
        },
{
    let ops = bat_ops(bat);
    let n = ops.len() as int;
    assert(ops[n - 3] == (DrawOp::<Seq<char>>::Pixel { x: 33, y: 6 }));
    assert(ops[n - 2] == (DrawOp::<Seq<char>>::Pixel { x: 33, y: 7 }));
    assert(ops[n - 1] == (DrawOp::<Seq<char>>::Pixel { x: 33, y: 8 }));
}

/// The satellite is on the screen exactly if it is asked for, and the cross over it exactly if
/// the satellites are not found; the cross comes later and at the same place.
pub proof fn law_cross_is_drawn_without_satellites(
    dist: Seq<char>,
    loc: Seq<char>,
    bat: Option<u8>,
    rose: Option<Rose>,
    satellite_ok: Option<bool>,
    date: Option<Date>,
)
    ensures
        ({
            let ops = ui_ops(dist, loc, bat, rose, satellite_ok, date);
            &&& satellite_ok is Some <==> exists|i: int|
                0 <= i < ops.len() && pictures(#[trigger] ops[i], Bitmap::Satellite)
            &&& satellite_ok == Some(false) <==> exists|i: int|
                0 <= i < ops.len() && pictures(#[trigger] ops[i], Bitmap::Cross)
            &&& satellite_ok == Some(false) ==> exists|i: int|
                {
                    &&& 0 <= i < ops.len() - 1
                    &&& #[trigger] ops[i] matches DrawOp::Picture { picture: Bitmap::Satellite, at }
                    &&& at.x == 0 && at.y == 48
                    &&& ops[i + 1] == (DrawOp::<Seq<char>>::Picture { picture: Bitmap::Cross, at })
                }
        }),
{
    let ops = ui_ops(dist, loc, bat, rose, satellite_ok, date);
    let b: int = match bat {
        Some(bat) => bat_ops(bat).len() as int,
        None => 0,
    };
    let r: int = match rose {
        Some(_) => 7,
        None => 0,
    };
    let n = 3 + b + r;
    let s: Seq<DrawOp<Seq<char>>> = match satellite_ok {
        Some(ok) => sat_ops(!ok),
        None => Seq::empty(),
    };
    assert forall|i: int| 0 <= i < ops.len() && #[trigger] ops[i] is Picture implies n <= i < n
        + s.len() by {
        if i < 3 {
        } else if i < 3 + b {
            assert(ops[i] == bat_ops(bat->0)[i - 3]);
        } else if i < n {
            assert(ops[i] == hdg_ops(rose->0)[i - 3 - b]);
        }
    }
    assert forall|i: int| n <= i < n + s.len() implies #[trigger] ops[i] == s[i - n] by {}
    if satellite_ok is Some {
        assert(ops[n] == s[0]);
        assert(pictures(ops[n], Bitmap::Satellite));
        if satellite_ok == Some(false) {
            assert(ops[n + 1] == s[1]);
            assert(pictures(ops[n + 1], Bitmap::Cross));
        }
    }
}

/// The screen is wiped first and sent last. In between the big text comes before the small one,
/// on both sides of the same line, and no other text but the date is drawn.
pub proof fn law_texts_are_drawn(
    dist: Seq<char>,
    loc: Seq<char>,
    bat: Option<u8>,
    rose: Option<Rose>,
    satellite_ok: Option<bool>,
    date: Option<Date>,
)
    ensures
        ({
            let ops = ui_ops(dist, loc, bat, rose, satellite_ok, date);
            &&& ops[0] is Clear && ops.last() is Flush
            &&& forall|i: int|
                0 < i < ops.len() - 1 ==> !(#[trigger] ops[i] is Clear) && !(ops[i] is Flush)
            &&& ops[1] matches DrawOp::Text { text, at: p, font: Font::Big, baseline: Baseline::Bottom }
            &&& text == dist
            &&& ops[2] matches DrawOp::Text { text: under, at: q, font: Font::Base, baseline: Baseline::Top }
            &&& under == loc && p == q && p.x == 64 && p.y == 32
            &&& forall|i: int|
                2 < i < ops.len() && #[trigger] ops[i] is Text ==> i == ops.len() - 2 && date
                    is Some
            &&& date matches Some(d) ==> (ops[ops.len() - 2] matches DrawOp::Text {
                text: day,
                at: below,
                font: Font::Base,
                baseline: Baseline::Top,
            } && day == date_text(d) && below.x == 64 && below.y == 53)
        }),
{
    let ops = ui_ops(dist, loc, bat, rose, satellite_ok, date);
    let mid = middle_ops(bat, rose, satellite_ok);
    let day = match date {
        Some(date) => date_ops(date),
        None => Seq::empty(),
    };
    let n = mid.len() as int;
    lemma_middle(bat, rose, satellite_ok);
    assert(ops =~= ops.take(3) + mid + day + seq![DrawOp::Flush]);
    assert forall|i: int| 2 < i < 3 + n implies #[trigger] ops[i] == mid[i - 3] by {}
    if date is Some {
        assert(ops[3 + n] == day[0]);
    }
}

/// What is drawn between the texts and the date.
spec fn middle_ops(bat: Option<u8>, rose: Option<Rose>, satellite_ok: Option<bool>) -> Seq<
    DrawOp<Seq<char>>,
> {
    let nothing = Seq::<DrawOp<Seq<char>>>::empty();
    (match bat {
        Some(bat) => bat_ops(bat),
        None => nothing,
    }) + (match rose {
        Some(rose) => hdg_ops(rose),
        None => nothing,
    }) + (match satellite_ok {
        Some(ok) => sat_ops(!ok),
        None => nothing,
    })
}

proof fn lemma_middle(bat: Option<u8>, rose: Option<Rose>, satellite_ok: Option<bool>)
    ensures
        forall|i: int|
            0 <= i < middle_ops(bat, rose, satellite_ok).len() ==> {
                let op = #[trigger] middle_ops(bat, rose, satellite_ok)[i];
                !(op is Text) && !(op is Clear) && !(op is Flush)
            },
{
    let mid = middle_ops(bat, rose, satellite_ok);
    let b: int = match bat {
        Some(bat) => bat_ops(bat).len() as int,
        None => 0,
    };
    let r: int = match rose {
        Some(_) => 7,
        None => 0,
    };
    assert forall|i: int| 0 <= i < mid.len() implies {
        let op = #[trigger] mid[i];
        !(op is Text) && !(op is Clear) && !(op is Flush)
    } by {
        if i < b {
            assert(mid[i] == bat_ops(bat->0)[i]);
        } else if i < b + r {
            assert(mid[i] == hdg_ops(rose->0)[i - b]);
        } else {
            assert(mid[i] == sat_ops(!satellite_ok->0)[i - b - r]);
        }
    }
}

/// The compass rose is drawn around the same centre: a place so many pixels to the right and up
/// is that far from (112, 16). The letter is one stroke of three lines, and the arrow goes from
/// its tip and from its notch to both of its sides.
pub proof fn law_rose_is_drawn(rose: Rose, o: Offset)
    ensures
        o.point().x - 112 == o.right && 16 - o.point().y == o.up,
        hdg_ops(rose).len() == 7,
        forall|k: int|
            0 <= k < 3 ==> (#[trigger] hdg_ops(rose)[k] matches DrawOp::Line { from, to } && from.x
                - 112 == rose.letter@[k].right && 16 - from.y == rose.letter@[k].up && to.x - 112
                == rose.letter@[k + 1].right && 16 - to.y == rose.letter@[k + 1].up),
        hdg_ops(rose)[3] matches DrawOp::Line { from: tip, to: left } && (hdg_ops(
            rose,
        )[4] matches DrawOp::Line { from: tip2, to: right } && (hdg_ops(
            rose,
        )[5] matches DrawOp::Line { from: notch, to: left2 } && (hdg_ops(
            rose,
        )[6] matches DrawOp::Line { from: notch2, to: right2 } && {
            &&& tip == tip2 && notch == notch2 && left == left2 && right == right2
            &&& tip.x - 112 == rose.tip.right && 16 - tip.y == rose.tip.up
            &&& left.x - 112 == rose.left.right && 16 - left.y == rose.left.up
            &&& right.x - 112 == rose.right.right && 16 - right.y == rose.right.up
            &&& notch.x - 112 == rose.notch.right && 16 - notch.y == rose.notch.up
        }))),
{
}

/// Whether the pixel of `picture` in column `x` and row `y`, counted from its upper left corner, is
/// set.
pub open spec fn is_set(picture: Bitmap, x: int, y: int) -> bool {
    let byte = picture.rows()[(y * picture.columns() + x) / 8] as int;
    let bit = x % 8;
    (byte / (if bit == 0 {
        128
    } else if bit == 1 {
        64
    } else if bit == 2 {
        32
    } else if bit == 3 {
        16
    } else if bit == 4 {
        8
    } else if bit == 5 {
        4
    } else if bit == 6 {
        2
    } else {
        1int
    })) % 2 == 1
}

/// The small cross is two strokes that meet in its middle.
pub proof fn law_cross_is_two_strokes(x: int, y: int)
    requires
        0 <= x < 8,
        0 <= y < 6,
    ensures
        Bitmap::Cross.rows().len() == 6,
        is_set(Bitmap::Cross, x, y) <==> y > 0 && (x == y || x + y == 6),
{
    assert((y * 8 + x) / 8 == y);
}

/// The text of a date reads back: the name of the month, the day in digits, and the year.
pub proof fn law_date_reads_back(date: Date)
    ensures
        exists|day: Seq<char>, year: Seq<char>|
            {
                &&& #[trigger] date_parts(date, day, year)
                &&& number_of(day) == date.day
                &&& date.year >= 0 ==> is_digits(year) && number_of(year) == date.year
                &&& date.year < 0 ==> year[0] == '-' && number_of(year.skip(1)) == -date.year
            },
{
    reveal_strlit(" ");
    let day = decimal(date.day as nat);
    let year = signed_decimal(date.year as int);
    law_decimal_is_the_number(date.day as nat);
    law_signed_decimal_is_the_number(date.year as int);
    assert(date_text(date) =~= month_name(date.month as int) + seq![' '] + day + seq![' '] + year);
    assert(date_parts(date, day, year));
}

/// Whether the text of a date is the name of its month, `day` and `year`.
pub open spec fn date_parts(date: Date, day: Seq<char>, year: Seq<char>) -> bool {
    is_digits(day) && date_text(date) == month_name(date.month as int) + seq![' '] + day + seq![' ']
        + year
}

} // verus!
