use digicompass::crash::{note_failure, wrap};
use digicompass::data::{
    bat_level_25, name_cache, parse_and_calc, show_distance, wants_name, Data, DataError, Place,
};
use digicompass::date::Date;
use digicompass::device::{
    show_gps_ok, tree_of, Attention, FakeTimesource, FakeTimesourceReader, InterruptFlags, MainLoop,
    TickReader,
};
use digicompass::leds::{leds_off, set_leds_from_direction_distance, startup_ring, Rgbw};
use digicompass::locations::load::Timestamp;
use digicompass::locations::LocParseError;
use digicompass::logger::{
    discard_step, flush_step, logger_taken, poll_from_interrupt, try_setup_logger, write_step,
    PortError, PortStep, Release, SerialLogger,
};
use digicompass::ui::{draw_ui, Baseline, Bitmap, DrawOp, Font, Offset, Point, Rose};
use digicompass::wait::Waiting;

const DARK: Rgbw = Rgbw { r: 0, g: 0, b: 0, w: 0 };

#[test]
fn battery_levels() {
    let range = (16, 4096);
    assert_eq!(bat_level_25(0, range), 0);
    assert_eq!(bat_level_25(16, range), 0);
    // 3.7 V
    assert_eq!(bat_level_25(16 + 2287, range), 2);
    // 3.85 V, where the slope changes
    assert_eq!(bat_level_25(16 + 2379, range), 13);
    assert_eq!(bat_level_25(16 + 2380, range), 14);
    assert_eq!(bat_level_25(7, (0, 12)), 14);
    // 4.2 V
    assert_eq!(bat_level_25(16 + 2596, range), 25);
    assert_eq!(bat_level_25(4096, range), 103);
    // 429 * 65535 / 2 - 111, of which eight bits are kept
    assert_eq!(bat_level_25(u16::MAX, (0, 1)), 186);
}

#[test]
fn battery_level_never_falls_with_the_voltage() {
    let mut last = 0;
    for raw in 0..=4096 {
        let level = bat_level_25(raw, (16, 4096));
        assert!(level >= last);
        last = level;
    }
}

#[test]
fn distances() {
    assert_eq!(show_distance(0), "0.0 m");
    assert_eq!(show_distance(1234), "123.4 m");
    assert_eq!(show_distance(14999), "1499.9 m");
    assert_eq!(show_distance(15000), "1.5 km");
    assert_eq!(show_distance(15999), "1.5 km");
    assert_eq!(show_distance(u32::MAX), "429496.7 km");
}

fn calc(
    place: Place,
    cached: Option<(usize, String)>,
    loaded: Option<Result<String, LocParseError>>,
) -> Result<Data<i32>, DataError> {
    parse_and_calc(place, cached, loaded, "0.1 0.2".to_string(), 77, 5, -6, (2612, (16, 4096)))
}

#[test]
fn place_is_shown() {
    let near = Place::Near { tag: 9, dist_dm: 1239 };
    let data = calc(near, None, Some(Ok("Home".to_string()))).unwrap();
    let shown = Data {
        name_cache_tag: Some(9),
        name: "Home".to_string(),
        dist: "123.9 m".to_string(),
        true_heading_rad: 5,
        dist_m: 123,
        bearing_rad: -6,
        bat: 25,
    };
    assert_eq!(data, shown);
    let cache = name_cache(data);
    assert_eq!(cache, Some((9, "Home".to_string())));
    assert!(!wants_name(near, &cache));
    assert_eq!(calc(near, cache, None), Ok(shown));
}

#[test]
fn another_place_is_loaded() {
    let near = Place::Near { tag: 8, dist_dm: 0 };
    let cache = Some((9, "Home".to_string()));
    assert!(wants_name(near, &cache));
    assert!(wants_name(near, &None));
    let data = calc(near, cache, Some(Ok("Work".to_string()))).unwrap();
    assert_eq!(data.name, "Work");
    assert_eq!(data.name_cache_tag, Some(8));
    assert_eq!(
        calc(near, None, Some(Err(LocParseError::SourceMissing))),
        Err(DataError::LocParseError(LocParseError::SourceMissing))
    );
}

#[test]
fn no_place_is_the_north_pole() {
    for (place, name) in [(Place::NoCard, "No SD"), (Place::NoLocations, "No Locs")] {
        assert!(!wants_name(place, &None));
        let data = calc(place, Some((9, "Home".to_string())), None).unwrap();
        assert_eq!(data.name, name);
        assert_eq!(data.dist, "0.1 0.2");
        assert_eq!(data.dist_m, 77);
        assert_eq!(data.name_cache_tag, None);
        assert_eq!(name_cache(data), None);
    }
}

#[test]
fn data_messages() {
    assert_eq!(DataError::InvalidDate("d".to_string()).message(), "GPS date was invalid: d");
    assert_eq!(
        DataError::CompassError("c".to_string()).message(),
        "error finding magnetic declination: c"
    );
    assert_eq!(
        DataError::from(LocParseError::SourceMissing).message(),
        "could not load nearest location: missing locations source file"
    );
}

#[test]
fn ring_points_between_two_lights() {
    let (low, high) = (Rgbw { r: 1, g: 2, b: 3, w: 4 }, Rgbw { r: 5, g: 6, b: 7, w: 8 });
    let ring = set_leds_from_direction_distance(47, low, high);
    assert_eq!(ring[23], low);
    assert_eq!(ring[0], high);
    assert_eq!(ring[1..23], [DARK; 22]);
    assert_eq!(leds_off(), [DARK; 24]);
    let ring = set_leds_from_direction_distance(-1, low, high);
    assert_eq!(ring[23], low);
    assert_eq!(ring[0], high);
    assert_eq!(set_leds_from_direction_distance(-30, low, high)[18], low);
    assert_eq!(set_leds_from_direction_distance(i32::MAX, low, high)[7], low);
    assert_eq!(set_leds_from_direction_distance(i32::MIN, low, high)[16], low);
}

#[test]
fn ring_is_tried_at_the_start() {
    let frames = startup_ring();
    assert_eq!(frames.len(), 25);
    assert_eq!(frames[0][0], Rgbw { r: 32, ..DARK });
    assert_eq!(frames[5][5], Rgbw { g: 32, ..DARK });
    assert_eq!(frames[10][10], Rgbw { b: 32, ..DARK });
    assert_eq!(frames[23][23], Rgbw { w: 32, ..DARK });
    assert_eq!(frames[23][..23], [DARK; 23]);
    assert_eq!(frames[24], [DARK; 24]);
}

fn text(text: &str, y: i32, font: Font, baseline: Baseline) -> DrawOp<String> {
    DrawOp::Text { text: text.to_string(), at: Point { x: 64, y }, font, baseline }
}

#[test]
fn greeting_screen() {
    assert_eq!(
        draw_ui("DIGICOMPASS", "Donebog, Inc.", None, None, None, None),
        vec![
            DrawOp::Clear,
            text("DIGICOMPASS", 32, Font::Big, Baseline::Bottom),
            text("Donebog, Inc.", 32, Font::Base, Baseline::Top),
            DrawOp::Flush,
        ]
    );
}

#[test]
fn full_screen() {
    let o = |right, up| Offset { right, up };
    let rose = Rose {
        letter: [o(1, 2), o(3, 4), o(5, 6), o(7, 8)],
        tip: o(0, 9),
        left: o(-5, -8),
        right: o(5, -8),
        notch: o(0, -3),
    };
    let date = Date { year: 2024, month: 9, day: 3 };
    let ops = draw_ui("A", "B", Some(25), Some(rose), Some(false), Some(date));
    assert_eq!(ops.len(), 3 + 5 + 7 + 2 + 1 + 1);
    assert_eq!(
        ops[4],
        DrawOp::RoundedRectangle { at: Point { x: 5, y: 5 }, width: 25, height: 5, corner: 2, filled: true }
    );
    assert_eq!(ops[5], DrawOp::Pixel { x: 33, y: 6 });
    assert_eq!(ops[8], DrawOp::Line { from: Point { x: 113, y: 14 }, to: Point { x: 115, y: 12 } });
    assert_eq!(ops[11], DrawOp::Line { from: Point { x: 112, y: 7 }, to: Point { x: 107, y: 24 } });
    assert_eq!(ops[14], DrawOp::Line { from: Point { x: 112, y: 19 }, to: Point { x: 117, y: 24 } });
    assert_eq!(ops[15], DrawOp::Picture { picture: Bitmap::Satellite, at: Point { x: 0, y: 48 } });
    assert_eq!(ops[16], DrawOp::Picture { picture: Bitmap::Cross, at: Point { x: 0, y: 48 } });
    assert_eq!(ops[17], text("September 3 2024", 53, Font::Base, Baseline::Top));
    assert_eq!(ops[18], DrawOp::Flush);
    assert_eq!(draw_ui("A", "B", Some(0), None, Some(true), None).len(), 3 + 4 + 1 + 1);
}

#[test]
fn months_have_names() {
    let names = [
        "January", "February", "March", "April", "May", "June", "July", "August", "September",
        "October", "November", "December",
    ];
    for (i, name) in names.iter().enumerate() {
        let date = Date { year: -9999, month: i as u8 + 1, day: 28 };
        let ops = draw_ui("", "", None, None, None, Some(date));
        assert_eq!(ops[3], text(&format!("{} 28 -9999", name), 53, Font::Base, Baseline::Top));
    }
}

#[test]
fn pictures() {
    assert_eq!(Bitmap::Satellite.width(), 16);
    assert_eq!(Bitmap::Satellite.data().len(), 32);
    assert_eq!(Bitmap::Cross.data(), vec![0, 0x44, 0x28, 0x10, 0x28, 0x44]);
    assert_eq!(Bitmap::Cross.width(), 8);
}

#[test]
fn messages_take_the_log_one_at_a_time() {
    let mut log = SerialLogger::new();
    assert!(!logger_taken(&log));
    assert_eq!(log.write_all(b"x"), None);
    assert!(!log.flush());
    assert!(!log.write_encoded());
    assert!(!poll_from_interrupt(&log));
    assert_eq!(try_setup_logger(&log, 5004), Waiting { left: 1000, interval_ms: 5 });
    log.finish_setup(true);
    let before = log;
    log.acquire();
    assert!(logger_taken(&log));
    assert!(log.write_encoded());
    assert_eq!(log.write_all(b"x"), Some(&b"x"[..]));
    assert_eq!(log.write_all(b""), None);
    assert_eq!(log.release(), Release { ends: true, let_through: true });
    assert!(!logger_taken(&log));
    assert_eq!(log, before);
    assert!(poll_from_interrupt(&log));
    assert!(log.flush());
}

#[test]
fn log_without_a_port_stays_taken() {
    let mut log = SerialLogger::new();
    log.finish_setup(false);
    log.acquire();
    assert_eq!(log.release(), Release { ends: false, let_through: true });
    assert!(logger_taken(&log));
}

#[test]
fn bytes_go_out_in_pieces() {
    let mut rest: &[u8] = b"hello";
    assert_eq!(write_step(&mut rest, Ok(2)), PortStep::Again);
    assert_eq!(rest, b"llo");
    assert_eq!(write_step(&mut rest, Err(PortError::WouldBlock)), PortStep::Poll);
    assert_eq!(rest, b"llo");
    assert_eq!(write_step(&mut rest, Ok(3)), PortStep::Done);
    assert_eq!(rest, b"");
    assert_eq!(write_step(&mut rest, Err(PortError::Other)), PortStep::Fail);
    assert_eq!(flush_step(Ok(())), PortStep::Done);
    assert_eq!(flush_step(Err(PortError::WouldBlock)), PortStep::Poll);
    assert_eq!(flush_step(Err(PortError::Other)), PortStep::Fail);
    assert_eq!(discard_step(Ok(1)), PortStep::Again);
    assert_eq!(discard_step(Err(PortError::WouldBlock)), PortStep::Done);
    assert_eq!(discard_step(Err(PortError::Other)), PortStep::Fail);
}

#[test]
fn wait_ends() {
    let mut w = Waiting::wait_for_usb_bus(25);
    assert_eq!(w, Waiting { left: 2, interval_ms: 10 });
    assert!(!w.look(false));
    assert!(!w.is_over());
    assert!(!w.look(false));
    assert!(w.is_over());
    let mut w = Waiting::wait_for_usb_bus(10);
    assert!(w.look(true));
    assert!(Waiting::wait_for_usb_bus(9).is_over());
}

#[test]
fn attention_is_given_once() {
    let mut flags = InterruptFlags::new();
    for a in [Attention::DeadlineAlarm, Attention::GpsRx, Attention::ImuRx] {
        assert!(!flags.take(a, false));
        assert!(flags.take(a, true));
        flags.raise(a);
    }
    assert_eq!(flags, InterruptFlags { deadline_alarm: true, gps_rx: true, imu_rx: true });
    assert!(flags.take(Attention::GpsRx, false));
    assert!(!flags.take(Attention::GpsRx, false));
    assert!(flags.take(Attention::ImuRx, true));
    assert_eq!(flags, InterruptFlags { deadline_alarm: true, gps_rx: false, imu_rx: false });
}

#[test]
fn files_bear_the_time_that_was_set() {
    let mut source = FakeTimesource::new();
    let reader = FakeTimesourceReader::default();
    let t = Timestamp {
        year_since_1970: 54,
        zero_indexed_month: 1,
        zero_indexed_day: 2,
        hours: 3,
        minutes: 4,
        seconds: 5,
    };
    assert_eq!(reader.get_timestamp(&source).year_since_1970, 0);
    source.set(t);
    assert_eq!(reader.get_timestamp(&source), t);
}

#[test]
fn counter_is_read_in_halves() {
    let mut ticks = TickReader::new(1);
    assert_eq!(ticks.get_ticks(u32::MAX, 2), None);
    assert_eq!(ticks.get_ticks(7, 2), Some(0x2_0000_0007));
}

#[test]
fn battery_is_measured_regularly() {
    let mut state = MainLoop::new();
    let measured: Vec<usize> = (0..3000).filter(|_| state.frame()).collect();
    assert_eq!(measured, vec![1199, 2399]);
}

#[test]
fn shaking_wakes_only_what_sleeps() {
    let mut state = MainLoop::new();
    assert!(!state.imu_update(true));
    assert!(!state.imu_update(false));
    assert_eq!(state, MainLoop::new());
    state.ticks_until_sleep = 0;
    assert!(!state.imu_update(false));
    assert!(state.imu_update(true));
    assert_eq!(state, MainLoop::new());
}

#[test]
fn cross_blinks_without_a_fix() {
    assert!(show_gps_ok(0, 0));
    assert!(!show_gps_ok(1, 999_999));
    assert!(show_gps_ok(1, 1_000_000));
    assert!(!show_gps_ok(255, 2_000_000));
}

#[test]
fn card_without_a_list_has_no_tree() {
    assert_eq!(tree_of(Ok(1)), Ok(Some(1)));
    assert_eq!(tree_of::<u8>(Err(LocParseError::SourceMissing)), Ok(None));
    assert_eq!(tree_of::<u8>(Err(LocParseError::InvalidCoords)), Err(LocParseError::InvalidCoords));
}

#[test]
fn long_lines_are_broken() {
    assert_eq!(wrap("").as_str(), "");
    let line = "a".repeat(32);
    assert_eq!(wrap(&line).as_str(), line);
    assert_eq!(wrap(&format!("{}bc", line)).as_str(), format!("{}\nbc", line));
    let whole = wrap(&"a".repeat(300));
    assert!(whole.as_str().split('\n').all(|l| l.chars().count() <= 32));
    assert_eq!(whole.as_str().replace('\n', ""), "a".repeat(300));
}

#[test]
fn own_line_breaks_stay() {
    assert_eq!(wrap("ab\ncd").as_str(), "ab\ncd");
    let half = "a".repeat(17);
    assert_eq!(wrap(&format!("{}\n{}", half, half)).as_str(), format!("{}\n{}", half, half));
    let line = "a".repeat(32);
    assert_eq!(wrap(&format!("{}\nb", line)).as_str(), format!("{}\nb", line));
    assert_eq!(wrap("\n\n").as_str(), "\n\n");
}

#[test]
fn screen_is_full_at_its_limit() {
    let whole = wrap(&"a".repeat(600));
    assert_eq!(whole.as_str().len(), 522);
    let wide = wrap(&"\u{20ac}".repeat(5 * 32 + 15));
    assert_eq!(wide.as_str().len(), 521);
    assert_eq!(wide.as_str().chars().count(), 5 * 33 + 12);
}

#[test]
fn failure_to_write_a_message_is_noted() {
    let mut s = heapless::String::<512>::new();
    s.push_str("x").unwrap();
    note_failure(&mut s);
    assert_eq!(s.as_str(), "xpanicked, and also failed to format the panic :(");
    let mut s = heapless::String::<512>::new();
    s.push_str(&"x".repeat(500)).unwrap();
    note_failure(&mut s);
    assert_eq!(s.as_str().len(), 500);
}
