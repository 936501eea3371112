use digicompass::date::Date;
use digicompass::gps::fix::{GpsMtk, UpdateRead};
use digicompass::gps::link::{AckWait, BlockingRead, Discard, GpsInit, InitAction, PortRead, ReadStep};
use digicompass::gps::sentence::{frame, SentenceReader, SentenceStep};
use digicompass::gps::{GpsError, ReadErrorType};

fn read(stream: &[u8]) -> Result<Vec<u8>, GpsError> {
    let mut reader = SentenceReader::new();
    let mut rest = stream;
    loop {
        let n = reader.wants();
        let (bytes, after) = rest.split_at(n);
        rest = after;
        match reader.accept(bytes) {
            SentenceStep::More => {}
            SentenceStep::Done(body) => return Ok(body),
            SentenceStep::Fail(e) => return Err(e),
        }
    }
}

fn updated(sentence: &str) -> (GpsMtk, Result<(), GpsError>) {
    let mut gps = GpsMtk::new();
    assert!(GpsMtk::is_readable(sentence.as_bytes()));
    let r = gps.update(sentence.as_bytes());
    (gps, r)
}

const GGA: &str = "GPGGA,053103.294,4807.038,N,01131.000,E,1,08,0.9,545.4,M,46.9,M,,";
const RMC: &str = "GPRMC,235944.097,A,3345.5000,S,15112.2500,W,0.00,0.00,050124,,,A";

#[test]
fn command_is_framed() {
    assert_eq!(frame(b"PMTK000"), b"$PMTK000*32\r\n".to_vec());
    assert_eq!(frame(b"PMTK161,0"), b"$PMTK161,0*28\r\n".to_vec());
    assert_eq!(frame(b""), b"$*00\r\n".to_vec());
}

#[test]
fn framed_command_reads_back() {
    for cmd in [&b"PMTK000"[..], b"", b"PMTK314,0,1,0,1", &[b'x'; 75], &[b'A'; 76]] {
        assert_eq!(read(&frame(cmd)), Ok(cmd.to_vec()));
    }
}

#[test]
fn sentence_failures() {
    assert_eq!(read(b"!PMTK000*32\r\n"), Err(GpsError::InvalidStart('!')));
    assert_eq!(read(&frame(&[b'x'; 77])), Err(GpsError::TooLong));
    assert_eq!(read(b"$PMTK000*3g\r\n"), Err(GpsError::InvalidChecksum));
    assert_eq!(read(b"$PMTK000*33\r\n"), Err(GpsError::WrongChecksum));
    assert_eq!(read(b"$PMTK000*32\n\r"), Err(GpsError::InvalidEnd));
}

#[test]
fn one_wrong_byte_is_noticed() {
    let good = frame(b"PMTK000");
    for i in 1..8 {
        let mut wrong = good.clone();
        wrong[i] ^= 1;
        assert_eq!(read(&wrong), Err(GpsError::WrongChecksum));
    }
}

#[test]
fn checksum_digits_may_be_small_letters() {
    assert_eq!(frame(b"K"), b"$K*4B\r\n".to_vec());
    assert_eq!(read(b"$K*4b\r\n"), Ok(b"K".to_vec()));
}

#[test]
fn read_with_timeout() {
    let (mut r, step) = BlockingRead::new(4);
    assert_eq!(step, ReadStep::Read);
    assert_eq!(r.accept(PortRead::Bytes(1)), ReadStep::Read);
    for _ in 0..100_000 {
        assert_eq!(r.accept(PortRead::WouldBlock), ReadStep::WaitAndRead);
    }
    assert_eq!(r.accept(PortRead::Bytes(2)), ReadStep::Read);
    assert_eq!(r.accept(PortRead::Error(ReadErrorType::Framing)), ReadStep::WaitAndRead);
    assert_eq!(r.accept(PortRead::Bytes(1)), ReadStep::Done);
    assert_eq!(BlockingRead::new(0).1, ReadStep::Done);
}

#[test]
fn silence_is_a_timeout() {
    let (mut r, _) = BlockingRead::new(1);
    for _ in 0..100_000 {
        assert_eq!(r.accept(PortRead::Error(ReadErrorType::Break)), ReadStep::WaitAndRead);
    }
    assert_eq!(r.accept(PortRead::WouldBlock), ReadStep::Fail(GpsError::ReadTimeout));
}

#[test]
fn overrun_and_parity_end_a_read() {
    for e in [ReadErrorType::Overrun, ReadErrorType::Parity] {
        let (mut r, _) = BlockingRead::new(1);
        assert_eq!(r.accept(PortRead::Error(e)), ReadStep::Fail(GpsError::ReadError(e)));
    }
}

#[test]
fn search_for_a_line_end() {
    let mut d = Discard::new();
    assert_eq!(d.accept(Ok(b'x')), None);
    assert_eq!(d.accept(Err(GpsError::ReadError(ReadErrorType::Overrun))), None);
    assert_eq!(d.accept(Ok(b'\n')), Some(Ok(())));
    assert_eq!(Discard::new().accept(Err(GpsError::ReadTimeout)), Some(Ok(())));
    let parity = GpsError::ReadError(ReadErrorType::Parity);
    assert_eq!(Discard::new().accept(Err(parity)), Some(Err(GpsError::ReadError(ReadErrorType::Parity))));
    let mut d = Discard::new();
    for _ in 0..199 {
        assert_eq!(d.accept(Ok(b'x')), None);
    }
    assert_eq!(d.accept(Ok(b'x')), Some(Ok(())));
}

fn acked(sentence: &str) -> Option<Result<(), GpsError>> {
    AckWait::new(b"PMTK220,500").unwrap().accept(Ok(sentence.as_bytes().to_vec()))
}

#[test]
fn acknowledgements() {
    assert_eq!(acked("PMTK001,220,3"), Some(Ok(())));
    assert_eq!(acked("PMTK001,220,2"), Some(Err(GpsError::AckFail(220, 2))));
    assert_eq!(acked("PMTK001,225,3"), Some(Err(GpsError::UnexpectedParameter(220, 225))));
    assert_eq!(acked("PMTK001"), Some(Err(GpsError::MalformedResponse)));
    assert_eq!(acked("PMTK001,x,3"), Some(Err(GpsError::MalformedResponse)));
    assert_eq!(acked("PMTK001,220"), Some(Err(GpsError::MalformedResponse)));
    assert_eq!(acked("PMTK001,220,256"), Some(Err(GpsError::MalformedResponse)));
    assert_eq!(acked("PMTK010,001"), None);
}

#[test]
fn ten_sentences_without_acknowledgement() {
    let mut wait = AckWait::new(b"PMTK000").unwrap();
    for _ in 0..9 {
        assert_eq!(wait.accept(Ok(b"GPGGA,".to_vec())), None);
    }
    assert_eq!(wait.accept(Ok(b"GPGGA,".to_vec())), Some(Err(GpsError::NoAck)));
    let mut wait = AckWait::new(b"PMTK000").unwrap();
    assert_eq!(wait.accept(Err(GpsError::ReadTimeout)), Some(Err(GpsError::ReadTimeout)));
}

#[test]
fn only_own_commands_are_acknowledged() {
    assert_eq!(AckWait::new(b"GPGGA,1"), Err(GpsError::NoAck));
    assert_eq!(AckWait::new(b"PMTKabc"), Err(GpsError::MalformedResponse));
    assert_eq!(AckWait::new(b"PMTK314,0"), Ok(AckWait { number: 314, remaining: 10 }));
}

#[test]
fn link_test_and_standby() {
    let (sent, wait) = GpsMtk::test();
    assert_eq!(sent, b"$PMTK000*32\r\n".to_vec());
    assert_eq!(wait, Ok(AckWait { number: 0, remaining: 10 }));
    assert_eq!(GpsMtk::enter_standby(), frame(b"PMTK161,0"));
    let (sent, wait) = GpsMtk::write_sentence(b"PMTK286,1");
    assert_eq!(sent, frame(b"PMTK286,1"));
    assert_eq!(wait.unwrap().number, 286);
}

fn run_init(failures: &[usize]) -> (Vec<InitAction>, Result<(), GpsError>) {
    let mut init = GpsInit::new();
    let mut done = vec![];
    loop {
        let action = init.action();
        if action == InitAction::Ready {
            return (done, Ok(()));
        }
        let outcome = if failures.contains(&done.len()) { Err(GpsError::ReadTimeout) } else { Ok(()) };
        done.push(action);
        if let Err(e) = init.advance(outcome) {
            return (done, Err(e));
        }
    }
}

#[test]
fn fast_link_is_configured() {
    let (done, end) = run_init(&[]);
    assert_eq!(end, Ok(()));
    assert_eq!(
        done,
        vec![
            InitAction::Open(57600),
            InitAction::Discard,
            InitAction::ReadSentence,
            InitAction::Command("PMTK220,500"),
            InitAction::Command("PMTK286,1"),
            InitAction::Command("PMTK225,0"),
            InitAction::Command("PMTK314,0,1,0,1,0,0,0,0,0,0,0,0,0,0,0,0,0,0,0"),
        ]
    );
}

#[test]
fn slow_link_is_upgraded() {
    for failure in [1, 2] {
        let (done, end) = run_init(&[failure]);
        assert_eq!(end, Ok(()));
        assert_eq!(
            done[failure + 1..failure + 7],
            [
                InitAction::Open(9600),
                InitAction::Discard,
                InitAction::Send("PMTK251,57600"),
                InitAction::Open(57600),
                InitAction::Discard,
                InitAction::ReadSentence,
            ]
        );
        assert_eq!(done.len(), failure + 11);
    }
    assert_eq!(run_init(&[1, 3]).1, Err(GpsError::ReadTimeout));
    assert_eq!(run_init(&[2, 8]).1, Err(GpsError::ReadTimeout));
    assert_eq!(run_init(&[3]).1, Err(GpsError::ReadTimeout));
}

#[test]
fn nothing_is_known_at_first() {
    let gps = GpsMtk::new();
    assert_eq!(gps.stale, 255);
    assert_eq!(gps.date, Date { year: -9999, month: 1, day: 1 });
    assert_eq!(gps.pos[0].degrees, b"0".to_vec());
}

#[test]
fn position_with_height() {
    let (gps, r) = updated(GGA);
    assert_eq!(r, Ok(()));
    assert_eq!(gps.stale, 0);
    assert_eq!(gps.pos[0].degrees, b"48".to_vec());
    assert_eq!(gps.pos[0].minutes, b"07.038".to_vec());
    assert!(!gps.pos[0].negative);
    assert_eq!(gps.pos[1].degrees, b"011".to_vec());
    assert_eq!(gps.pos[1].minutes, b"31.000".to_vec());
    assert!(!gps.pos[1].negative);
    assert_eq!(gps.hgt.altitude, b"545.4".to_vec());
    assert_eq!(gps.hgt.separation, b"46.9".to_vec());
    assert_eq!(gps.time.hours, b"05".to_vec());
    assert_eq!(gps.time.minutes, b"31".to_vec());
    assert_eq!(gps.time.seconds, b"03.294".to_vec());
    assert_eq!(gps.date.year, -9999);
}

#[test]
fn position_with_date() {
    let (gps, r) = updated(RMC);
    assert_eq!(r, Ok(()));
    assert_eq!(gps.stale, 0);
    assert!(gps.pos[0].negative);
    assert!(gps.pos[1].negative);
    assert_eq!(gps.date, Date { year: 2024, month: 1, day: 5 });
    assert_eq!(gps.hgt.altitude, b"0".to_vec());
}

#[test]
fn sentences_without_a_fix_are_counted() {
    let mut gps = GpsMtk::new();
    assert_eq!(gps.update(GGA.as_bytes()), Ok(()));
    for i in 1..=300u32 {
        let s: &[u8] = if i % 2 == 0 {
            b"GPGGA,053103.294,,,,,0,0,,,M,,M,,"
        } else {
            b"GPRMC,235944.097,V,,,,,0.00,0.00,050180,,,N"
        };
        assert_eq!(gps.update(s), Ok(()));
        assert_eq!(gps.stale as u32, i.min(255));
        assert_eq!(gps.pos[0].degrees, b"48".to_vec());
    }
    assert_eq!(gps.update(RMC.as_bytes()), Ok(()));
    assert_eq!(gps.stale, 0);
}

#[test]
fn sentences_that_are_not_understood() {
    for s in [
        "GPGGA",
        "GPGGA,053103.294,4807.038,N,01131.000,E,1,08,0.9,545.4,M,46.9",
        "GPGGA,0x3103.294,4807.038,N,01131.000,E,1,08,0.9,545.4,M,46.9,M,,",
        "GPGGA,053103.294,4807.038,X,01131.000,E,1,08,0.9,545.4,M,46.9,M,,",
        "GPGGA,053103.294,4807.038,N,01131.000,N,1,08,0.9,545.4,M,46.9,M,,",
        "GPGGA,053103.294,4807.038,N,01131.000,E,1,08,0.9,545.4,F,46.9,M,,",
        "GPGGA,053103.294,4807.038,N,01131.000,E,1,08,0.9,,M,46.9,M,,",
        "GPRMC,235944.097,A,3345.5,S,15112.25,W,0.00,0.00",
        "GPRMC,235944.097,A,3345.5,S,15112.25,W,0.00,0.00,310224,,,A",
        "GPRMC,235944.097,A,3345.5,S,15112.25,W,0.00,0.00,051324,,,A",
        "GPRMC,235944.097,A,3345.5,S,15112.25,W,0.00,0.00,0512xx,,,A",
    ] {
        let (gps, r) = updated(s);
        assert_eq!(r, Err(GpsError::MalformedResponse), "{}", s);
        assert_eq!(gps, GpsMtk::new());
    }
    let (_, r) = updated("GPGSV,1,2");
    assert_eq!(r, Err(GpsError::UnexpectedCommand("GPGSV".to_string())));
    let mut gps = GpsMtk::new();
    assert_eq!(gps.update(b"GPGGA,\xff"), Err(GpsError::MalformedResponse));
}

#[test]
fn leap_days() {
    let (gps, r) = updated("GPRMC,000000.0,A,0000.0,N,00000.0,E,,,290224");
    assert_eq!(r, Ok(()));
    assert_eq!(gps.date, Date { year: 2024, month: 2, day: 29 });
    assert_eq!(updated("GPRMC,000000.0,A,0000.0,N,00000.0,E,,,290223").1, Err(GpsError::MalformedResponse));
    assert_eq!(Date::new(1900, 2, 29), None);
    assert_eq!(Date::new(2000, 2, 29), Some(Date { year: 2000, month: 2, day: 29 }));
    assert_eq!(Date::new(10000, 1, 1), None);
    assert_eq!(Date::new(2000, 13, 1), None);
    assert_eq!(Date::new(2000, 4, 31), None);
}

#[test]
fn sentences_that_cannot_be_read() {
    assert!(!GpsMtk::is_readable(b"GPGGA,0,4807.038,N,01131.000,E,1,08,0.9,545.4,M,46.9,M"));
    assert!(!GpsMtk::is_readable(b"GPRMC,000000.0,A,0000.0,N,00000.0,E,,,123"));
    assert!(!GpsMtk::is_readable(b"GPRMC,000000.0,A,0000.0,N,00000.0,E,,,01012147483647"));
    assert!(GpsMtk::is_readable(GGA.as_bytes()));
}

#[test]
fn a_first_overrun_is_made_up_for() {
    let overrun = || Err(GpsError::ReadError(ReadErrorType::Overrun));
    assert_eq!(GpsMtk::update_read(true, overrun()), UpdateRead::DiscardAndRetry);
    assert_eq!(GpsMtk::update_read(true, Err(GpsError::TooLong)), UpdateRead::DiscardAndRetry);
    assert_eq!(
        GpsMtk::update_read(false, overrun()),
        UpdateRead::Fail(GpsError::ReadError(ReadErrorType::Overrun))
    );
    assert_eq!(GpsMtk::update_read(true, Err(GpsError::InvalidEnd)), UpdateRead::Fail(GpsError::InvalidEnd));
    assert_eq!(GpsMtk::update_read(false, Ok(vec![1])), UpdateRead::Use(vec![1]));
}

#[test]
fn gps_messages() {
    let texts = [
        (GpsError::InvalidStart('x'), "invalid start of NMEA sentence: x instead of !"),
        (GpsError::TooLong, "NMEA sentence exceeded 82-byte limit"),
        (GpsError::InvalidChecksum, "NMEA checksum out of hex range"),
        (GpsError::WrongChecksum, "NMEA checksum does not match data"),
        (GpsError::InvalidEnd, "invalid end of NMEA sentence"),
        (GpsError::UnexpectedCommand("A".to_string()), "received unexpected command: A"),
        (GpsError::UnexpectedParameter(220, 7), "received wrong ACK parameter: expected 220 got 7"),
        (GpsError::MalformedResponse, "received malformed response"),
        (GpsError::NoAck, "did not receive ACK within 10 commands"),
        (GpsError::AckFail(314, 2), "command 314 failed with status 2"),
        (GpsError::from(ReadErrorType::Overrun), "failed to read UART: Overrun"),
        (GpsError::from(ReadErrorType::Break), "failed to read UART: Break"),
        (GpsError::from(ReadErrorType::Parity), "failed to read UART: Parity"),
        (GpsError::from(ReadErrorType::Framing), "failed to read UART: Framing"),
        (GpsError::ReadTimeout, "timed out reading response"),
    ];
    for (e, text) in texts {
        assert_eq!(e.message(), text);
    }
}
