//! The satellite receiver: how its sentences are framed, how the link to it is brought up,
//! and what a received sentence does to the known position.

use vstd::prelude::*;
use crate::text::{decimal, ends_with, law_end_is_kept, push_decimal};

pub mod fix;
pub mod link;
pub mod sentence;

verus! {

/// What a serial port reports of a byte that did not come through.
#[derive(Debug, Clone, Copy, PartialEq, Eq, Structural)]
pub enum ReadErrorType {
    Overrun,
    Break,
    Parity,
    Framing,
}

/// What can go wrong between the receiver and this device.
#[derive(Debug, PartialEq, Eq)]
pub enum GpsError {
    /// A sentence starts with this character instead of a dollar sign.
    InvalidStart(char),
    /// A sentence is longer than the 82 bytes that the protocol allows.
    TooLong,
    /// The checksum is not written in hexadecimal digits.
    InvalidChecksum,
    /// The checksum does not match the data.
    WrongChecksum,
    /// The sentence does not end in carriage return and line feed.
    InvalidEnd,
    /// A sentence of this name is not expected.
    UnexpectedCommand(String),
    /// An acknowledgement came for another command: first the expected one, then the other.
    UnexpectedParameter(u16, u16),
    /// A sentence does not hold what its name promises.
    MalformedResponse,
    /// No acknowledgement came.
    NoAck,
    /// This command failed, with this status.
    AckFail(u16, u8),
    /// The serial port failed.
    ReadError(ReadErrorType),
    /// Nothing came for too long.
    ReadTimeout,
}

impl ReadErrorType {
    /// What the failure is called.
    pub fn name(self) -> (r: &'static str)
        ensures
            r@ == (match self {
                ReadErrorType::Overrun => "Overrun"@,
                ReadErrorType::Break => "Break"@,
                ReadErrorType::Parity => "Parity"@,
                ReadErrorType::Framing => "Framing"@,
            }),
    {
        match self {
            ReadErrorType::Overrun => "Overrun",
            ReadErrorType::Break => "Break",
            ReadErrorType::Parity => "Parity",
            ReadErrorType::Framing => "Framing",
        }
    }
}

impl GpsError {
    /// What the failure is reported as.
    pub open spec fn text(self) -> Seq<char> {
        match self {
            GpsError::InvalidStart(c) => "invalid start of NMEA sentence: "@ + seq![c]
                + " instead of !"@,
            GpsError::TooLong => "NMEA sentence exceeded 82-byte limit"@,
            GpsError::InvalidChecksum => "NMEA checksum out of hex range"@,
            GpsError::WrongChecksum => "NMEA checksum does not match data"@,
            GpsError::InvalidEnd => "invalid end of NMEA sentence"@,
            GpsError::UnexpectedCommand(name) => "received unexpected command: "@ + name@,
            GpsError::UnexpectedParameter(expected, got) => "received wrong ACK parameter: expected "@
                + decimal(expected as nat) + " got "@ + decimal(got as nat),
            GpsError::MalformedResponse => "received malformed response"@,
            GpsError::NoAck => "did not receive ACK within 10 commands"@,
            GpsError::AckFail(command, status) => "command "@ + decimal(command as nat)
                + " failed with status "@ + decimal(status as nat),
            GpsError::ReadError(ReadErrorType::Overrun) => "failed to read UART: "@ + "Overrun"@,
            GpsError::ReadError(ReadErrorType::Break) => "failed to read UART: "@ + "Break"@,
            GpsError::ReadError(ReadErrorType::Parity) => "failed to read UART: "@ + "Parity"@,
            GpsError::ReadError(ReadErrorType::Framing) => "failed to read UART: "@ + "Framing"@,
            GpsError::ReadTimeout => "timed out reading response"@,
        }
    }

    /// What the failure is reported as.
    pub fn message(&self) -> (r: String)
        ensures
            r@ == self.text(),
    {
        match self {
            GpsError::InvalidStart(c) => {
                let mut out = "invalid start of NMEA sentence: ".to_string();
                out.push(*c);
                out.append(" instead of !");
                proof {
                    assert(out@ =~= self.text());
                }
                out
            },
            GpsError::TooLong => "NMEA sentence exceeded 82-byte limit".to_string(),
            GpsError::InvalidChecksum => "NMEA checksum out of hex range".to_string(),
            GpsError::WrongChecksum => "NMEA checksum does not match data".to_string(),
            GpsError::InvalidEnd => "invalid end of NMEA sentence".to_string(),
            GpsError::UnexpectedCommand(name) => {
                let mut out = "received unexpected command: ".to_string();
                out.append(name.as_str());
                out
            },
            GpsError::UnexpectedParameter(expected, got) => {
                let mut out = "received wrong ACK parameter: expected ".to_string();
                push_decimal(&mut out, *expected as u32);
                out.append(" got ");
                push_decimal(&mut out, *got as u32);
                out
            },
            GpsError::MalformedResponse => "received malformed response".to_string(),
            GpsError::NoAck => "did not receive ACK within 10 commands".to_string(),
            GpsError::AckFail(command, status) => {
                let mut out = "command ".to_string();
                push_decimal(&mut out, *command as u32);
                out.append(" failed with status ");
                push_decimal(&mut out, *status as u32);
                out
            },
            GpsError::ReadError(e) => {
                let mut out = "failed to read UART: ".to_string();
                out.append(e.name());
                out
            },
            GpsError::ReadTimeout => "timed out reading response".to_string(),
        }
    }
}

impl From<ReadErrorType> for GpsError {
    fn from(value: ReadErrorType) -> (r: GpsError) {
        GpsError::ReadError(value)
    }
}

impl vstd::std_specs::convert::FromSpecImpl<ReadErrorType> for GpsError {
    open spec fn obeys_from_spec() -> bool {
        true
    }

    open spec fn from_spec(value: ReadErrorType) -> GpsError {
        GpsError::ReadError(value)
    }
}

/// A message names what it is about: the byte that came first, the command that was not expected,
/// the numbers of commands and what status came.
pub proof fn law_messages_name_what_came(c: char, name: String, a: u16, b: u16, status: u8)
    ensures
        GpsError::InvalidStart(c).text()[32] == c,
        ends_with(GpsError::UnexpectedCommand(name).text(), name@),
        GpsError::UnexpectedParameter(a, b).text().subrange(
            39,
            39 + decimal(a as nat).len() as int,
        ) == decimal(a as nat),
        ends_with(GpsError::UnexpectedParameter(a, b).text(), decimal(b as nat)),
        GpsError::AckFail(a, status).text().subrange(8, 8 + decimal(a as nat).len() as int)
            == decimal(a as nat),
        ends_with(GpsError::AckFail(a, status).text(), decimal(status as nat)),
{
    reveal_strlit("invalid start of NMEA sentence: ");
    reveal_strlit("received wrong ACK parameter: expected ");
    reveal_strlit("command ");
    let x = decimal(a as nat);
    law_end_is_kept("received unexpected command: "@, name@);
    law_end_is_kept("received wrong ACK parameter: expected "@ + x + " got "@, decimal(b as nat));
    law_end_is_kept("command "@ + x + " failed with status "@, decimal(status as nat));
    assert(GpsError::UnexpectedParameter(a, b).text().subrange(39, 39 + x.len() as int) =~= x);
    assert(GpsError::AckFail(a, status).text().subrange(8, 8 + x.len() as int) =~= x);
}

} // verus!
