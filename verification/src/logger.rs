//! The log that goes out over a serial port: whether it is there and who holds it, and how bytes
//! get through a port that takes them in pieces.

use vstd::prelude::*;
use crate::wait::Waiting;

verus! {

/// The state of the log.
#[derive(Debug, Clone, Copy, PartialEq, Eq, Structural)]
pub struct SerialLogger {
    /// Whether the serial port is there. Until then all that is logged is dropped.
    pub setup: bool,
    /// Whether a message is being written.
    pub taken: bool,
    /// Whether interrupts are held off for a message.
    pub held_off: bool,
}

/// What is to be done at the end of a message.
#[derive(Debug, Clone, Copy, PartialEq, Eq, Structural)]
pub struct Release {
    /// Write the end of the message.
    pub ends: bool,
    /// Let interrupts through again.
    pub let_through: bool,
}

/// Why the serial port did not do what it was asked for.
#[derive(Debug, Clone, Copy, PartialEq, Eq, Structural)]
pub enum PortError {
    /// It cannot do so now.
    WouldBlock,
    /// It failed.
    Other,
}

/// What is to be done with the serial port next.
#[derive(Debug, Clone, Copy, PartialEq, Eq, Structural)]
pub enum PortStep {
    /// Nothing more.
    Done,
    /// Ask it again.
    Again,
    /// Let it do its work, then ask it again.
    Poll,
    /// Give up: it failed.
    Fail,
}

impl SerialLogger {
    /// A log without a serial port.
    pub fn new() -> (r: SerialLogger)
        ensures
            r == (SerialLogger { setup: false, taken: false, held_off: false }),
    {
        SerialLogger { setup: false, taken: false, held_off: false }
    }

    /// The wait for a program at the other end to open the port.
    pub fn try_setup(&self, timeout_ms: u32) -> (r: Waiting)
        requires
            !self.setup,
        ensures
            r.left == timeout_ms / 5,
            r.interval_ms == 5,
    {
        Waiting::new(timeout_ms, 5)
    }

    /// The log after the wait for the port, which is there from now on if it is `ready`.
    pub open spec fn connected(self, ready: bool) -> SerialLogger {
        SerialLogger { setup: ready, ..self }
    }

    /// Ends the wait for the port, which is there from now on if it is `ready`.
    pub fn finish_setup(&mut self, ready: bool)
        requires
            !old(self).setup,
        ensures
            *final(self) == old(self).connected(ready),
    {
        self.setup = ready;
    }

    /// The log while a message is written, with interrupts held off.
    pub open spec fn acquired(self) -> SerialLogger {
        SerialLogger { taken: true, held_off: true, ..self }
    }

    /// Takes the log for a message, for which interrupts are held off by now. Only one can be
    /// written at a time.
    pub fn acquire(&mut self)
        requires
            !old(self).taken,
        ensures
            *final(self) == old(self).acquired(),
    {
        self.taken = true;
        self.held_off = true;
    }

    /// The log after a message, with interrupts let through again. Where there is no port the
    /// log is not given back.
    pub open spec fn released(self) -> SerialLogger {
        SerialLogger { taken: self.taken && !self.setup, held_off: false, ..self }
    }

    /// Gives the log back after a message, and says what is to be done for that.
    pub fn release(&mut self) -> (r: Release)
        requires
            old(self).setup ==> old(self).taken,
        ensures
            *final(self) == old(self).released(),
            r == (Release { ends: old(self).setup, let_through: old(self).held_off }),
    {
        let r = Release { ends: self.setup, let_through: self.held_off };
        if self.setup {
            self.taken = false;
        }
        self.held_off = false;
        r
    }

    /// Whether a part of a message is to be encoded and written.
    pub fn write_encoded(&self) -> (r: bool)
        ensures
            r == self.setup,
    {
        self.setup
    }

    /// What of `b` is to be written: all of it, if the port is there.
    pub fn write_all<'a>(&self, b: &'a [u8]) -> (r: Option<&'a [u8]>)
        ensures
            r == (if self.setup && b@.len() > 0 {
                Some(b)
            } else {
                None
            }),
    {
        if self.setup && b.len() > 0 {
            Some(b)
        } else {
            None
        }
    }

    /// Whether the port is to be asked to send what it holds.
    pub fn flush(&self) -> (r: bool)
        ensures
            r == self.setup,
    {
        self.setup
    }
}

/// The wait for a program at the other end to open the port of `logger`.
pub fn try_setup_logger(logger: &SerialLogger, timeout_ms: u32) -> (r: Waiting)
    requires
        !logger.setup,
    ensures
        r.left == timeout_ms / 5,
        r.interval_ms == 5,
{
    logger.try_setup(timeout_ms)
}

/// Whether a message is being written, so that no other can be.
pub fn logger_taken(logger: &SerialLogger) -> (r: bool)
    ensures
        r == logger.taken,
{
    logger.taken
}

/// Whether the port is to do its work when the bus asks for it. It must not do so while a
/// message is being written.
pub fn poll_from_interrupt(logger: &SerialLogger) -> (r: bool)
    requires
        logger.setup ==> !logger.taken,
    ensures
        r == logger.setup,
{
    logger.setup
}

/// Once the port is there, a message leaves the log as it was before it. The log is taken and
/// interrupts are held off only while the message is written.
pub proof fn law_message_leaves_no_trace(logger: SerialLogger)
    requires
        logger.setup,
        !logger.taken,
        !logger.held_off,
    ensures
        logger.acquired().taken,
        logger.acquired().setup,
        logger.acquired().held_off,
        logger.acquired().released() == logger,
{
}

/// Interrupts are let through again after every message, and whether there is a port does not
/// change with the messages.
pub proof fn law_messages_keep_the_port(logger: SerialLogger)
    ensures
        !logger.acquired().released().held_off,
        logger.acquired().setup == logger.setup,
        logger.released().setup == logger.setup,
{
}

/// Without a port the log is not given back after a message. Whether the port is there is what the
/// wait for it said, and nothing else changes with it.
pub proof fn law_log_without_port_stays_taken(logger: SerialLogger, ready: bool)
    ensures
        !logger.setup ==> logger.acquired().released().taken,
        logger.connected(ready).setup == ready,
        logger.connected(ready).taken == logger.taken,
        logger.connected(ready).held_off == logger.held_off,
{
}

/// What is left to write after the port gave `result` on `rest`.
pub open spec fn rest_after(rest: Seq<u8>, result: Result<usize, PortError>) -> Seq<u8> {
    match result {
        Ok(len) => rest.skip(len as int),
        Err(_) => rest,
    }
}

/// What the port took of `rest` when it gave `result`.
pub open spec fn taken_of(rest: Seq<u8>, result: Result<usize, PortError>) -> Seq<u8> {
    match result {
        Ok(len) => rest.take(len as int),
        Err(_) => Seq::empty(),
    }
}

/// Whether the port can give `result` on `rest`: it takes no more than it is given.
pub open spec fn possible(rest: Seq<u8>, result: Result<usize, PortError>) -> bool {
    result matches Ok(len) ==> len <= rest.len()
}

/// Takes what the port gave on `rest`, some of which is still to be written.
pub fn write_step<'a>(rest: &mut &'a [u8], result: Result<usize, PortError>) -> (r: PortStep)
    requires
        possible(old(rest)@, result),
    ensures
        final(rest)@ == rest_after(old(rest)@, result),
        r == (match result {
            Ok(len) => if len == old(rest)@.len() {
                PortStep::Done
            } else {
                PortStep::Again
            },
            Err(PortError::WouldBlock) => PortStep::Poll,
            Err(PortError::Other) => PortStep::Fail,
        }),
{
    match result {
        Ok(len) => {
            let all: &'a [u8] = *rest;
            *rest = vstd::slice::slice_subrange(all, len, all.len());
            if len == all.len() {
                PortStep::Done
            } else {
                PortStep::Again
            }
        },
        Err(PortError::WouldBlock) => PortStep::Poll,
        Err(PortError::Other) => PortStep::Fail,
    }
}

/// What the port took when it gave `results` one after the other, on `b` and on what was left.
pub open spec fn taken_in_all(b: Seq<u8>, results: Seq<Result<usize, PortError>>) -> Seq<u8>
    decreases results.len(),
{
    if results.len() == 0 {
        Seq::empty()
    } else {
        taken_of(b, results[0]) + taken_in_all(rest_after(b, results[0]), results.skip(1))
    }
}

/// What is left of `b` after the port gave `results` one after the other.
pub open spec fn rest_in_all(b: Seq<u8>, results: Seq<Result<usize, PortError>>) -> Seq<u8>
    decreases results.len(),
{
    if results.len() == 0 {
        b
    } else {
        rest_in_all(rest_after(b, results[0]), results.skip(1))
    }
}

/// Whether the port can give `results` one after the other.
pub open spec fn all_possible(b: Seq<u8>, results: Seq<Result<usize, PortError>>) -> bool
    decreases results.len(),
{
    results.len() > 0 ==> possible(b, results[0]) && all_possible(
        rest_after(b, results[0]),
        results.skip(1),
    )
}

/// However the port takes them, the bytes go out in order, and none is lost or sent twice.
pub proof fn law_bytes_go_out_in_order(b: Seq<u8>, results: Seq<Result<usize, PortError>>)
    requires
        all_possible(b, results),
    ensures
        taken_in_all(b, results) + rest_in_all(b, results) == b,
    decreases results.len(),
{
    if results.len() > 0 {
        let rest = rest_after(b, results[0]);
        law_bytes_go_out_in_order(rest, results.skip(1));
        assert(taken_of(b, results[0]) + rest =~= b);
        assert(taken_in_all(b, results) + rest_in_all(b, results) =~= taken_of(b, results[0]) + (
        taken_in_all(rest, results.skip(1)) + rest_in_all(rest, results.skip(1))));
    }
    assert(taken_in_all(b, results) + rest_in_all(b, results) =~= b);
}

/// How many bytes the port took when it gave `results` one after the other.
pub open spec fn count_in_all(results: Seq<Result<usize, PortError>>) -> int
    decreases results.len(),
{
    if results.len() == 0 {
        0
    } else {
        count_in_all(results.skip(1)) + (match results[0] {
            Ok(len) => len as int,
            Err(_) => 0,
        })
    }
}

/// As many bytes are written as the port says it took, and only those are not offered again.
pub proof fn law_taken_bytes_are_counted(b: Seq<u8>, results: Seq<Result<usize, PortError>>)
    requires
        all_possible(b, results),
    ensures
        taken_in_all(b, results).len() == count_in_all(results),
        rest_in_all(b, results).len() == b.len() - count_in_all(results),
    decreases results.len(),
{
    if results.len() > 0 {
        law_taken_bytes_are_counted(rest_after(b, results[0]), results.skip(1));
    }
}

/// Takes what the port gave when it was asked to send what it holds.
pub fn flush_step(result: Result<(), PortError>) -> (r: PortStep)
    ensures
        r == (match result {
            Ok(_) => PortStep::Done,
            Err(PortError::WouldBlock) => PortStep::Poll,
            Err(PortError::Other) => PortStep::Fail,
        }),
{
    match result {
        Ok(_) => PortStep::Done,
        Err(PortError::WouldBlock) => PortStep::Poll,
        Err(PortError::Other) => PortStep::Fail,
    }
}

/// Takes what the port gave when it was asked for what came in, all of which is dropped.
pub fn discard_step(result: Result<usize, PortError>) -> (r: PortStep)
    ensures
        r == (match result {
            Ok(_) => PortStep::Again,
            Err(PortError::WouldBlock) => PortStep::Done,
            Err(PortError::Other) => PortStep::Fail,
        }),
{
    match result {
        Ok(_) => PortStep::Again,
        Err(PortError::WouldBlock) => PortStep::Done,
        Err(PortError::Other) => PortStep::Fail,
    }
}

} // verus!
