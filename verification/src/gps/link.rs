//! The link to the receiver: reading with a timeout, skipping to a line end, waiting for an
//! acknowledgement, and bringing the link up to speed.

use vstd::prelude::*;
use vstd::string::StringSliceAdditionalSpecFns;
use vstd::utf8::{encode_utf8, is_ascii_chars, is_ascii_chars_encode_utf8};
use crate::gps::{GpsError, ReadErrorType};
use crate::text::{bytes_of, contents, decimal, digits_value, fields, is_digit, is_digits, joined, law_decimal_is_the_number, law_decimal_reads_back, law_joined_fields_are_parted, law_other_text_is_no_number, parse_unsigned, same_bytes, split, unsigned};

verus! {

/// How often in a row a read may fail for want of data.
pub const MAX_ATTEMPTS: u32 = 100_000;

/// What one look at the serial port gave.
#[derive(Debug, Clone, Copy, PartialEq, Eq, Structural)]
pub enum PortRead {
    /// This many bytes, put behind those that came before.
    Bytes(usize),
    /// Nothing yet.
    WouldBlock,
    /// A failure.
    Error(ReadErrorType),
}

/// What to do next while reading.
#[derive(Debug, PartialEq, Eq)]
pub enum ReadStep {
    /// Look at the port.
    Read,
    /// Wait a little, then look at the port.
    WaitAndRead,
    /// All bytes have come.
    Done,
    /// Reading has failed.
    Fail(GpsError),
}

/// A read of a fixed number of bytes, under way.
#[derive(Debug, PartialEq, Eq)]
pub struct BlockingRead {
    /// How many bytes are to be read.
    pub len: usize,
    /// How many of them have come.
    pub offset: usize,
    /// How many looks in a row gave nothing.
    pub attempts: u32,
}

impl BlockingRead {
    /// No more bytes have come than were asked for, and the reading stopped at the latest when
    /// it was to stop.
    pub open spec fn wf(self) -> bool {
        &&& self.offset <= self.len
        &&& self.attempts <= MAX_ATTEMPTS + 1
    }

    /// Whether the reading goes on.
    pub open spec fn open(self) -> bool {
        self.offset != self.len && self.attempts <= MAX_ATTEMPTS
    }

    /// How the reading stands.
    pub open spec fn standing(self) -> ReadStep {
        if self.open() {
            ReadStep::Read
        } else if self.attempts == 0 {
            ReadStep::Done
        } else {
            ReadStep::Fail(GpsError::ReadTimeout)
        }
    }

    /// The reading after `read`, where that is no failure.
    pub open spec fn after(self, read: PortRead) -> BlockingRead {
        match read {
            PortRead::Bytes(n) => BlockingRead {
                len: self.len,
                offset: (self.offset + n) as usize,
                attempts: 0,
            },
            _ => BlockingRead {
                len: self.len,
                offset: self.offset,
                attempts: (self.attempts + 1) as u32,
            },
        }
    }

    /// Begins to read `len` bytes; with the first thing to do.
    pub fn new(len: usize) -> (r: (BlockingRead, ReadStep))
        ensures
            r.0 == (BlockingRead { len, offset: 0, attempts: 0 }),
            r.0.wf(),
            r.1 == r.0.standing(),
    {
        let read = BlockingRead { len, offset: 0, attempts: 0 };
        let step = if len == 0 {
            ReadStep::Done
        } else {
            ReadStep::Read
        };
        (read, step)
    }

    /// Takes what a look at the port gave. A break and a framing error count as nothing yet.
    pub fn accept(&mut self, read: PortRead) -> (step: ReadStep)
        requires
            old(self).wf(),
            old(self).open(),
            read matches PortRead::Bytes(n) ==> old(self).offset + n <= old(self).len,
        ensures
            final(self).wf(),
            match read {
                PortRead::Error(ReadErrorType::Overrun) => step == ReadStep::Fail(
                    GpsError::ReadError(ReadErrorType::Overrun),
                ) && *final(self) == *old(self),
                PortRead::Error(ReadErrorType::Parity) => step == ReadStep::Fail(
                    GpsError::ReadError(ReadErrorType::Parity),
                ) && *final(self) == *old(self),
                PortRead::Bytes(_) => {
                    &&& *final(self) == old(self).after(read)
                    &&& step == final(self).standing()
                },
                _ => *final(self) == old(self).after(read) && step == (if final(self).open() {
                    ReadStep::WaitAndRead
                } else {
                    ReadStep::Fail(GpsError::ReadTimeout)
                }),
            },
    {
        match read {
            PortRead::Bytes(n) => {
                self.attempts = 0;
                self.offset = self.offset + n;
                if self.offset != self.len {
                    ReadStep::Read
                } else {
                    ReadStep::Done
                }
            },
            PortRead::Error(ReadErrorType::Overrun) => ReadStep::Fail(
                GpsError::ReadError(ReadErrorType::Overrun),
            ),
            PortRead::Error(ReadErrorType::Parity) => ReadStep::Fail(
                GpsError::ReadError(ReadErrorType::Parity),
            ),
            _ => {
                self.attempts = self.attempts + 1;
                if self.attempts <= MAX_ATTEMPTS {
                    ReadStep::WaitAndRead
                } else {
                    ReadStep::Fail(GpsError::ReadTimeout)
                }
            },
        }
    }
}

/// The reading of `len` bytes after each of `reads` in turn.
pub open spec fn after_all(len: usize, reads: Seq<PortRead>) -> BlockingRead
    decreases reads.len(),
{
    if reads.len() == 0 {
        BlockingRead { len, offset: 0, attempts: 0 }
    } else {
        after_all(len, reads.drop_last()).after(reads.last())
    }
}

/// How many of `reads`, counted from the last one back, gave no bytes.
pub open spec fn silence(reads: Seq<PortRead>) -> nat
    decreases reads.len(),
{
    if reads.len() == 0 || reads.last() is Bytes {
        0
    } else {
        1 + silence(reads.drop_last())
    }
}

/// Whether `read` is a failure that ends the reading.
pub open spec fn is_failure(read: PortRead) -> bool {
    read == PortRead::Error(ReadErrorType::Overrun) || read == PortRead::Error(
        ReadErrorType::Parity,
    )
}

/// Whether the reading of `len` bytes is open before each of `reads`, and none of them is a
/// failure that ends it.
pub open spec fn open_before_each(len: usize, reads: Seq<PortRead>) -> bool
    decreases reads.len(),
{
    reads.len() == 0 || !is_failure(reads.last()) && open_before_each(len, reads.drop_last())
        && after_all(len, reads.drop_last()).open()
}

/// A read gives up exactly when 100001 looks in a row gave nothing.
pub proof fn law_timeout_needs_silence(len: usize, reads: Seq<PortRead>)
    requires
        open_before_each(len, reads),
    ensures
        after_all(len, reads).standing() == ReadStep::Fail(GpsError::ReadTimeout) <==> silence(
            reads,
        ) == MAX_ATTEMPTS + 1,
        after_all(len, reads).attempts == silence(reads),
        after_all(len, reads).len == len,
        silence(reads) <= MAX_ATTEMPTS + 1,
    decreases reads.len(),
{
    if reads.len() > 0 {
        law_timeout_needs_silence(len, reads.drop_last());
    }
}

/// How many bytes are skipped at most in search of a line end.
pub const MAX_DISCARD: u32 = 200;

/// A search for a line end, under way.
#[derive(Debug, PartialEq, Eq)]
pub struct Discard {
    /// How many bytes may still be looked at.
    pub remaining: u32,
}

/// What a byte, or the lack of one, means for the search for a line end: `None` if it goes
/// on, where `remaining` bytes may still be looked at, this one among them.
pub open spec fn discard_outcome(remaining: u32, read: Result<u8, GpsError>) -> Option<
    Result<(), GpsError>,
> {
    match read {
        Ok(b) if b == '\n' as u8 => Some(Ok(())),
        Err(GpsError::ReadTimeout) => Some(Ok(())),
        Err(e) if e != GpsError::ReadError(ReadErrorType::Overrun) => Some(Err(e)),
        _ => if remaining <= 1 {
            Some(Ok(()))
        } else {
            None
        },
    }
}

impl Discard {
    /// Begins the search.
    pub fn new() -> (search: Discard)
        ensures
            search.remaining == MAX_DISCARD,
    {
        Discard { remaining: MAX_DISCARD }
    }

    /// Takes a byte, or the failure to read one. A timeout ends the search well, an overrun is
    /// passed over.
    pub fn accept(&mut self, read: Result<u8, GpsError>) -> (end: Option<Result<(), GpsError>>)
        requires
            old(self).remaining > 0,
        ensures
            end == discard_outcome(old(self).remaining, read),
            final(self).remaining == old(self).remaining - 1,
    {
        self.remaining = self.remaining - 1;
        match read {
            Ok(b) => {
                if b == '\n' as u8 {
                    return Some(Ok(()));
                }
            },
            Err(GpsError::ReadTimeout) => {
                return Some(Ok(()));
            },
            Err(GpsError::ReadError(ReadErrorType::Overrun)) => {},
            Err(e) => {
                return Some(Err(e));
            },
        }
        if self.remaining == 0 {
            Some(Ok(()))
        } else {
            None
        }
    }
}

/// How many sentences are looked through in search of an acknowledgement.
pub const MAX_ACK_SENTENCES: u32 = 10;

/// The bytes of `PMTK`, with which the receiver's own commands start.
pub open spec fn command_prefix() -> Seq<u8> {
    "PMTK".spec_bytes()
}

/// Whether `cmd` is one of the receiver's own commands.
pub open spec fn is_command(cmd: Seq<u8>) -> bool {
    cmd.len() >= 4 && cmd.take(4) == command_prefix()
}

/// What a sentence says on the command `number`: `None` if it is no acknowledgement.
pub open spec fn ack_outcome(number: u16, sentence: Seq<u8>) -> Option<Result<(), GpsError>> {
    let fs = fields(sentence, ',' as u8);
    if fs[0] != "PMTK001".spec_bytes() {
        None
    } else if fs.len() < 2 || unsigned(fs[1], 0xffff) is None {
        Some(Err(GpsError::MalformedResponse))
    } else if unsigned(fs[1], 0xffff) != Some(number as nat) {
        Some(
            Err(GpsError::UnexpectedParameter(number, unsigned(fs[1], 0xffff)->0 as u16)),
        )
    } else if fs.len() < 3 || unsigned(fs[2], 0xff) is None {
        Some(Err(GpsError::MalformedResponse))
    } else if unsigned(fs[2], 0xff) != Some(3nat) {
        Some(Err(GpsError::AckFail(number, unsigned(fs[2], 0xff)->0 as u8)))
    } else {
        Some(Ok(()))
    }
}

fn read_ack(number: u16, sentence: &[u8]) -> (outcome: Option<Result<(), GpsError>>)
    ensures
        outcome == ack_outcome(number, sentence@),
{
    let fs = split(sentence, ',' as u8);
    proof {
        assert forall|i: int| 0 <= i < fs@.len() implies #[trigger] fs@[i]@ == fields(
            sentence@,
            ',' as u8,
        )[i] by {
            assert(contents(fs@)[i] == fs@[i]@);
        }
        assert(fs@.len() == contents(fs@).len());
    }
    if !same_bytes(fs[0].as_slice(), "PMTK001".as_bytes()) {
        return None;
    }
    if fs.len() < 2 {
        return Some(Err(GpsError::MalformedResponse));
    }
    let acked: u16 = match parse_unsigned(fs[1].as_slice(), 0xffff) {
        Some(n) => n as u16,
        None => {
            return Some(Err(GpsError::MalformedResponse));
        },
    };
    if acked != number {
        return Some(Err(GpsError::UnexpectedParameter(number, acked)));
    }
    if fs.len() < 3 {
        return Some(Err(GpsError::MalformedResponse));
    }
    let status: u8 = match parse_unsigned(fs[2].as_slice(), 0xff) {
        Some(n) => n as u8,
        None => {
            return Some(Err(GpsError::MalformedResponse));
        },
    };
    if status != 3 {
        return Some(Err(GpsError::AckFail(number, status)));
    }
    Some(Ok(()))
}

/// A wait for the acknowledgement of a command, under way.
#[derive(Debug, PartialEq, Eq)]
pub struct AckWait {
    /// The number of the command.
    pub number: u16,
    /// How many sentences may still be looked through.
    pub remaining: u32,
}

/// What the sentence read next means for the wait: `None` if it goes on, where `remaining`
/// sentences may still be looked through, this one among them.
pub open spec fn wait_outcome(
    number: u16,
    remaining: u32,
    read: Result<Seq<u8>, GpsError>,
) -> Option<Result<(), GpsError>> {
    match read {
        Err(e) => Some(Err(e)),
        Ok(sentence) => match ack_outcome(number, sentence) {
            Some(end) => Some(end),
            None => if remaining <= 1 {
                Some(Err(GpsError::NoAck))
            } else {
                None
            },
        },
    }
}

/// What was read, taken by its bytes.
pub open spec fn read_view(read: Result<Vec<u8>, GpsError>) -> Result<Seq<u8>, GpsError> {
    match read {
        Ok(sentence) => Ok(sentence@),
        Err(e) => Err(e),
    }
}

/// How a wait for the acknowledgement of `cmd` begins.
pub open spec fn wait_begins(cmd: Seq<u8>) -> Result<AckWait, GpsError> {
    if !is_command(cmd) {
        Err(GpsError::NoAck)
    } else {
        match unsigned(cmd.subrange(4, 7), 0xffff) {
            Some(n) => Ok(AckWait { number: n as u16, remaining: MAX_ACK_SENTENCES }),
            None => Err(GpsError::MalformedResponse),
        }
    }
}

impl AckWait {
    /// Begins to wait for the acknowledgement of `cmd`, which is sent by then. Only the
    /// receiver's own commands, with a number of three characters, are acknowledged.
    pub fn new(cmd: &[u8]) -> (wait: Result<AckWait, GpsError>)
        requires
            is_command(cmd@) ==> cmd@.len() >= 7,
        ensures
            wait == wait_begins(cmd@),
    {
        if cmd.len() < 4 || !same_bytes(
            vstd::slice::slice_subrange(cmd, 0, 4),
            "PMTK".as_bytes(),
        ) {
            proof {
                if cmd@.len() >= 4 {
                    assert(cmd@.take(4) =~= cmd@.subrange(0, 4));
                }
            }
            return Err(GpsError::NoAck);
        }
        proof {
            assert(cmd@.take(4) =~= cmd@.subrange(0, 4));
        }
        match parse_unsigned(vstd::slice::slice_subrange(cmd, 4, 7), 0xffff) {
            Some(n) => Ok(AckWait { number: n as u16, remaining: MAX_ACK_SENTENCES }),
            None => Err(GpsError::MalformedResponse),
        }
    }

    /// Takes the sentence read next, or the failure to read one.
    pub fn accept(&mut self, read: Result<Vec<u8>, GpsError>) -> (end: Option<
        Result<(), GpsError>,
    >)
        requires
            old(self).remaining > 0,
        ensures
            end == wait_outcome(old(self).number, old(self).remaining, read_view(read)),
            final(self).number == old(self).number,
            final(self).remaining == old(self).remaining - 1,
    {
        self.remaining = self.remaining - 1;
        match read {
            Err(e) => Some(Err(e)),
            Ok(sentence) => match read_ack(self.number, sentence.as_slice()) {
                Some(end) => Some(end),
                None => if self.remaining == 0 {
                    Some(Err(GpsError::NoAck))
                } else {
                    None
                },
            },
        }
    }
}

/// The speed at which the receiver is to work, in bits per second.
pub const FAST_BAUD: u32 = 57600;

/// The speed at which the receiver starts after it had no power.
pub const SLOW_BAUD: u32 = 9600;

/// How many commands configure the receiver.
pub const CONFIG_COMMANDS: u8 = 4;

/// How far the bringing up of the link has come: what is done next.
#[derive(Debug, Clone, Copy, PartialEq, Eq, Structural)]
pub enum GpsInit {
    /// Open the port at high speed.
    OpenFast,
    /// Skip to a line end.
    DiscardFast,
    /// Read a sentence.
    ReadFast,
    /// It did not work: open the port at low speed.
    OpenSlow,
    /// Skip to a line end.
    DiscardSlow,
    /// Tell the receiver to work at high speed.
    Upgrade,
    /// Open the port at high speed again.
    ReopenFast,
    /// Skip to a line end.
    DiscardAgain,
    /// Read a sentence.
    ReadAgain,
    /// Send this one of the commands that configure the receiver.
    Configure(u8),
    /// The receiver is ready for use.
    Ready,
}

/// What is to be done while the link is brought up.
#[derive(Debug, Clone, Copy, PartialEq, Eq)]
pub enum InitAction {
    /// Open the port at this speed.
    Open(u32),
    /// Skip to a line end.
    Discard,
    /// Read a sentence.
    ReadSentence,
    /// Send this command, and wait for no acknowledgement.
    Send(&'static str),
    /// Send this command, and wait for its acknowledgement.
    Command(&'static str),
    /// Nothing more.
    Ready,
}

/// The commands that configure the receiver: a fix every 500 ms, resistance to jamming,
/// continuous operation, and only the sentences that are used.
pub open spec fn config_command(i: u8) -> Seq<char> {
    if i == 0 {
        "PMTK220,500"@
    } else if i == 1 {
        "PMTK286,1"@
    } else if i == 2 {
        "PMTK225,0"@
    } else {
        "PMTK314,0,1,0,1,0,0,0,0,0,0,0,0,0,0,0,0,0,0,0"@
    }
}

impl GpsInit {
    /// There are only so many commands.
    pub open spec fn wf(self) -> bool {
        self matches GpsInit::Configure(i) ==> i < CONFIG_COMMANDS
    }

    /// Whether what is done next cannot fail.
    pub open spec fn is_certain(self) -> bool {
        self is OpenFast || self is OpenSlow || self is ReopenFast || self is Upgrade
    }

    /// What comes after, where what was done came out as `outcome`.
    pub open spec fn next(self, outcome: Result<(), GpsError>) -> Result<GpsInit, GpsError> {
        match (self, outcome) {
            (GpsInit::OpenFast, _) => Ok(GpsInit::DiscardFast),
            (GpsInit::DiscardFast, Ok(_)) => Ok(GpsInit::ReadFast),
            (GpsInit::ReadFast, Ok(_)) => Ok(GpsInit::Configure(0)),
            (GpsInit::DiscardFast, Err(_)) => Ok(GpsInit::OpenSlow),
            (GpsInit::ReadFast, Err(_)) => Ok(GpsInit::OpenSlow),
            (GpsInit::OpenSlow, _) => Ok(GpsInit::DiscardSlow),
            (GpsInit::DiscardSlow, Ok(_)) => Ok(GpsInit::Upgrade),
            (GpsInit::Upgrade, _) => Ok(GpsInit::ReopenFast),
            (GpsInit::ReopenFast, _) => Ok(GpsInit::DiscardAgain),
            (GpsInit::DiscardAgain, Ok(_)) => Ok(GpsInit::ReadAgain),
            (GpsInit::ReadAgain, Ok(_)) => Ok(GpsInit::Configure(0)),
            (GpsInit::Configure(i), Ok(_)) => if i + 1 < CONFIG_COMMANDS {
                Ok(GpsInit::Configure((i + 1) as u8))
            } else {
                Ok(GpsInit::Ready)
            },
            (_, Err(e)) => Err(e),
            (GpsInit::Ready, _) => Ok(GpsInit::Ready),
        }
    }

    /// How many steps there are at most until the receiver is ready.
    pub open spec fn steps_left(self) -> nat {
        match self {
            GpsInit::OpenFast => 13,
            GpsInit::DiscardFast => 12,
            GpsInit::ReadFast => 11,
            GpsInit::OpenSlow => 10,
            GpsInit::DiscardSlow => 9,
            GpsInit::Upgrade => 8,
            GpsInit::ReopenFast => 7,
            GpsInit::DiscardAgain => 6,
            GpsInit::ReadAgain => 5,
            GpsInit::Configure(i) => (CONFIG_COMMANDS - i) as nat,
            GpsInit::Ready => 0,
        }
    }

    /// Where the bringing up of the link begins.
    pub fn new() -> (init: GpsInit)
        ensures
            init == GpsInit::OpenFast,
    {
        GpsInit::OpenFast
    }

    /// What is to be done next.
    pub fn action(&self) -> (action: InitAction)
        requires
            self.wf(),
        ensures
            match *self {
                GpsInit::OpenFast => action == InitAction::Open(FAST_BAUD),
                GpsInit::ReopenFast => action == InitAction::Open(FAST_BAUD),
                GpsInit::OpenSlow => action == InitAction::Open(SLOW_BAUD),
                GpsInit::DiscardFast => action == InitAction::Discard,
                GpsInit::DiscardSlow => action == InitAction::Discard,
                GpsInit::DiscardAgain => action == InitAction::Discard,
                GpsInit::ReadFast => action == InitAction::ReadSentence,
                GpsInit::ReadAgain => action == InitAction::ReadSentence,
                GpsInit::Upgrade => action matches InitAction::Send(c) && c@ == "PMTK251,57600"@,
                GpsInit::Configure(i) => action matches InitAction::Command(c) && c@
                    == config_command(i),
                GpsInit::Ready => action == InitAction::Ready,
            },
    {
        match *self {
            GpsInit::OpenFast => InitAction::Open(FAST_BAUD),
            GpsInit::ReopenFast => InitAction::Open(FAST_BAUD),
            GpsInit::OpenSlow => InitAction::Open(SLOW_BAUD),
            GpsInit::DiscardFast => InitAction::Discard,
            GpsInit::DiscardSlow => InitAction::Discard,
            GpsInit::DiscardAgain => InitAction::Discard,
            GpsInit::ReadFast => InitAction::ReadSentence,
            GpsInit::ReadAgain => InitAction::ReadSentence,
            GpsInit::Upgrade => InitAction::Send("PMTK251,57600"),
            GpsInit::Configure(i) => {
                let command = if i == 0 {
                    "PMTK220,500"
                } else if i == 1 {
                    "PMTK286,1"
                } else if i == 2 {
                    "PMTK225,0"
                } else {
                    "PMTK314,0,1,0,1,0,0,0,0,0,0,0,0,0,0,0,0,0,0,0"
                };
                InitAction::Command(command)
            },
            GpsInit::Ready => InitAction::Ready,
        }
    }

    /// Goes on, where what was done came out as `outcome`; or fails for good.
    pub fn advance(&mut self, outcome: Result<(), GpsError>) -> (r: Result<(), GpsError>)
        requires
            old(self).wf(),
            *old(self) != GpsInit::Ready,
            old(self).is_certain() ==> outcome is Ok,
        ensures
            match old(self).next(outcome) {
                Ok(next) => r is Ok && *final(self) == next,
                Err(e) => r == Err::<(), GpsError>(e) && *final(self) == *old(self),
            },
            final(self).wf(),
    {
        match outcome {
            Ok(_) => {
                *self =
                match *self {
                    GpsInit::OpenFast => GpsInit::DiscardFast,
                    GpsInit::DiscardFast => GpsInit::ReadFast,
                    GpsInit::ReadFast => GpsInit::Configure(0),
                    GpsInit::OpenSlow => GpsInit::DiscardSlow,
                    GpsInit::DiscardSlow => GpsInit::Upgrade,
                    GpsInit::Upgrade => GpsInit::ReopenFast,
                    GpsInit::ReopenFast => GpsInit::DiscardAgain,
                    GpsInit::DiscardAgain => GpsInit::ReadAgain,
                    GpsInit::ReadAgain => GpsInit::Configure(0),
                    GpsInit::Configure(i) => if i + 1 < CONFIG_COMMANDS {
                        GpsInit::Configure(i + 1)
                    } else {
                        GpsInit::Ready
                    },
                    GpsInit::Ready => GpsInit::Ready,
                };
                Ok(())
            },
            Err(e) => match *self {
                GpsInit::DiscardFast => {
                    *self = GpsInit::OpenSlow;
                    Ok(())
                },
                GpsInit::ReadFast => {
                    *self = GpsInit::OpenSlow;
                    Ok(())
                },
                _ => Err(e),
            },
        }
    }
}

/// The bringing up of the link ends: every step that does not fail leaves fewer of them.
pub proof fn law_init_ends(at: GpsInit, outcome: Result<(), GpsError>)
    requires
        at.wf(),
        at != GpsInit::Ready,
        at.next(outcome) is Ok,
    ensures
        at.next(outcome)->Ok_0.wf(),
        at.next(outcome)->Ok_0.steps_left() < at.steps_left(),
{
}

/// The receiver is taken for ready only after a sentence has come at high speed and each of
/// the four commands has been acknowledged, one after the other.
pub proof fn law_ready_is_configured(at: GpsInit, outcome: Result<(), GpsError>)
    requires
        at.wf(),
        at != GpsInit::Ready,
    ensures
        at.next(outcome) == Ok::<GpsInit, GpsError>(GpsInit::Ready) ==> at == GpsInit::Configure(3)
            && outcome is Ok,
        forall|i: u8|
            0 < i < CONFIG_COMMANDS && #[trigger] at.next(outcome) == Ok::<GpsInit, GpsError>(
                GpsInit::Configure(i),
            ) ==> at == GpsInit::Configure((i - 1) as u8) && outcome is Ok,
        at.next(outcome) == Ok::<GpsInit, GpsError>(GpsInit::Configure(0)) ==> (at
            == GpsInit::ReadFast || at == GpsInit::ReadAgain) && outcome is Ok,
{
}

/// A failure on the first try at high speed is never final: it leads to the low speed.
pub proof fn law_fast_failure_tries_slow(at: GpsInit, e: GpsError)
    requires
        at == GpsInit::DiscardFast || at == GpsInit::ReadFast,
    ensures
        at.next(Err(e)) == Ok::<GpsInit, GpsError>(GpsInit::OpenSlow),
{
}

/// What each step is taken after: first the high speed is tried; if that fails, the low speed, at
/// which the receiver is told to change to the high one; then the high speed is tried again. Any
/// other failure is final and is passed on as it is.
pub proof fn law_steps_follow_each_other(at: GpsInit, outcome: Result<(), GpsError>)
    requires
        at.wf(),
        at != GpsInit::Ready,
        at.is_certain() ==> outcome is Ok,
    ensures
        ({
            let next = at.next(outcome);
            &&& next != Ok::<GpsInit, GpsError>(GpsInit::OpenFast)
            &&& next == Ok::<GpsInit, GpsError>(GpsInit::DiscardFast) <==> at == GpsInit::OpenFast
            &&& next == Ok::<GpsInit, GpsError>(GpsInit::ReadFast) <==> at == GpsInit::DiscardFast
                && outcome is Ok
            &&& next == Ok::<GpsInit, GpsError>(GpsInit::OpenSlow) <==> (at == GpsInit::DiscardFast
                || at == GpsInit::ReadFast) && outcome is Err
            &&& next == Ok::<GpsInit, GpsError>(GpsInit::DiscardSlow) <==> at == GpsInit::OpenSlow
            &&& next == Ok::<GpsInit, GpsError>(GpsInit::Upgrade) <==> at == GpsInit::DiscardSlow
                && outcome is Ok
            &&& next == Ok::<GpsInit, GpsError>(GpsInit::ReopenFast) <==> at == GpsInit::Upgrade
            &&& next == Ok::<GpsInit, GpsError>(GpsInit::DiscardAgain) <==> at
                == GpsInit::ReopenFast
            &&& next == Ok::<GpsInit, GpsError>(GpsInit::ReadAgain) <==> at == GpsInit::DiscardAgain
                && outcome is Ok
            &&& next == Ok::<GpsInit, GpsError>(GpsInit::Configure(0)) <==> (at == GpsInit::ReadFast
                || at == GpsInit::ReadAgain) && outcome is Ok
            &&& next == Ok::<GpsInit, GpsError>(GpsInit::Ready) <==> at == GpsInit::Configure(3)
                && outcome is Ok
            &&& next is Err <==> outcome is Err && at != GpsInit::DiscardFast && at
                != GpsInit::ReadFast
            &&& next matches Err(e) ==> outcome == Err::<(), GpsError>(e)
        }),
{
}

/// The commands ask for the position every 500 ms, for protection from jamming, for the normal
/// mode, and for only two of the nineteen kinds of sentences. The two speeds are fixed.
pub proof fn law_config_commands_say_what_is_wanted(k: int)
    requires
        0 <= k < 19,
    ensures
        config_command(0).skip(7) == seq![',', '5', '0', '0'],
        config_command(1).skip(7) == seq![',', '1'],
        config_command(2).skip(7) == seq![',', '0'],
        config_command(3).len() == 7 + 2 * 19,
        config_command(3)[7 + 2 * k] == ',',
        config_command(3)[8 + 2 * k] == (if k == 1 || k == 3 {
            '1'
        } else {
            '0'
        }),
        FAST_BAUD == 57600,
        SLOW_BAUD == 9600,
{
    reveal_strlit("PMTK220,500");
    reveal_strlit("PMTK286,1");
    reveal_strlit("PMTK225,0");
    reveal_strlit("PMTK314,0,1,0,1,0,0,0,0,0,0,0,0,0,0,0,0,0,0,0");
    assert(config_command(0).skip(7) =~= seq![',', '5', '0', '0']);
    assert(config_command(1).skip(7) =~= seq![',', '1']);
    assert(config_command(2).skip(7) =~= seq![',', '0']);
}

/// A command is acknowledged under the number of three digits behind `PMTK`; without such a number
/// it cannot be, and what does not start so brings no acknowledgement.
pub proof fn law_command_is_awaited_under_its_number(a: u8, b: u8, c: u8, rest: Seq<u8>, cmd: Seq<u8>)
    ensures
        48 <= a <= 57 && 48 <= b <= 57 && 48 <= c <= 57 ==> wait_begins(
            seq![80u8, 77u8, 84u8, 75u8, a, b, c] + rest,
        ) == Ok::<AckWait, GpsError>(
            AckWait {
                number: (100 * (a - 48) + 10 * (b - 48) + (c - 48)) as u16,
                remaining: 10,
            },
        ),
        !(48 <= b <= 57) || !(48 <= c <= 57) ==> wait_begins(
            seq![80u8, 77u8, 84u8, 75u8, a, b, c] + rest,
        ) == Err::<AckWait, GpsError>(GpsError::MalformedResponse),
        cmd.len() < 4 || cmd.take(4) != seq![80u8, 77u8, 84u8, 75u8] ==> wait_begins(cmd) == Err::<
            AckWait,
            GpsError,
        >(GpsError::NoAck),
{
    reveal_strlit("PMTK");
    is_ascii_chars_encode_utf8("PMTK"@);
    assert(command_prefix() =~= seq![80u8, 77u8, 84u8, 75u8]);
    let s = seq![80u8, 77u8, 84u8, 75u8, a, b, c] + rest;
    assert(s.take(4) =~= command_prefix());
    let n = s.subrange(4, 7);
    assert(n =~= seq![a, b, c]);
    if 48 <= a <= 57 && 48 <= b <= 57 && 48 <= c <= 57 {
        lemma_command_number(s, a, b, c);
    }
    if !(48 <= b <= 57) {
        law_other_text_is_no_number(n, 1, 0xffff);
    } else if !(48 <= c <= 57) {
        law_other_text_is_no_number(n, 2, 0xffff);
    }
}

/// The number in the text of a command of the receiver.
proof fn lemma_command_number(cmd: Seq<u8>, a: u8, b: u8, c: u8)
    requires
        cmd.len() >= 7,
        cmd.take(4) == command_prefix(),
        cmd[4] == a,
        cmd[5] == b,
        cmd[6] == c,
        is_digit(a) && is_digit(b) && is_digit(c),
    ensures
        wait_begins(cmd) == Ok::<AckWait, GpsError>(
            AckWait {
                number: ((a - '0' as u8) * 100 + (b - '0' as u8) * 10 + (c - '0' as u8)) as u16,
                remaining: MAX_ACK_SENTENCES,
            },
        ),
{
    let n = cmd.subrange(4, 7);
    assert(n =~= seq![a, b, c]);
    reveal_with_fuel(digits_value, 4);
    assert(n.drop_last() =~= seq![a, b]);
    assert(n.drop_last().drop_last() =~= seq![a]);
    assert(n.drop_last().drop_last().drop_last() =~= Seq::<u8>::empty());
}

/// The number of each command that configures the receiver.
pub open spec fn config_number(i: u8) -> u16 {
    if i == 0 {
        220
    } else if i == 1 {
        286
    } else if i == 2 {
        225
    } else {
        314
    }
}

/// Each command that configures the receiver has a number under which it is acknowledged.
pub proof fn law_config_commands_are_acknowledged(i: u8)
    requires
        i < CONFIG_COMMANDS,
    ensures
        is_command(encode_utf8(config_command(i))),
        encode_utf8(config_command(i)).len() >= 7,
        wait_begins(encode_utf8(config_command(i))) == Ok::<AckWait, GpsError>(
            AckWait { number: config_number(i), remaining: MAX_ACK_SENTENCES },
        ),
{
    reveal_strlit("PMTK");
    reveal_strlit("PMTK220,500");
    reveal_strlit("PMTK286,1");
    reveal_strlit("PMTK225,0");
    reveal_strlit("PMTK314,0,1,0,1,0,0,0,0,0,0,0,0,0,0,0,0,0,0,0");
    let text = config_command(i);
    assert(is_ascii_chars("PMTK"@));
    assert(is_ascii_chars(text));
    is_ascii_chars_encode_utf8("PMTK"@);
    is_ascii_chars_encode_utf8(text);
    let cmd = encode_utf8(text);
    assert(cmd.take(4) =~= command_prefix());
    lemma_command_number(cmd, cmd[4], cmd[5], cmd[6]);
}

/// The command that does nothing but bring an acknowledgement has the number 0.
pub(crate) proof fn lemma_test_is_acknowledged()
    ensures
        is_command("PMTK000".spec_bytes()),
        "PMTK000".spec_bytes().len() >= 7,
        wait_begins("PMTK000".spec_bytes()) == Ok::<AckWait, GpsError>(
            AckWait { number: 0, remaining: MAX_ACK_SENTENCES },
        ),
{
    reveal_strlit("PMTK");
    reveal_strlit("PMTK000");
    assert(is_ascii_chars("PMTK"@));
    assert(is_ascii_chars("PMTK000"@));
    is_ascii_chars_encode_utf8("PMTK"@);
    is_ascii_chars_encode_utf8("PMTK000"@);
    let cmd = "PMTK000".spec_bytes();
    assert(cmd.take(4) =~= command_prefix());
    lemma_command_number(cmd, cmd[4], cmd[5], cmd[6]);
}

/// An acknowledgement is read as it is written: which command it is for, and its status. Only
/// status 3 for the command that was sent is success. Any other sentence is passed over.
pub proof fn law_acknowledgement_reads_back(
    number: u16,
    other: nat,
    status: nat,
    more: Seq<Seq<u8>>,
    name: Seq<u8>,
)
    requires
        !name.contains(44),
        name != seq![80u8, 77u8, 84u8, 75u8, 48u8, 48u8, 49u8],
        forall|i: int| 0 <= i < more.len() ==> !(#[trigger] more[i]).contains(44),
    ensures
        ({
            let ack = seq![80u8, 77u8, 84u8, 75u8, 48u8, 48u8, 49u8];
            let sentence = joined(
                seq![ack, bytes_of(decimal(other)), bytes_of(decimal(status))] + more,
                44,
            );
            &&& other == number && status == 3 ==> ack_outcome(number, sentence) == Some(
                Ok::<(), GpsError>(()),
            )
            &&& other == number && status != 3 && status < 256 ==> ack_outcome(number, sentence)
                == Some(Err::<(), GpsError>(GpsError::AckFail(number, status as u8)))
            &&& other == number && status >= 256 ==> ack_outcome(number, sentence) == Some(
                Err::<(), GpsError>(GpsError::MalformedResponse),
            )
            &&& other != number && other < 65536 ==> ack_outcome(number, sentence) == Some(
                Err::<(), GpsError>(GpsError::UnexpectedParameter(number, other as u16)),
            )
            &&& other >= 65536 ==> ack_outcome(number, sentence) == Some(
                Err::<(), GpsError>(GpsError::MalformedResponse),
            )
        }),
        ack_outcome(number, joined(seq![name] + more, 44)) is None,
        ack_outcome(number, seq![80u8, 77u8, 84u8, 75u8, 48u8, 48u8, 49u8]) == Some(
            Err::<(), GpsError>(GpsError::MalformedResponse),
        ),
        ack_outcome(
            number,
            joined(
                seq![
                    seq![80u8, 77u8, 84u8, 75u8, 48u8, 48u8, 49u8],
                    bytes_of(decimal(number as nat)),
                ],
                44,
            ),
        ) == Some(Err::<(), GpsError>(GpsError::MalformedResponse)),
{
    reveal_strlit("PMTK001");
    is_ascii_chars_encode_utf8("PMTK001"@);
    let ack = seq![80u8, 77u8, 84u8, 75u8, 48u8, 48u8, 49u8];
    assert("PMTK001".spec_bytes() =~= ack);
    let a = bytes_of(decimal(other));
    let b = bytes_of(decimal(status));
    law_decimal_reads_back(other, 0xffff);
    law_decimal_reads_back(status, 0xff);
    lemma_no_comma(decimal(other));
    lemma_no_comma(decimal(status));
    law_decimal_is_the_number(other);
    law_decimal_is_the_number(status);
    assert(!ack.contains(44));
    let fs = seq![ack, a, b] + more;
    assert forall|i: int| 0 <= i < fs.len() implies !(#[trigger] fs[i]).contains(44) by {
        if i >= 3 {
            assert(fs[i] == more[i - 3]);
        }
    }
    law_joined_fields_are_parted(fs, 44);
    let gs = seq![name] + more;
    assert forall|i: int| 0 <= i < gs.len() implies !(#[trigger] gs[i]).contains(44) by {
        if i >= 1 {
            assert(gs[i] == more[i - 1]);
        }
    }
    law_joined_fields_are_parted(gs, 44);
    assert(joined(seq![ack], 44) == ack);
    law_joined_fields_are_parted(seq![ack], 44);
    let own = bytes_of(decimal(number as nat));
    law_decimal_is_the_number(number as nat);
    law_decimal_reads_back(number as nat, 0xffff);
    lemma_no_comma(decimal(number as nat));
    law_joined_fields_are_parted(seq![ack, own], 44);
}

proof fn lemma_no_comma(t: Seq<char>)
    ensures
        is_digits(t) ==> !bytes_of(t).contains(44),
{
    if is_digits(t) {
        assert forall|i: int| 0 <= i < bytes_of(t).len() implies bytes_of(t)[i] != 44 by {
            assert('0' <= t[i] <= '9');
        }
    }
}

/// The search for a line end is over with the first line end or timeout and goes on over any other
/// byte and over an overrun, as long as not all the bytes that may be looked at have come.
pub proof fn law_search_stops_at_the_line_end(remaining: u32, b: u8, e: GpsError)
    requires
        remaining > 1,
    ensures
        discard_outcome(remaining, Ok(b)) is Some <==> b == 10,
        b == 10 ==> discard_outcome(remaining, Ok(b)) == Some(Ok::<(), GpsError>(())),
        discard_outcome(remaining, Err(GpsError::ReadTimeout)) == Some(Ok::<(), GpsError>(())),
        discard_outcome(remaining, Err(e)) is None <==> e == GpsError::ReadError(
            ReadErrorType::Overrun,
        ),
        e != GpsError::ReadTimeout && e != GpsError::ReadError(ReadErrorType::Overrun)
            ==> discard_outcome(remaining, Err(e)) == Some(Err::<(), GpsError>(e)),
        discard_outcome(1, Ok(b)) == Some(Ok::<(), GpsError>(())),
        discard_outcome(1, Err(GpsError::ReadError(ReadErrorType::Overrun))) == Some(
            Ok::<(), GpsError>(()),
        ),
{
}

/// A wait for an acknowledgement passes on what a sentence says on it, and a failure to read one;
/// it goes on exactly over sentences that say nothing, and ten of them end it.
pub proof fn law_wait_is_for_ten_sentences(number: u16, remaining: u32, sentence: Seq<u8>, e: GpsError)
    requires
        remaining > 0,
    ensures
        wait_outcome(number, remaining, Err(e)) == Some(Err::<(), GpsError>(e)),
        ack_outcome(number, sentence) is Some ==> wait_outcome(number, remaining, Ok(sentence))
            == ack_outcome(number, sentence),
        ack_outcome(number, sentence) is None ==> wait_outcome(number, remaining, Ok(sentence)) == (
        if remaining == 1 {
            Some(Err::<(), GpsError>(GpsError::NoAck))
        } else {
            None
        }),
        MAX_ACK_SENTENCES == 10,
        MAX_DISCARD == 200,
{
}

/// How many bytes have come in all.
pub open spec fn total(reads: Seq<PortRead>) -> nat
    decreases reads.len(),
{
    if reads.len() == 0 {
        0
    } else {
        total(reads.drop_last()) + (match reads.last() {
            PortRead::Bytes(n) => n as nat,
            _ => 0,
        })
    }
}

/// Bytes are counted as they come, and the read is done exactly when all that were asked for have
/// come and nothing has been tried since.
pub proof fn law_read_ends_when_all_have_come(len: usize, reads: Seq<PortRead>)
    requires
        open_before_each(len, reads),
        total(reads) <= len,
    ensures
        after_all(len, reads).offset == total(reads),
        after_all(len, reads).standing() == ReadStep::Done <==> total(reads) == len && silence(reads)
            == 0,
        MAX_ATTEMPTS == 100_000,
    decreases reads.len(),
{
    law_timeout_needs_silence(len, reads);
    if reads.len() > 0 {
        law_read_ends_when_all_have_come(len, reads.drop_last());
    }
}

} // verus!
