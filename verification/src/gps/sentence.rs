//! The framing of sentences: a dollar sign, the command, an asterisk, a checksum of two
//! hexadecimal digits, carriage return and line feed.

use vstd::prelude::*;
use crate::gps::GpsError;
use crate::text::{hex_digit, hex_value, parse_hex, write_hex};

verus! {

/// The most bytes that may stand between the dollar sign and the asterisk: the 82 bytes of the
/// longest sentence, less the six of its frame.
pub const MAX_BODY: usize = 76;

/// All bytes of `s`, combined by exclusive or.
pub open spec fn checksum(s: Seq<u8>) -> u8
    decreases s.len(),
{
    if s.len() == 0 {
        0
    } else {
        checksum(s.drop_last()) ^ s.last()
    }
}

/// What follows the asterisk of a sentence with the checksum `sum`.
pub open spec fn trailer(sum: u8) -> Seq<u8> {
    seq![hex_digit((sum / 16) as int), hex_digit((sum % 16) as int), '\r' as u8, '\n' as u8]
}

/// The sentence that carries `cmd`.
pub open spec fn framed(cmd: Seq<u8>) -> Seq<u8> {
    seq!['$' as u8] + cmd + seq!['*' as u8] + trailer(checksum(cmd))
}

/// Frames a command: `PMTK000` becomes `$PMTK000*32`, carriage return, line feed.
pub fn frame(cmd: &[u8]) -> (out: Vec<u8>)
    ensures
        out@ == framed(cmd@),
{
    let mut sum: u8 = 0;
    let mut out: Vec<u8> = Vec::new();
    out.push('$' as u8);
    let mut i: usize = 0;
    while i < cmd.len()
        invariant
            i <= cmd.len(),
            sum == checksum(cmd@.take(i as int)),
            out@ == seq!['$' as u8] + cmd@.take(i as int),
        decreases cmd.len() - i,
    {
        proof {
            assert(cmd@.take(i + 1).drop_last() =~= cmd@.take(i as int));
        }
        sum = sum ^ cmd[i];
        out.push(cmd[i]);
        i = i + 1;
        proof {
            assert(out@ =~= seq!['$' as u8] + cmd@.take(i as int));
        }
    }
    proof {
        assert(cmd@.take(i as int) =~= cmd@);
        assert((sum & 0xF0u8) >> 4 == sum / 16 && sum & 0x0Fu8 == sum % 16) by (bit_vector);
    }
    let first: u8 = (sum & 0xF0) >> 4;
    let second: u8 = sum & 0x0F;
    out.push('*' as u8);
    out.push(write_hex(first));
    out.push(write_hex(second));
    out.push('\r' as u8);
    out.push('\n' as u8);
    proof {
        assert(out@ =~= framed(cmd@));
    }
    out
}

/// How far the reading of a sentence has come.
#[derive(Debug, PartialEq, Eq)]
pub enum SentenceReader {
    /// The dollar sign is next.
    Start,
    /// The dollar sign and these bytes have come.
    Body(Vec<u8>),
    /// The asterisk has come too; the checksum and the line end are next.
    Trailer(Vec<u8>),
}

/// What the model of a [`SentenceReader`] holds.
pub enum Reading {
    Start,
    Body(Seq<u8>),
    Trailer(Seq<u8>),
}

/// What the bytes handed to a reader lead to.
#[derive(Debug, PartialEq, Eq)]
pub enum SentenceStep {
    /// The sentence is not complete: read on.
    More,
    /// The sentence is complete and carries these bytes.
    Done(Vec<u8>),
    /// The sentence is not one.
    Fail(GpsError),
}

/// What the bytes handed to a reader lead to, in the model.
pub enum Progress {
    More(Reading),
    Done(Seq<u8>),
    Fail(GpsError),
}

impl View for SentenceReader {
    type V = Reading;

    open spec fn view(&self) -> Reading {
        match *self {
            SentenceReader::Start => Reading::Start,
            SentenceReader::Body(body) => Reading::Body(body@),
            SentenceReader::Trailer(body) => Reading::Trailer(body@),
        }
    }
}

/// How many bytes are to be read next.
pub open spec fn wanted(at: Reading) -> nat {
    match at {
        Reading::Trailer(_) => 4,
        _ => 1,
    }
}

/// Whether the last four bytes of a sentence that carries `body` may be `t`, and if not, why.
pub open spec fn trailer_outcome(body: Seq<u8>, t: Seq<u8>) -> Progress {
    match (hex_value(t[0]), hex_value(t[1])) {
        (Some(high), Some(low)) => {
            if high * 16 + low != checksum(body) {
                Progress::Fail(GpsError::WrongChecksum)
            } else if t[2] != '\r' as u8 || t[3] != '\n' as u8 {
                Progress::Fail(GpsError::InvalidEnd)
            } else {
                Progress::Done(body)
            }
        },
        _ => Progress::Fail(GpsError::InvalidChecksum),
    }
}

/// What the next `bytes`, as many as [`wanted`], lead to.
pub open spec fn progress(at: Reading, bytes: Seq<u8>) -> Progress {
    match at {
        Reading::Start => {
            if bytes[0] == '$' as u8 {
                Progress::More(Reading::Body(Seq::empty()))
            } else {
                Progress::Fail(GpsError::InvalidStart(bytes[0] as char))
            }
        },
        Reading::Body(body) => {
            if bytes[0] == '*' as u8 {
                Progress::More(Reading::Trailer(body))
            } else if body.len() < MAX_BODY {
                Progress::More(Reading::Body(body.push(bytes[0])))
            } else {
                Progress::Fail(GpsError::TooLong)
            }
        },
        Reading::Trailer(body) => trailer_outcome(body, bytes),
    }
}

/// What a reader makes of `stream`, from which it takes as many bytes as it wants until it
/// is done or has failed; nothing if the stream ends before that.
pub open spec fn read_from(at: Reading, stream: Seq<u8>) -> Option<Progress>
    decreases stream.len(),
{
    if stream.len() < wanted(at) {
        None
    } else {
        let n = wanted(at) as int;
        match progress(at, stream.take(n)) {
            Progress::More(next) => read_from(next, stream.skip(n)),
            end => Some(end),
        }
    }
}

proof fn lemma_hex_digit_value(n: int)
    requires
        0 <= n < 16,
    ensures
        hex_value(hex_digit(n)) == Some(n as u8),
{
}

proof fn lemma_read_body(body: Seq<u8>, rest: Seq<u8>, sum: u8)
    requires
        !rest.contains('*' as u8),
        body.len() + rest.len() <= MAX_BODY,
        sum == checksum(body + rest),
    ensures
        read_from(Reading::Body(body), rest + seq!['*' as u8] + trailer(sum)) == Some(
            Progress::Done(body + rest),
        ),
    decreases rest.len(),
{
    let stream = rest + seq!['*' as u8] + trailer(sum);
    if rest.len() == 0 {
        assert(body + rest =~= body);
        assert(stream.take(1)[0] == '*' as u8);
        let t = trailer(sum);
        assert(stream.skip(1) =~= t);
        assert(t.take(4) =~= t);
        lemma_hex_digit_value((sum / 16) as int);
        lemma_hex_digit_value((sum % 16) as int);
        reveal_with_fuel(read_from, 3);
    } else {
        assert(stream.take(1)[0] == rest[0]);
        assert(rest.contains(rest[0]));
        assert(body.push(rest[0]) + rest.skip(1) =~= body + rest);
        assert(stream.skip(1) =~= rest.skip(1) + seq!['*' as u8] + trailer(sum));
        assert forall|i: int| 0 <= i < rest.skip(1).len() implies rest.skip(1)[i] != '*' as u8 by {
            assert(rest.contains(rest[i + 1]));
        }
        lemma_read_body(body.push(rest[0]), rest.skip(1), sum);
    }
}

/// What is framed is read back: a reader that is handed the sentence for a command gives the
/// command, where it holds no asterisk and has at most 76 bytes.
pub proof fn law_framed_reads_back(cmd: Seq<u8>)
    requires
        !cmd.contains('*' as u8),
        cmd.len() <= MAX_BODY,
    ensures
        read_from(Reading::Start, framed(cmd)) == Some(Progress::Done(cmd)),
{
    let stream = framed(cmd);
    assert(stream.take(1)[0] == '$' as u8);
    assert(stream.skip(1) =~= cmd + seq!['*' as u8] + trailer(checksum(cmd)));
    assert(Seq::<u8>::empty() + cmd =~= cmd);
    lemma_read_body(Seq::empty(), cmd, checksum(cmd));
}

proof fn lemma_body_ends(body: Seq<u8>, stream: Seq<u8>)
    requires
        body.len() <= MAX_BODY,
        stream.len() + body.len() >= MAX_BODY + 5,
    ensures
        read_from(Reading::Body(body), stream) is Some,
    decreases stream.len(),
{
    reveal_with_fuel(read_from, 2);
    let b = stream.take(1)[0];
    if b != '*' as u8 && body.len() < MAX_BODY {
        lemma_body_ends(body.push(b), stream.skip(1));
    }
}

/// A reader never waits for more than 82 bytes: whatever they are, it is done by then or has
/// failed.
pub proof fn law_reading_ends(stream: Seq<u8>)
    requires
        stream.len() >= MAX_BODY + 6,
    ensures
        read_from(Reading::Start, stream) is Some,
{
    if stream.take(1)[0] == '$' as u8 {
        lemma_body_ends(Seq::empty(), stream.skip(1));
    }
}

/// A single wrong byte is noticed: it gives another checksum.
pub proof fn law_one_wrong_byte_is_noticed(s: Seq<u8>, i: int, b: u8)
    requires
        0 <= i < s.len(),
        b != s[i],
    ensures
        checksum(s.update(i, b)) != checksum(s),
    decreases s.len(),
{
    let wrong = s.update(i, b);
    let (x, y) = (checksum(wrong.drop_last()), checksum(s.drop_last()));
    let (c, d) = (wrong.last(), s.last());
    if i == s.len() - 1 {
        assert(wrong.drop_last() =~= s.drop_last());
    } else {
        assert(wrong.drop_last() =~= s.drop_last().update(i, b));
        law_one_wrong_byte_is_noticed(s.drop_last(), i, b);
    }
    assert(x ^ c != y ^ d) by (bit_vector)
        requires
            (x == y && c != d) || (x != y && c == d),
    ;
}

/// The checksum is the exclusive or of all the bytes.
pub proof fn law_checksum_is_the_exclusive_or(a: Seq<u8>, b: Seq<u8>, c: u8)
    ensures
        checksum(Seq::empty()) == 0,
        checksum(seq![c]) == c,
        checksum(a + b) == checksum(a) ^ checksum(b),
    decreases b.len(),
{
    let one = seq![c];
    assert(one.drop_last() =~= Seq::<u8>::empty());
    assert(one.last() == c);
    assert(checksum(one) == checksum(one.drop_last()) ^ c);
    assert(0u8 ^ c == c) by (bit_vector);
    let x = checksum(a);
    if b.len() == 0 {
        assert(a + b =~= a);
        assert(x ^ 0u8 == x) by (bit_vector);
    } else {
        let y = checksum(b.drop_last());
        let z = b.last();
        law_checksum_is_the_exclusive_or(a, b.drop_last(), c);
        assert((a + b).drop_last() =~= a + b.drop_last());
        assert((a + b).last() == z);
        assert((x ^ y) ^ z == x ^ (y ^ z)) by (bit_vector);
    }
}

/// The number that a digit or a capital letter stands for.
pub open spec fn capital_hex(b: u8) -> int {
    if b <= 57 {
        b - 48
    } else {
        b - 55
    }
}

/// A sentence is a dollar sign, the command, an asterisk, the checksum of the command in two
/// hexadecimal digits with capital letters, carriage return and line feed.
pub proof fn law_sentence_has_its_frame(cmd: Seq<u8>)
    ensures
        ({
            let s = framed(cmd);
            let n = cmd.len() as int;
            &&& s.len() == n + 6
            &&& s[0] == 36 && s.subrange(1, n + 1) == cmd && s[n + 1] == 42
            &&& 48 <= s[n + 2] <= 57 || 65 <= s[n + 2] <= 70
            &&& 48 <= s[n + 3] <= 57 || 65 <= s[n + 3] <= 70
            &&& capital_hex(s[n + 2]) * 16 + capital_hex(s[n + 3]) == checksum(cmd)
            &&& s[n + 4] == 13 && s[n + 5] == 10
        }),
{
    assert(framed(cmd).subrange(1, cmd.len() as int + 1) =~= cmd);
}

proof fn lemma_body_then_trailer(body: Seq<u8>, rest: Seq<u8>, t: Seq<u8>)
    requires
        !rest.contains(42),
        body.len() + rest.len() <= MAX_BODY,
        t.len() == 4,
    ensures
        read_from(Reading::Body(body), rest + (seq![42u8] + t)) == Some(
            trailer_outcome(body + rest, t),
        ),
    decreases rest.len(),
{
    let stream = rest + (seq![42u8] + t);
    if rest.len() == 0 {
        assert(body + rest =~= body);
        assert(stream.take(1)[0] == 42);
        assert(stream.skip(1) =~= t);
        assert(t.take(4) =~= t);
        reveal_with_fuel(read_from, 3);
    } else {
        assert(stream.take(1)[0] == rest[0]);
        assert(rest.contains(rest[0]));
        assert(body.push(rest[0]) + rest.skip(1) =~= body + rest);
        assert(stream.skip(1) =~= rest.skip(1) + (seq![42u8] + t));
        assert forall|i: int| 0 <= i < rest.skip(1).len() implies rest.skip(1)[i] != 42 by {
            assert(rest.contains(rest[i + 1]));
        }
        lemma_body_then_trailer(body.push(rest[0]), rest.skip(1), t);
    }
}

/// What comes behind the asterisk is checked: two hexadecimal digits in small or capital letters,
/// which must be those of the checksum, and then the line end.
pub proof fn law_trailer_is_checked(cmd: Seq<u8>, t: Seq<u8>)
    requires
        !cmd.contains(42),
        cmd.len() <= MAX_BODY,
        t.len() == 4,
    ensures
        ({
            let end = read_from(Reading::Start, seq![36u8] + (cmd + (seq![42u8] + t)));
            match (hex_value(t[0]), hex_value(t[1])) {
                (Some(high), Some(low)) => {
                    &&& 16 * high + low != checksum(cmd) ==> end == Some(
                        Progress::Fail(GpsError::WrongChecksum),
                    )
                    &&& 16 * high + low == checksum(cmd) && !(t[2] == 13 && t[3] == 10) ==> end
                        == Some(Progress::Fail(GpsError::InvalidEnd))
                    &&& 16 * high + low == checksum(cmd) && t[2] == 13 && t[3] == 10 ==> end
                        == Some(Progress::Done(cmd))
                },
                _ => end == Some(Progress::Fail(GpsError::InvalidChecksum)),
            }
        }),
{
    let s = seq![36u8] + (cmd + (seq![42u8] + t));
    assert(s.take(1)[0] == 36);
    assert(s.skip(1) =~= cmd + (seq![42u8] + t));
    assert(Seq::<u8>::empty() + cmd =~= cmd);
    lemma_body_then_trailer(Seq::empty(), cmd, t);
}

proof fn lemma_body_too_long(body: Seq<u8>, rest: Seq<u8>)
    requires
        !rest.contains(42),
        body.len() <= 76,
        body.len() + rest.len() > 76,
    ensures
        read_from(Reading::Body(body), rest) == Some(Progress::Fail(GpsError::TooLong)),
    decreases rest.len(),
{
    reveal_with_fuel(read_from, 2);
    assert(rest.take(1)[0] == rest[0]);
    assert(rest.contains(rest[0]));
    if body.len() < 76 {
        assert forall|i: int| 0 <= i < rest.skip(1).len() implies rest.skip(1)[i] != 42 by {
            assert(rest.contains(rest[i + 1]));
        }
        lemma_body_too_long(body.push(rest[0]), rest.skip(1));
    }
}

/// A sentence must start with a dollar sign, and an asterisk must come within 77 bytes behind it.
pub proof fn law_other_text_is_no_sentence(b: u8, rest: Seq<u8>)
    ensures
        b != 36 ==> read_from(Reading::Start, seq![b] + rest) == Some(
            Progress::Fail(GpsError::InvalidStart(b as char)),
        ),
        rest.len() > 76 && !rest.contains(42) ==> read_from(Reading::Start, seq![36u8] + rest)
            == Some(Progress::Fail(GpsError::TooLong)),
{
    let s = seq![b] + rest;
    assert(s.take(1)[0] == b);
    if rest.len() > 76 && !rest.contains(42) {
        let t = seq![36u8] + rest;
        assert(t.take(1)[0] == 36);
        assert(t.skip(1) =~= rest);
        lemma_body_too_long(Seq::empty(), rest);
    }
}

impl SentenceReader {
    /// A reader that waits for a dollar sign.
    pub fn new() -> (reader: SentenceReader)
        ensures
            reader@ == Reading::Start,
    {
        SentenceReader::Start
    }

    /// How many bytes to read next.
    pub fn wants(&self) -> (n: usize)
        ensures
            n == wanted(self@),
    {
        match self {
            SentenceReader::Trailer(_) => 4,
            _ => 1,
        }
    }

    /// Takes the bytes that were read next.
    pub fn accept(&mut self, bytes: &[u8]) -> (step: SentenceStep)
        requires
            bytes@.len() == wanted(old(self)@),
        ensures
            match progress(old(self)@, bytes@) {
                Progress::More(next) => step == SentenceStep::More && final(self)@ == next,
                Progress::Done(body) => {
                    &&& step matches SentenceStep::Done(b) && b@ == body
                    &&& final(self)@ == Reading::Start
                },
                Progress::Fail(e) => step == SentenceStep::Fail(e) && final(self)@
                    == Reading::Start,
            },
    {
        let mut at = SentenceReader::Start;
        std::mem::swap(self, &mut at);
        match at {
            SentenceReader::Start => {
                if bytes[0] != '$' as u8 {
                    return SentenceStep::Fail(GpsError::InvalidStart(bytes[0] as char));
                }
                *self = SentenceReader::Body(Vec::new());
                SentenceStep::More
            },
            SentenceReader::Body(mut body) => {
                if bytes[0] == '*' as u8 {
                    *self = SentenceReader::Trailer(body);
                    return SentenceStep::More;
                }
                if body.len() >= MAX_BODY {
                    return SentenceStep::Fail(GpsError::TooLong);
                }
                body.push(bytes[0]);
                *self = SentenceReader::Body(body);
                SentenceStep::More
            },
            SentenceReader::Trailer(body) => check_trailer(body, bytes),
        }
    }
}

fn check_trailer(body: Vec<u8>, t: &[u8]) -> (step: SentenceStep)
    requires
        t@.len() == 4,
    ensures
        match trailer_outcome(body@, t@) {
            Progress::Done(b) => step matches SentenceStep::Done(c) && c@ == b,
            Progress::Fail(e) => step == SentenceStep::Fail(e),
            Progress::More(_) => false,
        },
{
    let mut sum: u8 = 0;
    let mut i: usize = 0;
    while i < body.len()
        invariant
            i <= body.len(),
            sum == checksum(body@.take(i as int)),
        decreases body.len() - i,
    {
        proof {
            assert(body@.take(i + 1).drop_last() =~= body@.take(i as int));
        }
        sum = sum ^ body[i];
        i = i + 1;
    }
    proof {
        assert(body@.take(i as int) =~= body@);
    }
    match (parse_hex(t[0]), parse_hex(t[1])) {
        (Some(high), Some(low)) => {
            let received: u32 = high as u32 * 16 + low as u32;
            if received != sum as u32 {
                SentenceStep::Fail(GpsError::WrongChecksum)
            } else if t[2] != '\r' as u8 || t[3] != '\n' as u8 {
                SentenceStep::Fail(GpsError::InvalidEnd)
            } else {
                SentenceStep::Done(body)
            }
        },
        _ => SentenceStep::Fail(GpsError::InvalidChecksum),
    }
}

} // verus!
