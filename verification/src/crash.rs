//! The last message on the screen: what made the device stop, broken into lines that fit.

use vstd::prelude::*;
use vstd::utf8::{encode_utf8, is_ascii_chars, is_ascii_chars_encode_utf8};

verus! {

/// How many characters a line of the screen holds.
pub const LINE_LEN: usize = 32;

/// Text of at most `N` bytes: `heapless::String`.
#[verifier::external_type_specification]
#[verifier::external_body]
pub struct ExHeaplessString<const N: usize>(heapless::String<N>);

/// What a message holds.
pub uninterp spec fn message_text(s: heapless::String<512>) -> Seq<char>;

/// What the screen shows.
pub uninterp spec fn screen_text(s: heapless::String<522>) -> Seq<char>;

/// Whether `more` can follow `text` within `limit` bytes.
pub open spec fn fits(text: Seq<char>, more: Seq<char>, limit: int) -> bool {
    encode_utf8(text).len() + encode_utf8(more).len() <= limit
}

/// Puts `more` at the end of a message.
///
/// Calls `heapless::String::push_str`. Trusted: it succeeds exactly where the bytes fit in the
/// capacity, and changes nothing where they do not.
#[verifier::external_body]
fn push_to_message(s: &mut heapless::String<512>, more: &str) -> (r: Result<(), ()>)
    ensures
        r is Ok <==> fits(message_text(*old(s)), more@, 512),
        message_text(*final(s)) == (if r is Ok {
            message_text(*old(s)) + more@
        } else {
            message_text(*old(s))
        }),
{
    s.push_str(more)
}

/// An empty screen.
///
/// Calls `heapless::String::new`. Trusted: what it gives holds nothing.
#[verifier::external_body]
fn empty_screen() -> (r: heapless::String<522>)
    ensures
        screen_text(r) == Seq::<char>::empty(),
{
    heapless::String::new()
}

/// Puts `c` at the end of what the screen shows.
///
/// Calls `heapless::String::push`. Trusted: it succeeds exactly where the bytes of the character
/// fit in the capacity, and changes nothing where they do not.
#[verifier::external_body]
fn push_to_screen(s: &mut heapless::String<522>, c: char) -> (r: Result<(), ()>)
    ensures
        r is Ok <==> fits(screen_text(*old(s)), seq![c], 522),
        screen_text(*final(s)) == (if r is Ok {
            screen_text(*old(s)).push(c)
        } else {
            screen_text(*old(s))
        }),
{
    s.push(c)
}

/// Says at the end of a message that could not be written in full that it could not.
pub fn note_failure(s: &mut heapless::String<512>)
    ensures
        message_text(*final(s)) == (if fits(
            message_text(*old(s)),
            "panicked, and also failed to format the panic :("@,
            512,
        ) {
            message_text(*old(s)) + "panicked, and also failed to format the panic :("@
        } else {
            message_text(*old(s))
        }),
{
    let _ = push_to_message(s, "panicked, and also failed to format the panic :(");
}

/// What is on the screen, and how many characters the last line counts.
pub struct Screen {
    pub text: Seq<char>,
    pub line: nat,
}

/// `text` with `c` behind it, if it fits.
pub open spec fn extended(text: Seq<char>, c: char) -> Seq<char> {
    if fits(text, seq![c], 522) {
        text.push(c)
    } else {
        text
    }
}

/// What `c` makes of the screen. A full line is broken before the next character.
pub open spec fn shown(screen: Screen, c: char) -> Screen {
    if c == '\n' {
        Screen { text: extended(screen.text, '\n'), line: 0 }
    } else if screen.line == LINE_LEN {
        Screen { text: extended(extended(screen.text, '\n'), c), line: 1 }
    } else {
        Screen { text: extended(screen.text, c), line: screen.line + 1 }
    }
}

/// The screen that shows `message`.
pub open spec fn screen_of(message: Seq<char>) -> Screen
    decreases message.len(),
{
    if message.len() == 0 {
        Screen { text: Seq::empty(), line: 0 }
    } else {
        shown(screen_of(message.drop_last()), message.last())
    }
}

/// Breaks `message` into lines for the screen.
pub fn wrap(message: &str) -> (r: heapless::String<522>)
    ensures
        screen_text(r) == screen_of(message@).text,
{
    let mut out = empty_screen();
    let mut line_len: usize = 0;
    proof {
        assert(message@.take(0) =~= Seq::empty());
    }
    for c in it: message.chars()
        invariant
            it.seq() == message@,
            line_len <= 32,
            screen_of(message@.take(it.index() as int)) == (Screen {
                text: screen_text(out),
                line: line_len as nat,
            }),
    {
        proof {
            let i = it.index() as int;
            assert(message@.take(i + 1).drop_last() =~= message@.take(i));
            assert(message@.take(i + 1).last() == c);
        }
        if c == '\n' {
            let _ = push_to_screen(&mut out, '\n');
            line_len = 0;
        } else if line_len == LINE_LEN {
            let _ = push_to_screen(&mut out, '\n');
            let _ = push_to_screen(&mut out, c);
            line_len = 1;
        } else {
            let _ = push_to_screen(&mut out, c);
            line_len = line_len + 1;
        }
    }
    proof {
        assert(message@.take(message@.len() as int) =~= message@);
    }
    out
}

/// How many characters stand behind the last line break of `text`.
pub open spec fn last_line(text: Seq<char>) -> nat
    decreases text.len(),
{
    if text.len() == 0 || text.last() == '\n' {
        0
    } else {
        1 + last_line(text.drop_last())
    }
}

/// Whether no line of `text` holds more characters than a line of the screen.
pub open spec fn lines_fit(text: Seq<char>) -> bool {
    forall|k: int| 0 <= k <= text.len() ==> #[trigger] last_line(text.take(k)) <= LINE_LEN
}

proof fn lemma_extended(text: Seq<char>, c: char)
    requires
        lines_fit(text),
        c != '\n' ==> last_line(text) < LINE_LEN,
    ensures
        lines_fit(extended(text, c)),
        extended(text, c) == text.push(c) ==> last_line(extended(text, c)) == (if c == '\n' {
            0
        } else {
            last_line(text) + 1
        }),
{
    let more = text.push(c);
    assert(more.drop_last() =~= text);
    assert forall|k: int| 0 <= k <= more.len() implies #[trigger] last_line(more.take(k))
        <= LINE_LEN by {
        if k == more.len() {
            assert(more.take(k) =~= more);
        } else {
            assert(more.take(k) =~= text.take(k));
        }
    }
}

proof fn lemma_break_fits_first(text: Seq<char>, c: char)
    ensures
        fits(text, seq![c], 522) ==> fits(text, seq!['\n'], 522),
{
    assert(is_ascii_chars(seq!['\n']));
    is_ascii_chars_encode_utf8(seq!['\n']);
    assert(encode_utf8(seq![c]).len() >= 1);
}

proof fn lemma_lines_fit(message: Seq<char>)
    ensures
        screen_of(message).line <= LINE_LEN,
        lines_fit(screen_of(message).text),
        last_line(screen_of(message).text) <= screen_of(message).line || !fits(
            screen_of(message).text,
            seq!['\n'],
            522,
        ),
    decreases message.len(),
{
    if message.len() > 0 {
        let before = message.drop_last();
        let c = message.last();
        lemma_lines_fit(before);
        let screen = screen_of(before);
        lemma_break_fits_first(screen.text, c);
        if fits(screen.text, seq!['\n'], 522) {
            if c == '\n' {
                lemma_extended(screen.text, '\n');
            } else if screen.line == LINE_LEN {
                lemma_extended(screen.text, '\n');
                lemma_extended(screen.text.push('\n'), c);
            } else {
                lemma_extended(screen.text, c);
            }
        }
    } else {
        assert(screen_of(message).text.take(0) =~= Seq::empty());
    }
}

/// No line on the screen is too long, whatever the message.
pub proof fn law_lines_fit(message: Seq<char>)
    ensures
        lines_fit(screen_of(message).text),
{
    lemma_lines_fit(message);
}

/// `text` without its line breaks.
pub open spec fn letters(text: Seq<char>) -> Seq<char> {
    text.filter(|c: char| c != '\n')
}

/// What the screen would show of `message` if its size were no limit.
pub open spec fn whole(message: Seq<char>) -> Seq<char>
    decreases message.len(),
{
    if message.len() == 0 {
        Seq::empty()
    } else {
        let before = whole(message.drop_last());
        if message.last() == '\n' {
            before.push('\n')
        } else if screen_of(message.drop_last()).line == LINE_LEN {
            before.push('\n').push(message.last())
        } else {
            before.push(message.last())
        }
    }
}

proof fn lemma_encode_push(text: Seq<char>, c: char)
    ensures
        encode_utf8(text.push(c)) == encode_utf8(text) + encode_utf8(seq![c]),
    decreases text.len(),
{
    if text.len() == 0 {
        assert(text.push(c) =~= seq![c]);
        assert(encode_utf8(text) + encode_utf8(seq![c]) =~= encode_utf8(seq![c]));
    } else {
        lemma_encode_push(text.drop_first(), c);
        assert(text.push(c).drop_first() =~= text.drop_first().push(c));
        assert(encode_utf8(text.push(c)) =~= encode_utf8(text) + encode_utf8(seq![c]));
    }
}

/// A message that fits is shown whole: but for line breaks, nothing is missing or added.
pub proof fn law_short_message_is_whole(message: Seq<char>)
    requires
        encode_utf8(whole(message)).len() <= 522,
    ensures
        screen_of(message).text == whole(message),
        letters(screen_of(message).text) == letters(message),
    decreases message.len(),
{
    let keep = |c: char| c != '\n';
    reveal(Seq::filter);
    if message.len() > 0 {
        let before = message.drop_last();
        let c = message.last();
        let text = whole(before);
        let broken = text.push('\n');
        lemma_encode_push(text, '\n');
        lemma_encode_push(text, c);
        lemma_encode_push(broken, c);
        law_short_message_is_whole(before);
        assert(text.push(c).drop_last() =~= text);
        assert(broken.drop_last() =~= text);
        assert(broken.push(c).drop_last() =~= broken);
        assert(letters(text.push(c)) == if c != '\n' { letters(text).push(c) } else { letters(text) });
        assert(letters(broken) == letters(text));
        assert(letters(broken.push(c)) == if c != '\n' { letters(broken).push(c) } else { letters(broken) });
        assert(letters(message) == if c != '\n' { letters(before).push(c) } else { letters(before) });
    }
}

proof fn lemma_breaks_added(message: Seq<char>)
    ensures
        encode_utf8(whole(message)).len() >= encode_utf8(message).len(),
        LINE_LEN * (encode_utf8(whole(message)).len() - encode_utf8(message).len()) + screen_of(
            message,
        ).line <= message.len(),
    decreases message.len(),
{
    if message.len() > 0 {
        let before = message.drop_last();
        let c = message.last();
        lemma_breaks_added(before);
        assert(before.push(c) =~= message);
        lemma_encode_push(before, c);
        lemma_encode_push(whole(before), c);
        lemma_encode_push(whole(before), '\n');
        lemma_encode_push(whole(before).push('\n'), c);
        assert(is_ascii_chars(seq!['\n']));
        is_ascii_chars_encode_utf8(seq!['\n']);
    }
}

/// A message that leaves room for a line break after every 32 characters is shown whole.
pub proof fn law_message_with_room_is_whole(message: Seq<char>)
    requires
        encode_utf8(message).len() + message.len() / 32 <= 522,
    ensures
        screen_of(message).text == whole(message),
        letters(screen_of(message).text) == letters(message),
{
    lemma_breaks_added(message);
    law_short_message_is_whole(message);
}

proof fn lemma_line_without_breaks(message: Seq<char>)
    requires
        !message.contains('\n'),
    ensures
        screen_of(message).line == (if message.len() == 0 {
            0
        } else {
            (message.len() - 1) % 32 + 1
        }),
    decreases message.len(),
{
    if message.len() > 0 {
        let before = message.drop_last();
        assert(message.contains(message.last()));
        assert forall|i: int| 0 <= i < before.len() implies before[i] != '\n' by {
            assert(message.contains(message[i]));
        }
        lemma_line_without_breaks(before);
    }
}

/// A message without line breaks is broken after every 32 characters, and nowhere else.
pub proof fn law_lines_are_full(message: Seq<char>)
    requires
        !message.contains('\n'),
        message.len() > 0,
    ensures
        whole(message).len() == message.len() + (message.len() - 1) / 32,
        forall|k: int|
            0 <= k < whole(message).len() ==> #[trigger] whole(message)[k] == (if k % 33 == 32 {
                '\n'
            } else {
                message[k - k / 33]
            }),
    decreases message.len(),
{
    let before = message.drop_last();
    assert(message.contains(message.last()));
    assert forall|i: int| 0 <= i < before.len() implies before[i] != '\n' by {
        assert(message.contains(message[i]));
    }
    lemma_line_without_breaks(before);
    if before.len() > 0 {
        law_lines_are_full(before);
    }
    assert forall|k: int| 0 <= k < whole(message).len() implies #[trigger] whole(message)[k] == (
    if k % 33 == 32 {
        '\n'
    } else {
        message[k - k / 33]
    }) by {
        if k < whole(before).len() {
            assert(whole(message)[k] == whole(before)[k]);
        }
    }
}

proof fn lemma_break_starts_a_line(a: Seq<char>, b: Seq<char>)
    ensures
        screen_of(a.push('\n') + b).line == screen_of(b).line,
        whole(a.push('\n') + b) == whole(a).push('\n') + whole(b),
    decreases b.len(),
{
    let s = a.push('\n') + b;
    if b.len() == 0 {
        assert(s =~= a.push('\n'));
        assert(s.drop_last() =~= a);
        assert(whole(a).push('\n') + whole(b) =~= whole(a).push('\n'));
    } else {
        assert(s.drop_last() =~= a.push('\n') + b.drop_last());
        assert(s.last() == b.last());
        lemma_break_starts_a_line(a, b.drop_last());
        assert(whole(s) =~= whole(a).push('\n') + whole(b));
    }
}

/// A line break of the message stays, and what follows it is broken as if it stood alone.
pub proof fn law_own_breaks_stay(a: Seq<char>, b: Seq<char>)
    ensures
        whole(a.push('\n') + b) == whole(a).push('\n') + whole(b),
{
    lemma_break_starts_a_line(a, b);
}

/// The screen takes no more than it has room for, and what stands on it stays when more follows.
pub proof fn law_screen_only_grows(message: Seq<char>, c: char)
    ensures
        encode_utf8(screen_of(message).text).len() <= 522,
        screen_of(message).text.is_prefix_of(screen_of(message.push(c)).text),
    decreases message.len(),
{
    assert(message.push(c).drop_last() =~= message);
    if message.len() > 0 {
        let before = screen_of(message.drop_last());
        law_screen_only_grows(message.drop_last(), message.last());
        lemma_extended_fits(before.text, '\n');
        lemma_extended_fits(before.text, message.last());
        lemma_extended_fits(extended(before.text, '\n'), message.last());
    }
}

proof fn lemma_extended_fits(text: Seq<char>, c: char)
    requires
        encode_utf8(text).len() <= 522,
    ensures
        encode_utf8(extended(text, c)).len() <= 522,
{
    lemma_encode_push(text, c);
}

} // verus!
