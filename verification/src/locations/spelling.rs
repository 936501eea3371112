//! Text written as a JSON string, each character as it is or by an escape sequence, and what
//! reading makes of it.

use vstd::prelude::*;
use vstd::utf8::{char_is_scalar, encode_utf8, encode_utf8_decode_utf8, encode_utf8_valid_utf8, is_ascii_chars, is_ascii_chars_encode_utf8};
use crate::locations::json::{all_glyphs, behind_string, is_hex, is_plain, is_plain_byte, is_plain_string, is_spelling, hex_of, json_string, meant, plain_run, plain_text, quote_at, short_letter, spelled, spelling, string_at, string_text, Failure, Glyph};

verus! {

pub proof fn lemma_encode_concat(a: Seq<char>, b: Seq<char>)
    ensures
        encode_utf8(a + b) == encode_utf8(a) + encode_utf8(b),
    decreases a.len(),
{
    if a.len() == 0 {
        assert(a + b =~= b);
        assert(encode_utf8(a) + encode_utf8(b) =~= encode_utf8(b));
    } else {
        lemma_encode_concat(a.drop_first(), b);
        assert((a + b).drop_first() =~= a.drop_first() + b);
        assert((a + b)[0] == a[0]);
        assert(encode_utf8(a + b) =~= encode_utf8(a) + encode_utf8(b));
    }
}

proof fn lemma_same_text(a: Seq<char>, b: Seq<char>)
    requires
        encode_utf8(a) == encode_utf8(b),
    ensures
        a == b,
{
    encode_utf8_decode_utf8(a);
    encode_utf8_decode_utf8(b);
}

proof fn lemma_char_bound(c: char)
    ensures
        0 <= c as int <= 0x10_ffff,
{
}

proof fn lemma_ascii(t: Seq<char>)
    requires
        forall|i: int| 0 <= i < t.len() ==> #[trigger] (t[i]) as int <= 0x7f,
    ensures
        encode_utf8(t) == Seq::new(t.len(), |i: int| t[i] as u8),
{
    assert forall|i: int| 0 <= i < t.len() implies '\0' <= #[trigger] t[i] <= '\u{7f}' by {
        assert(t[i] as int <= 0x7f);
        lemma_char_bound(t[i]);
    }
    assert(is_ascii_chars(t));
    is_ascii_chars_encode_utf8(t);
    assert(encode_utf8(t) =~= Seq::new(t.len(), |i: int| t[i] as u8));
}

/// A character that is written as it is is neither a quote nor a backslash.
proof fn lemma_plain_char(c: char)
    requires
        is_plain(seq![c]),
    ensures
        c != '"' && c != '\\',
{
    if c == '"' || c == '\\' {
        lemma_ascii(seq![c]);
        assert(is_plain_byte(encode_utf8(seq![c])[0]));
    }
}

/// Whether an escape sequence is written as a backslash, something, and plain characters.
proof fn lemma_escape_bytes(g: Glyph)
    requires
        g.wf(),
        !(g is Plain),
    ensures
        encode_utf8(g.text()) == Seq::new(g.text().len(), |i: int| g.text()[i] as u8),
        g.text().len() >= 2,
        g.text()[0] == '\\',
        g is Short || (g is Hex && g.text().len() == 6) || (g is Pair && g.text().len() == 12),
        g is Hex || g is Pair ==> forall|i: int|
            1 <= i < 6 ==> is_plain_byte((#[trigger] g.text()[i]) as u8),
        g is Pair ==> g.text()[6] == '\\' && forall|i: int|
            7 <= i < 12 ==> is_plain_byte((#[trigger] g.text()[i]) as u8),
{
    let t = g.text();
    match g {
        Glyph::Short(c) => {},
        Glyph::Hex(_, h) => {
            assert forall|i: int| 2 <= i < 6 implies #[trigger] t[i] == h[i - 2] by {}
        },
        Glyph::Pair(_, h, l) => {
            assert forall|i: int| 2 <= i < 6 implies #[trigger] t[i] == h[i - 2] by {}
            assert forall|i: int| 8 <= i < 12 implies #[trigger] t[i] == l[i - 8] by {}
        },
        _ => {},
    }
    lemma_ascii(t);
}

proof fn lemma_quote_past(p: Seq<u8>, s: Seq<u8>)
    requires
        forall|i: int| 0 <= i < p.len() ==> is_plain_byte(#[trigger] p[i]),
        quote_at(s, false) is Some,
    ensures
        quote_at(p + s, false) == Some((quote_at(s, false)->0 + p.len()) as nat),
    decreases p.len(),
{
    if p.len() == 0 {
        assert(p + s =~= s);
    } else {
        let q = p.skip(1);
        assert forall|i: int| 0 <= i < q.len() implies is_plain_byte(#[trigger] q[i]) by {
            assert(q[i] == p[i + 1]);
        }
        lemma_quote_past(q, s);
        assert(is_plain_byte(p[0]));
        assert((p + s)[0] == p[0]);
        assert((p + s).skip(1) =~= q + s);
    }
}

/// A backslash, a byte, and plain bytes are passed over in search of the last quote.
proof fn lemma_quote_past_escape(e: Seq<u8>, s: Seq<u8>)
    requires
        e.len() >= 2,
        e[0] == '\\' as u8,
        forall|i: int| 2 <= i < e.len() ==> is_plain_byte(#[trigger] e[i]),
        quote_at(s, false) is Some,
    ensures
        quote_at(e + s, false) == Some((quote_at(s, false)->0 + e.len()) as nat),
{
    let p = e.skip(2);
    assert forall|i: int| 0 <= i < p.len() implies is_plain_byte(#[trigger] p[i]) by {
        assert(p[i] == e[i + 2]);
    }
    lemma_quote_past(p, s);
    let a = e + s;
    let b = a.skip(1);
    assert(a[0] == e[0] && b[0] == e[1]);
    assert(b.skip(1) =~= p + s);
    assert(quote_at(b, true) == Some((quote_at(p + s, false)->0 + 1) as nat));
}

proof fn lemma_quote_past_glyph(g: Glyph, s: Seq<u8>)
    requires
        g.wf(),
        quote_at(s, false) is Some,
    ensures
        quote_at(encode_utf8(g.text()) + s, false) == Some(
            (quote_at(s, false)->0 + encode_utf8(g.text()).len()) as nat,
        ),
{
    let e = encode_utf8(g.text());
    if let Glyph::Plain(c) = g {
        lemma_quote_past(e, s);
    } else {
        lemma_escape_bytes(g);
        if g is Pair {
            let a = e.take(6);
            let b = e.skip(6);
            assert(e =~= a + b);
            lemma_quote_past_escape(b, s);
            lemma_quote_past_escape(a, b + s);
            assert(e + s =~= a + (b + s));
        } else {
            assert forall|i: int| 2 <= i < e.len() implies is_plain_byte(#[trigger] e[i]) by {
                assert(e[i] == g.text()[i] as u8);
            }
            lemma_quote_past_escape(e, s);
        }
    }
}

/// The quote that ends a string is the first behind what is written in it.
proof fn lemma_quote_at_end(gs: Seq<Glyph>, rest: Seq<u8>)
    requires
        all_glyphs(gs),
    ensures
        quote_at(encode_utf8(spelled(gs)) + (seq!['"' as u8] + rest), false) == Some(
            encode_utf8(spelled(gs)).len() + 1,
        ),
    decreases gs.len(),
{
    let end = seq!['"' as u8] + rest;
    if gs.len() == 0 {
        assert(encode_utf8(spelled(gs)) + end =~= end);
    } else {
        let others = gs.skip(1);
        assert forall|i: int| 0 <= i < others.len() implies (#[trigger] others[i]).wf() by {
            assert(others[i] == gs[i + 1]);
        }
        lemma_quote_at_end(others, rest);
        assert(gs[0].wf());
        let more = encode_utf8(spelled(others)) + end;
        lemma_encode_concat(gs[0].text(), spelled(others));
        lemma_quote_past_glyph(gs[0], more);
        assert(encode_utf8(spelled(gs)) + end =~= encode_utf8(gs[0].text()) + more);
    }
}

/// What is written so is written for one text only.
proof fn lemma_one_meaning(a: Seq<Glyph>, b: Seq<Glyph>)
    requires
        all_glyphs(a),
        all_glyphs(b),
        spelled(a) == spelled(b),
    ensures
        meant(a) == meant(b),
    decreases a.len(),
{
    if a.len() == 0 {
        if b.len() > 0 {
            assert(b[0].wf());
            assert(spelled(b).len() > 0) by {
                assert(b[0].text().len() > 0);
            }
        }
        assert(meant(a) =~= meant(b));
    } else {
        assert(a[0].wf());
        assert(a[0].text().len() > 0);
        assert(spelled(b).len() > 0);
        assert(b.len() > 0);
        assert(b[0].wf());
        lemma_same_glyph(a[0], spelled(a.skip(1)), b[0], spelled(b.skip(1)));
        assert forall|i: int| 0 <= i < a.skip(1).len() implies (#[trigger] a.skip(1)[i]).wf() by {
            assert(a.skip(1)[i] == a[i + 1]);
        }
        assert forall|i: int| 0 <= i < b.skip(1).len() implies (#[trigger] b.skip(1)[i]).wf() by {
            assert(b.skip(1)[i] == b[i + 1]);
        }
        lemma_one_meaning(a.skip(1), b.skip(1));
        assert(meant(a) =~= seq![a[0].meant()] + meant(a.skip(1)));
        assert(meant(b) =~= seq![b[0].meant()] + meant(b.skip(1)));
    }
}

proof fn lemma_same_glyph(g: Glyph, r: Seq<char>, h: Glyph, s: Seq<char>)
    requires
        g.wf(),
        h.wf(),
        g.text() + r == h.text() + s,
    ensures
        g.meant() == h.meant(),
        r == s,
{
    let t = g.text() + r;
    assert forall|i: int| 0 <= i < g.text().len() implies #[trigger] t[i] == g.text()[i] by {}
    assert forall|i: int| 0 <= i < h.text().len() implies #[trigger] t[i] == h.text()[i] by {}
    if let Glyph::Plain(c) = g {
        lemma_plain_char(c);
        assert(t[0] == c);
    } else {
        lemma_escape_bytes(g);
        assert(t[0] == '\\');
        assert(t[1] == g.text()[1]);
    }
    if let Glyph::Plain(c) = h {
        lemma_plain_char(c);
        assert(t[0] == c);
    } else {
        lemma_escape_bytes(h);
        assert(t[0] == '\\');
        assert(t[1] == h.text()[1]);
    }
    lemma_hex_part(g, t);
    lemma_hex_part(h, t);
    char_is_scalar(g.meant());
    char_is_scalar(h.meant());
    assert(g.text().len() == h.text().len());
    assert(r =~= t.skip(g.text().len() as int));
    assert(s =~= t.skip(h.text().len() as int));
}

/// The number that the hexadecimal digits behind an escape sequence's `u` stand for.
spec fn hex_at(t: Seq<char>, i: int) -> int {
    ((hex_of(t[i]) * 16 + hex_of(t[i + 1])) * 16
        + hex_of(t[i + 2])) * 16 + hex_of(t[i + 3])
}

proof fn lemma_hex_part(g: Glyph, t: Seq<char>)
    requires
        g.wf(),
        g.text().len() <= t.len(),
        forall|i: int| 0 <= i < g.text().len() ==> #[trigger] t[i] == g.text()[i],
    ensures
        g is Short ==> t[1] == short_letter(g.meant())->0,
        g is Hex ==> t[1] == 'u' && hex_at(t, 2) == g.meant() as int,
        g is Pair ==> t[1] == 'u' && hex_at(t, 2) == 0xd800 + (g.meant() as int - 0x1_0000) / 0x400
            && hex_at(t, 8) == 0xdc00 + (g.meant() as int - 0x1_0000) % 0x400,
{
    match g {
        Glyph::Short(c) => {
            assert(t[1] == g.text()[1]);
        },
        Glyph::Hex(_, h) => {
            assert(t[1] == g.text()[1]);
            assert forall|i: int| 0 <= i < 4 implies #[trigger] t[i + 2] == h[i] by {
                assert(t[i + 2] == g.text()[i + 2]);
            }
            assert(t[2] == h[0] && t[3] == h[1] && t[4] == h[2] && t[5] == h[3]) by {
                assert(t[0int + 2] == h[0]);
                assert(t[1int + 2] == h[1]);
                assert(t[2int + 2] == h[2]);
                assert(t[3int + 2] == h[3]);
            }
        },
        Glyph::Pair(_, h, l) => {
            assert(t[1] == g.text()[1]);
            assert(t[2] == g.text()[2] && t[3] == g.text()[3] && t[4] == g.text()[4] && t[5]
                == g.text()[5]);
            assert(t[8] == g.text()[8] && t[9] == g.text()[9] && t[10] == g.text()[10] && t[11]
                == g.text()[11]);
            assert(t[2] == h[0] && t[3] == h[1] && t[4] == h[2] && t[5] == h[3]);
            assert(t[8] == l[0] && t[9] == l[1] && t[10] == l[2] && t[11] == l[3]);
        },
        _ => {},
    }
}

proof fn lemma_plain_run_past(p: Seq<u8>, s: Seq<u8>)
    requires
        forall|i: int| 0 <= i < p.len() ==> is_plain_byte(#[trigger] p[i]),
    ensures
        plain_run(p + s) == p.len() + plain_run(s),
    decreases p.len(),
{
    if p.len() == 0 {
        assert(p + s =~= s);
    } else {
        let q = p.skip(1);
        assert forall|i: int| 0 <= i < q.len() implies is_plain_byte(#[trigger] q[i]) by {
            assert(q[i] == p[i + 1]);
        }
        lemma_plain_run_past(q, s);
        assert(is_plain_byte(p[0]));
        assert((p + s)[0] == p[0]);
        assert((p + s).skip(1) =~= q + s);
    }
}

/// A string in which every byte stands for itself is written for these bytes.
proof fn lemma_plain_spelling(gs: Seq<Glyph>)
    requires
        all_glyphs(gs),
        is_plain_string(encode_utf8(spelled(gs)) + seq!['"' as u8]),
    ensures
        plain_text(encode_utf8(spelled(gs)) + seq!['"' as u8]) == encode_utf8(meant(gs)),
    decreases gs.len(),
{
    let s = encode_utf8(spelled(gs)) + seq!['"' as u8];
    if gs.len() == 0 {
        assert(s =~= seq!['"' as u8]);
        assert(plain_text(s) =~= Seq::empty());
        assert(meant(gs) =~= Seq::empty());
    } else {
        let others = gs.skip(1);
        let e = encode_utf8(gs[0].text());
        let more = encode_utf8(spelled(others)) + seq!['"' as u8];
        assert(gs[0].wf());
        assert forall|i: int| 0 <= i < others.len() implies (#[trigger] others[i]).wf() by {
            assert(others[i] == gs[i + 1]);
        }
        lemma_encode_concat(gs[0].text(), spelled(others));
        assert(s =~= e + more);
        if let Glyph::Plain(c) = gs[0] {
            lemma_plain_run_past(e, more);
            assert(s[plain_run(s) as int] == more[plain_run(more) as int]);
            lemma_plain_spelling(others);
            assert(plain_text(s) =~= e + plain_text(more));
            assert(meant(gs) =~= seq![c] + meant(others));
            lemma_encode_concat(seq![c], meant(others));
        } else {
            lemma_escape_bytes(gs[0]);
            assert(s[0] == e[0] && e[0] == '\\' as u8);
        }
    }
}

/// A text that is written as a string, each of its characters as it is, by a short escape
/// sequence or by hexadecimal digits, reads back, and is passed over, whatever follows.
pub proof fn law_written_string_reads_back(gs: Seq<Glyph>, rest: Seq<u8>)
    requires
        all_glyphs(gs),
    ensures
        string_at(encode_utf8(spelled(gs)) + (seq!['"' as u8] + rest)) == Ok::<
            (Seq<char>, Seq<u8>),
            Failure,
        >((meant(gs), rest)),
        behind_string(encode_utf8(spelled(gs)) + (seq!['"' as u8] + rest)) == Ok::<
            Seq<u8>,
            Failure,
        >(rest),
{
    let s = encode_utf8(spelled(gs)) + (seq!['"' as u8] + rest);
    let unit = encode_utf8(spelled(gs)) + seq!['"' as u8];
    let n = unit.len() as int;
    lemma_quote_at_end(gs, rest);
    assert(s.take(n) =~= unit);
    assert(s.skip(n) =~= rest);
    assert(is_spelling(gs, unit));
    reveal(spelling);
    let hs = choose|hs: Seq<Glyph>| is_spelling(hs, unit);
    assert(is_spelling(hs, unit));
    assert(encode_utf8(spelled(hs)) =~= unit.drop_last());
    assert(encode_utf8(spelled(gs)) =~= unit.drop_last());
    lemma_same_text(spelled(gs), spelled(hs));
    lemma_one_meaning(gs, hs);
    if is_plain_string(unit) {
        lemma_plain_spelling(gs);
        encode_utf8_decode_utf8(meant(gs));
        encode_utf8_valid_utf8(meant(gs));
    }
}

/// Whether every character of `text` is written as it is.
pub open spec fn is_as_it_is(gs: Seq<Glyph>, text: Seq<char>) -> bool {
    gs.len() == text.len() && forall|i: int|
        0 <= i < text.len() ==> #[trigger] gs[i] == Glyph::Plain(text[i])
}

/// Text that can stand between quotes as it is may be written so.
pub proof fn law_plain_text_is_written_as_it_is(gs: Seq<Glyph>, text: Seq<char>)
    requires
        is_plain(text),
        is_as_it_is(gs, text),
    ensures
        all_glyphs(gs),
        spelled(gs) == text,
        meant(gs) == text,
    decreases text.len(),
{
    assert(meant(gs) =~= text);
    if text.len() == 0 {
        assert(spelled(gs) =~= text);
    } else {
        let c = text[0];
        let others = text.skip(1);
        assert(text =~= seq![c] + others);
        lemma_encode_concat(seq![c], others);
        let a = encode_utf8(seq![c]);
        let b = encode_utf8(others);
        assert forall|i: int| 0 <= i < a.len() implies is_plain_byte(#[trigger] a[i]) by {
            assert(a[i] == encode_utf8(text)[i]);
        }
        assert forall|i: int| 0 <= i < b.len() implies is_plain_byte(#[trigger] b[i]) by {
            assert(b[i] == encode_utf8(text)[a.len() + i]);
        }
        let more = gs.skip(1);
        assert forall|i: int| 0 <= i < others.len() implies #[trigger] more[i] == Glyph::Plain(
            others[i],
        ) by {
            assert(more[i] == gs[i + 1]);
        }
        law_plain_text_is_written_as_it_is(more, others);
        assert(gs[0] == Glyph::Plain(c));
        assert(spelled(gs) =~= text);
        assert forall|i: int| 0 <= i < gs.len() implies (#[trigger] gs[i]).wf() by {
            if i > 0 {
                assert(more[i - 1].wf());
            }
        }
    }
}

/// The four hexadecimal digits of a number.
pub open spec fn hex_text(n: int) -> Seq<char> {
    seq![
        hex_digit(n / 4096 % 16),
        hex_digit(n / 256 % 16),
        hex_digit(n / 16 % 16),
        hex_digit(n % 16),
    ]
}

/// The hexadecimal digit of a number below sixteen.
pub open spec fn hex_digit(n: int) -> char {
    if n < 10 {
        ('0' as int + n) as char
    } else {
        ('a' as int + n - 10) as char
    }
}

/// A character by hexadecimal digits.
pub open spec fn hex_glyph(c: char) -> Glyph {
    if (c as int) < 0x1_0000 {
        Glyph::Hex(c, hex_text(c as int))
    } else {
        Glyph::Pair(
            c,
            hex_text(0xd800 + (c as int - 0x1_0000) / 0x400),
            hex_text(0xdc00 + (c as int - 0x1_0000) % 0x400),
        )
    }
}

proof fn lemma_hex_text(n: int)
    requires
        0 <= n < 0x1_0000,
    ensures
        is_hex(hex_text(n), n),
{
    let h = hex_text(n);
    let a = n / 4096 % 16;
    let b = n / 256 % 16;
    let c = n / 16 % 16;
    let d = n % 16;
    assert(h[0] == hex_digit(a) && h[1] == hex_digit(b) && h[2] == hex_digit(c) && h[3]
        == hex_digit(d));
    assert(((a * 16 + b) * 16 + c) * 16 + d == n);
}

/// Every character can be written by hexadecimal digits.
pub proof fn law_every_character_can_be_escaped(c: char)
    ensures
        hex_glyph(c).wf(),
        hex_glyph(c).meant() == c,
{
    char_is_scalar(c);
    if (c as int) < 0x1_0000 {
        lemma_hex_text(c as int);
    } else {
        lemma_hex_text(0xd800 + (c as int - 0x1_0000) / 0x400);
        lemma_hex_text(0xdc00 + (c as int - 0x1_0000) % 0x400);
    }
}

/// The text of a string that is not written so is what the lexer gives.
pub proof fn law_other_string_is_left_to_the_lexer(s: Seq<u8>, text: Seq<char>, message: Seq<char>)
    requires
        !is_plain_string(s),
        forall|gs: Seq<Glyph>| !is_spelling(gs, s),
    ensures
        json_string(s) == Ok::<Seq<char>, Seq<char>>(text) ==> string_text(s) == Ok::<
            Seq<char>,
            Failure,
        >(text),
        json_string(s) == Err::<Seq<char>, Seq<char>>(message) ==> string_text(s) == Err::<
            Seq<char>,
            Failure,
        >(Failure::Str(message)),
{
    reveal(spelling);
}

} // verus!
