//! Plain text as it travels over the serial link and the screen: comma separated fields,
//! decimal integers, the shape of decimal fractions, hexadecimal digits.

use vstd::prelude::*;
use vstd::utf8::{decode_utf8, encode_utf8_decode_utf8, valid_utf8};

verus! {

/// The text that the standard library makes of bytes that need not be UTF-8 text.
pub uninterp spec fn lossy_text(bytes: Seq<u8>) -> Seq<char>;

/// Reads `bytes` as text, with the replacement character for what is none.
///
/// Calls `String::from_utf8_lossy`. Trusted: what it gives depends on the bytes alone, and of
/// valid UTF-8 it gives the text that the bytes encode. How many replacement characters stand
/// for other bytes is left to the standard library.
#[verifier::external_body]
pub(crate) fn read_lossy(bytes: &[u8]) -> (r: String)
    ensures
        r@ == lossy_text(bytes@),
        valid_utf8(bytes@) ==> r@ == decode_utf8(bytes@),
{
    String::from_utf8_lossy(bytes).into_owned()
}

/// Reads `bytes` as UTF-8 text.
///
/// Calls `core::str::from_utf8`. Trusted: it gives text exactly where the bytes are valid
/// UTF-8, and then the text that they encode.
#[verifier::external_body]
pub(crate) fn read_utf8(bytes: &[u8]) -> (r: Option<&str>)
    ensures
        r is Some <==> valid_utf8(bytes@),
        r matches Some(s) ==> s@ == decode_utf8(bytes@),
{
    core::str::from_utf8(bytes).ok()
}

/// Whether `b` is one of the bytes `0` to `9`.
pub open spec fn is_digit(b: u8) -> bool {
    '0' as u8 <= b <= '9' as u8
}

/// Whether `s` is at least one digit, and nothing else.
pub open spec fn all_digits(s: Seq<u8>) -> bool {
    &&& s.len() > 0
    &&& forall|i: int| 0 <= i < s.len() ==> is_digit(#[trigger] s[i])
}

/// The number that the digits of `s` write down, most significant first.
pub open spec fn digits_value(s: Seq<u8>) -> nat
    decreases s.len(),
{
    if s.len() == 0 {
        0
    } else {
        (digits_value(s.drop_last()) * 10 + (s.last() - '0' as u8)) as nat
    }
}

/// `s` without the sign it may start with.
pub open spec fn without_plus(s: Seq<u8>) -> Seq<u8> {
    if s.len() > 0 && s[0] == '+' as u8 {
        s.skip(1)
    } else {
        s
    }
}

/// What `s` writes down as an unsigned integer no greater than `max`: an optional `+`, then
/// at least one digit.
pub open spec fn unsigned(s: Seq<u8>, max: nat) -> Option<nat> {
    let d = without_plus(s);
    if all_digits(d) && digits_value(d) <= max {
        Some(digits_value(d))
    } else {
        None
    }
}

/// What `s` writes down as a signed 32-bit integer: an optional `+` or `-`, then at least
/// one digit.
pub open spec fn signed(s: Seq<u8>) -> Option<int> {
    if s.len() > 0 && s[0] == '-' as u8 {
        let d = s.skip(1);
        if all_digits(d) && digits_value(d) <= 0x8000_0000 {
            Some(-digits_value(d))
        } else {
            None
        }
    } else {
        match unsigned(s, 0x7fff_ffff) {
            Some(n) => Some(n as int),
            None => None,
        }
    }
}

proof fn lemma_digits_value_grows(s: Seq<u8>, i: int)
    requires
        0 <= i <= s.len(),
        forall|k: int| 0 <= k < s.len() ==> is_digit(#[trigger] s[k]),
    ensures
        digits_value(s.take(i)) <= digits_value(s),
    decreases s.len() - i,
{
    if i < s.len() {
        lemma_digits_value_grows(s, i + 1);
        assert(s.take(i + 1).drop_last() =~= s.take(i));
        assert(is_digit(s[i]));
    } else {
        assert(s.take(i) =~= s);
    }
}

/// Reads `s` as nothing but digits, with a value of at most `max`.
fn parse_digits(s: &[u8], max: u32) -> (r: Option<u32>)
    ensures
        r matches Some(n) ==> all_digits(s@) && digits_value(s@) == n && n <= max,
        r is None ==> !(all_digits(s@) && digits_value(s@) <= max),
{
    if s.len() == 0 {
        return None;
    }
    let mut value: u64 = 0;
    let mut i: usize = 0;
    while i < s.len()
        invariant
            i <= s.len(),
            forall|k: int| 0 <= k < i ==> is_digit(#[trigger] s@[k]),
            value == digits_value(s@.take(i as int)),
            value <= max,
        decreases s.len() - i,
    {
        let b: u8 = s[i];
        if b < '0' as u8 || b > '9' as u8 {
            assert(!is_digit(s@[i as int]));
            return None;
        }
        proof {
            assert(s@.take(i + 1).drop_last() =~= s@.take(i as int));
        }
        value = value * 10 + (b - '0' as u8) as u64;
        if value > max as u64 {
            proof {
                if all_digits(s@) {
                    lemma_digits_value_grows(s@, i + 1);
                }
            }
            return None;
        }
        i = i + 1;
    }
    proof {
        assert(s@.take(i as int) =~= s@);
    }
    Some(value as u32)
}

/// Reads `s` as an unsigned integer no greater than `max`.
pub fn parse_unsigned(s: &[u8], max: u32) -> (r: Option<u32>)
    ensures
        r matches Some(n) ==> unsigned(s@, max as nat) == Some(n as nat),
        r is None ==> unsigned(s@, max as nat) is None,
{
    if s.len() > 0 && s[0] == '+' as u8 {
        parse_digits(vstd::slice::slice_subrange(s, 1, s.len()), max)
    } else {
        parse_digits(s, max)
    }
}

/// Reads `s` as a signed 32-bit integer.
pub fn parse_signed(s: &[u8]) -> (r: Option<i32>)
    ensures
        r matches Some(n) ==> signed(s@) == Some(n as int),
        r is None ==> signed(s@) is None,
{
    if s.len() > 0 && s[0] == '-' as u8 {
        match parse_digits(vstd::slice::slice_subrange(s, 1, s.len()), 0x8000_0000) {
            Some(n) => Some((0 - n as i64) as i32),
            None => None,
        }
    } else {
        match parse_unsigned(s, 0x7fff_ffff) {
            Some(n) => Some(n as i32),
            None => None,
        }
    }
}

/// How many digits `s` starts with.
pub open spec fn digit_run(s: Seq<u8>) -> nat
    decreases s.len(),
{
    if s.len() > 0 && is_digit(s[0]) {
        1 + digit_run(s.skip(1))
    } else {
        0
    }
}

/// `s` without the `+` or `-` it may start with.
pub open spec fn without_sign(s: Seq<u8>) -> Seq<u8> {
    if s.len() > 0 && (s[0] == '+' as u8 || s[0] == '-' as u8) {
        s.skip(1)
    } else {
        s
    }
}

/// Whether `s` is a decimal exponent: `e` or `E`, an optional sign, then at least one digit.
pub open spec fn is_exponent(s: Seq<u8>) -> bool {
    &&& s.len() > 0
    &&& s[0] == 'e' as u8 || s[0] == 'E' as u8
    &&& all_digits(without_sign(s.skip(1)))
}

/// Whether `s` is a decimal fraction without a sign: digits, an optional point among, before
/// or after them, at least one digit in all, then an optional exponent.
pub open spec fn is_decimal(s: Seq<u8>) -> bool {
    let whole = digit_run(s);
    let t = s.skip(whole as int);
    let point = t.len() > 0 && t[0] == '.' as u8;
    let part = if point { digit_run(t.skip(1)) } else { 0 };
    let rest = if point { t.skip(1 + part as int) } else { t };
    &&& whole + part > 0
    &&& rest.len() == 0 || is_exponent(rest)
}

/// `b` as a small letter, where it is a capital one.
pub open spec fn lower(b: u8) -> u8 {
    if 'A' as u8 <= b <= 'Z' as u8 {
        (b + 32) as u8
    } else {
        b
    }
}

/// Whether `s` is `word`, whatever the case of its letters.
pub open spec fn same_word(s: Seq<u8>, word: Seq<u8>) -> bool {
    &&& s.len() == word.len()
    &&& forall|i: int| 0 <= i < s.len() ==> lower(#[trigger] s[i]) == word[i]
}

/// `inf`
pub open spec fn inf() -> Seq<u8> {
    seq!['i' as u8, 'n' as u8, 'f' as u8]
}

/// `infinity`
pub open spec fn infinity() -> Seq<u8> {
    seq![
        'i' as u8,
        'n' as u8,
        'f' as u8,
        'i' as u8,
        'n' as u8,
        'i' as u8,
        't' as u8,
        'y' as u8,
    ]
}

/// `nan`
pub open spec fn nan() -> Seq<u8> {
    seq!['n' as u8, 'a' as u8, 'n' as u8]
}

/// Whether `s` is text that the standard library reads as a floating point number: an
/// optional sign, then `inf`, `infinity`, `nan` in any case, or a decimal fraction.
pub open spec fn is_float(s: Seq<u8>) -> bool {
    let t = without_sign(s);
    same_word(t, inf()) || same_word(t, infinity()) || same_word(t, nan()) || is_decimal(t)
}

/// A run of digits holds nothing else, and ends where none follows.
pub(crate) proof fn lemma_digit_run_bound(s: Seq<u8>)
    ensures
        digit_run(s) <= s.len(),
        forall|i: int| 0 <= i < digit_run(s) ==> is_digit(#[trigger] s[i]),
        digit_run(s) < s.len() ==> !is_digit(s[digit_run(s) as int]),
    decreases s.len(),
{
    if s.len() > 0 && is_digit(s[0]) {
        lemma_digit_run_bound(s.skip(1));
        assert forall|i: int| 0 <= i < digit_run(s) implies is_digit(#[trigger] s[i]) by {
            if i > 0 {
                assert(s[i] == s.skip(1)[i - 1]);
            }
        }
    }
}

/// Counts the digits from `from` on.
fn count_digits(s: &[u8], from: usize) -> (end: usize)
    requires
        from <= s.len(),
    ensures
        from <= end <= s.len(),
        end - from == digit_run(s@.skip(from as int)),
{
    let mut i: usize = from;
    while i < s.len() && s[i] >= '0' as u8 && s[i] <= '9' as u8
        invariant
            from <= i <= s.len(),
            i - from + digit_run(s@.skip(i as int)) == digit_run(s@.skip(from as int)),
        decreases s.len() - i,
    {
        proof {
            assert(s@.skip(i as int)[0] == s@[i as int]);
            assert(s@.skip(i as int).skip(1) =~= s@.skip(i + 1));
        }
        i = i + 1;
    }
    proof {
        if i < s.len() {
            assert(s@.skip(i as int)[0] == s@[i as int]);
        }
    }
    i
}

fn sign_len(s: &[u8], from: usize) -> (end: usize)
    requires
        from <= s.len(),
    ensures
        from <= end <= s.len(),
        s@.skip(end as int) == without_sign(s@.skip(from as int)),
{
    if from < s.len() && (s[from] == '+' as u8 || s[from] == '-' as u8) {
        proof {
            assert(s@.skip(from as int)[0] == s@[from as int]);
            assert(s@.skip(from as int).skip(1) =~= s@.skip(from + 1));
        }
        from + 1
    } else {
        proof {
            if from < s.len() {
                assert(s@.skip(from as int)[0] == s@[from as int]);
            }
        }
        from
    }
}

fn ends_in_digits(s: &[u8], from: usize) -> (r: bool)
    requires
        from <= s.len(),
    ensures
        r == all_digits(s@.skip(from as int)),
{
    let end = count_digits(s, from);
    proof {
        let t = s@.skip(from as int);
        lemma_digit_run_bound(t);
        if from < end && end == s.len() {
            assert(all_digits(t));
        }
    }
    from < end && end == s.len()
}

fn exponent_at(s: &[u8], from: usize) -> (r: bool)
    requires
        from <= s.len(),
    ensures
        r == is_exponent(s@.skip(from as int)),
{
    if from == s.len() {
        return false;
    }
    proof {
        assert(s@.skip(from as int)[0] == s@[from as int]);
        assert(s@.skip(from as int).skip(1) =~= s@.skip(from + 1));
    }
    if s[from] != 'e' as u8 && s[from] != 'E' as u8 {
        return false;
    }
    let digits = sign_len(s, from + 1);
    ends_in_digits(s, digits)
}

fn decimal_at(s: &[u8], from: usize) -> (r: bool)
    requires
        from <= s.len(),
    ensures
        r == is_decimal(s@.skip(from as int)),
{
    let ghost t = s@.skip(from as int);
    let whole = count_digits(s, from);
    proof {
        assert(t.skip(whole - from) =~= s@.skip(whole as int));
    }
    if whole < s.len() && s[whole] == '.' as u8 {
        let part = count_digits(s, whole + 1);
        proof {
            assert(s@.skip(whole as int)[0] == s@[whole as int]);
            assert(s@.skip(whole as int).skip(1) =~= s@.skip(whole + 1));
            assert(s@.skip(whole as int).skip(1 + (part - (whole + 1))) =~= s@.skip(part as int));
        }
        let digits: bool = whole > from || part > whole + 1;
        digits && (part == s.len() || exponent_at(s, part))
    } else {
        proof {
            if whole < s.len() {
                assert(s@.skip(whole as int)[0] == s@[whole as int]);
            }
        }
        whole > from && (whole == s.len() || exponent_at(s, whole))
    }
}

fn word_at(s: &[u8], from: usize, word: &[u8]) -> (r: bool)
    requires
        from <= s.len(),
    ensures
        r == same_word(s@.skip(from as int), word@),
{
    if s.len() - from != word.len() {
        return false;
    }
    let mut i: usize = 0;
    while i < word.len()
        invariant
            from + word.len() == s.len(),
            i <= word.len(),
            forall|k: int| 0 <= k < i ==> lower(#[trigger] s@.skip(from as int)[k]) == word@[k],
        decreases word.len() - i,
    {
        let b: u8 = s[from + i];
        let c: u8 = if b >= 'A' as u8 && b <= 'Z' as u8 {
            b + 32
        } else {
            b
        };
        proof {
            assert(s@.skip(from as int)[i as int] == s@[from + i]);
        }
        if c != word[i] {
            return false;
        }
        i = i + 1;
    }
    true
}

/// Whether `s` is text that reads as a floating point number.
pub fn reads_as_float(s: &[u8]) -> (r: bool)
    ensures
        r == is_float(s@),
{
    let from = sign_len(s, 0);
    proof {
        assert(s@.skip(0) =~= s@);
    }
    let inf_word: [u8; 3] = ['i' as u8, 'n' as u8, 'f' as u8];
    let infinity_word: [u8; 8] = [
        'i' as u8,
        'n' as u8,
        'f' as u8,
        'i' as u8,
        'n' as u8,
        'i' as u8,
        't' as u8,
        'y' as u8,
    ];
    let nan_word: [u8; 3] = ['n' as u8, 'a' as u8, 'n' as u8];
    proof {
        assert(inf_word@ =~= inf());
        assert(infinity_word@ =~= infinity());
        assert(nan_word@ =~= nan());
    }
    word_at(s, from, inf_word.as_slice()) || word_at(s, from, infinity_word.as_slice()) || word_at(
        s,
        from,
        nan_word.as_slice(),
    ) || decimal_at(s, from)
}

/// The fields of `s`, parted at every `sep`. There is always at least one.
pub open spec fn fields(s: Seq<u8>, sep: u8) -> Seq<Seq<u8>>
    decreases s.len(),
{
    if s.len() == 0 {
        seq![s]
    } else {
        let before = fields(s.drop_last(), sep);
        if s.last() == sep {
            before.push(Seq::empty())
        } else {
            before.drop_last().push(before.last().push(s.last()))
        }
    }
}

/// The contents of each vector in `v`.
pub open spec fn contents(v: Seq<Vec<u8>>) -> Seq<Seq<u8>> {
    v.map_values(|f: Vec<u8>| f@)
}

/// Parts `s` at every `sep`.
pub fn split(s: &[u8], sep: u8) -> (r: Vec<Vec<u8>>)
    ensures
        contents(r@) == fields(s@, sep),
        r@.len() >= 1,
{
    let mut done: Vec<Vec<u8>> = Vec::new();
    let mut last: Vec<u8> = Vec::new();
    let mut i: usize = 0;
    proof {
        assert(s@.take(0) =~= Seq::<u8>::empty());
        assert(contents(done@).push(last@) =~= seq![Seq::<u8>::empty()]);
    }
    while i < s.len()
        invariant
            i <= s.len(),
            contents(done@).push(last@) == fields(s@.take(i as int), sep),
        decreases s.len() - i,
    {
        let b: u8 = s[i];
        let ghost before = contents(done@).push(last@);
        let ghost done_before = contents(done@);
        proof {
            assert(s@.take(i + 1).drop_last() =~= s@.take(i as int));
            assert(before.drop_last() =~= done_before);
        }
        if b == sep {
            done.push(last);
            last = Vec::new();
            proof {
                assert(contents(done@) =~= before);
            }
        } else {
            last.push(b);
        }
        i = i + 1;
    }
    proof {
        assert(s@.take(i as int) =~= s@);
    }
    let ghost done_before = done@;
    done.push(last);
    proof {
        assert(contents(done@) =~= contents(done_before).push(last@));
    }
    done
}

/// The fields of `fs` written one after the other, with `sep` between them.
pub open spec fn joined(fs: Seq<Seq<u8>>, sep: u8) -> Seq<u8>
    decreases fs.len(),
{
    if fs.len() == 0 {
        Seq::empty()
    } else if fs.len() == 1 {
        fs[0]
    } else {
        joined(fs.drop_last(), sep).push(sep) + fs.last()
    }
}

/// Parting a text at a separator loses nothing: the fields hold no separator, and written one
/// after the other with the separator between them they are the text.
pub proof fn law_fields_join_back(s: Seq<u8>, sep: u8)
    ensures
        fields(s, sep).len() >= 1,
        joined(fields(s, sep), sep) == s,
        forall|i: int|
            0 <= i < fields(s, sep).len() ==> !(#[trigger] fields(s, sep)[i]).contains(sep),
    decreases s.len(),
{
    if s.len() > 0 {
        let before = fields(s.drop_last(), sep);
        law_fields_join_back(s.drop_last(), sep);
        assert(s =~= s.drop_last().push(s.last()));
        if s.last() == sep {
            let now = before.push(Seq::empty());
            assert(now.drop_last() =~= before);
            assert(joined(now, sep) =~= s);
        } else {
            let now = before.drop_last().push(before.last().push(s.last()));
            assert(now.drop_last() =~= before.drop_last());
            assert(joined(now, sep) =~= s);
            assert forall|i: int| 0 <= i < now.len() implies !(#[trigger] now[i]).contains(sep) by {
                if i < before.len() - 1 {
                    assert(now[i] == before[i]);
                } else {
                    assert(!before.last().contains(sep));
                    assert forall|k: int| 0 <= k < now[i].len() implies now[i][k] != sep by {
                        if k < before.last().len() {
                            assert(before.last().contains(before.last()[k]));
                        }
                    }
                }
            }
        }
    }
}

/// Whether `a` and `b` hold the same bytes.
pub fn same_bytes(a: &[u8], b: &[u8]) -> (r: bool)
    ensures
        r == (a@ == b@),
{
    if a.len() != b.len() {
        return false;
    }
    let mut i: usize = 0;
    while i < a.len()
        invariant
            i <= a.len(),
            a.len() == b.len(),
            forall|k: int| 0 <= k < i ==> a@[k] == b@[k],
        decreases a.len() - i,
    {
        if a[i] != b[i] {
            return false;
        }
        i = i + 1;
    }
    proof {
        assert(a@ =~= b@);
    }
    true
}

/// Whether `a` and `b` are the same text.
pub fn same_text(a: &str, b: &str) -> (r: bool)
    ensures
        r == (a@ == b@),
{
    proof {
        encode_utf8_decode_utf8(a@);
        encode_utf8_decode_utf8(b@);
    }
    same_bytes(a.as_bytes(), b.as_bytes())
}

/// A copy of the bytes of `s`.
pub fn copied(s: &[u8]) -> (r: Vec<u8>)
    ensures
        r@ == s@,
{
    let mut v: Vec<u8> = Vec::new();
    v.extend_from_slice(s);
    proof {
        assert(v@ =~= s@);
    }
    v
}

/// A copy of the bytes of `s` from `from` up to, but without, `to`.
pub fn piece(s: &[u8], from: usize, to: usize) -> (r: Vec<u8>)
    requires
        from <= to <= s.len(),
    ensures
        r@ == s@.subrange(from as int, to as int),
{
    copied(vstd::slice::slice_subrange(s, from, to))
}

/// The digit that stands for `n`.
pub open spec fn digit_char(n: int) -> char {
    ('0' as u8 + n) as u8 as char
}

/// Puts `ch` at the end of `s`.
///
/// `String::push`. Trusted: it appends the given character, and changes nothing else.
pub assume_specification[ std::string::String::push ](s: &mut std::string::String, ch: char)
    ensures
        final(s)@ == old(s)@.push(ch),
;

/// `n` in decimal digits, most significant first, without leading zeros.
pub open spec fn decimal(n: nat) -> Seq<char>
    decreases n,
{
    if n < 10 {
        seq![digit_char(n as int)]
    } else {
        decimal(n / 10).push(digit_char((n % 10) as int))
    }
}

/// `n` in decimal digits, after a `-` where it is negative.
pub open spec fn signed_decimal(n: int) -> Seq<char> {
    if n < 0 {
        seq!['-'] + decimal((-n) as nat)
    } else {
        decimal(n as nat)
    }
}

fn digit_text(n: u32) -> (r: &'static str)
    requires
        n < 10,
    ensures
        r@ == seq![digit_char(n as int)],
{
    proof {
        reveal_strlit("0");
        reveal_strlit("1");
        reveal_strlit("2");
        reveal_strlit("3");
        reveal_strlit("4");
        reveal_strlit("5");
        reveal_strlit("6");
        reveal_strlit("7");
        reveal_strlit("8");
        reveal_strlit("9");
    }
    let r = match n {
        0 => "0",
        1 => "1",
        2 => "2",
        3 => "3",
        4 => "4",
        5 => "5",
        6 => "6",
        7 => "7",
        8 => "8",
        _ => "9",
    };
    proof {
        assert(r@ =~= seq![digit_char(n as int)]);
    }
    r
}

/// Writes `n` in decimal digits at the end of `out`.
pub fn push_decimal(out: &mut String, n: u32)
    ensures
        final(out)@ == old(out)@ + decimal(n as nat),
    decreases n,
{
    if n >= 10 {
        push_decimal(out, n / 10);
    }
    out.append(digit_text(n % 10));
    proof {
        assert(out@ =~= old(out)@ + decimal(n as nat));
    }
}

/// Writes `n` in decimal digits at the end of `out`, after a `-` where it is negative.
pub fn push_signed(out: &mut String, n: i32)
    ensures
        final(out)@ == old(out)@ + signed_decimal(n as int),
{
    if n < 0 {
        proof {
            reveal_strlit("-");
        }
        out.append("-");
        push_decimal(out, (0 - n as i64) as u32);
        proof {
            assert(out@ =~= old(out)@ + signed_decimal(n as int));
        }
    } else {
        push_decimal(out, n as u32);
    }
}

/// The value of the hexadecimal digit `b`, in either case.
pub open spec fn hex_value(b: u8) -> Option<u8> {
    if is_digit(b) {
        Some((b - '0' as u8) as u8)
    } else if 'A' as u8 <= b <= 'F' as u8 {
        Some((b - 'A' as u8 + 10) as u8)
    } else if 'a' as u8 <= b <= 'f' as u8 {
        Some((b - 'a' as u8 + 10) as u8)
    } else {
        None
    }
}

/// The upper case hexadecimal digit that stands for `n`.
pub open spec fn hex_digit(n: int) -> u8 {
    if n < 10 {
        ('0' as u8 + n) as u8
    } else {
        ('A' as u8 + (n - 10)) as u8
    }
}

/// Reads a hexadecimal digit.
pub fn parse_hex(b: u8) -> (r: Option<u8>)
    ensures
        r == hex_value(b),
{
    if b >= '0' as u8 && b <= '9' as u8 {
        Some(b - '0' as u8)
    } else if b >= 'A' as u8 && b <= 'F' as u8 {
        Some(b - 'A' as u8 + 10)
    } else if b >= 'a' as u8 && b <= 'f' as u8 {
        Some(b - 'a' as u8 + 10)
    } else {
        None
    }
}

/// Writes a hexadecimal digit.
pub fn write_hex(n: u8) -> (r: u8)
    requires
        n < 16,
    ensures
        r == hex_digit(n as int),
{
    if n < 10 {
        '0' as u8 + n
    } else {
        'A' as u8 + (n - 10)
    }
}

/// Whether `t` is at least one digit, and nothing else.
pub open spec fn is_digits(t: Seq<char>) -> bool {
    t.len() > 0 && forall|i: int| 0 <= i < t.len() ==> '0' <= #[trigger] t[i] <= '9'
}

/// The number that digits write down, most significant first.
pub open spec fn number_of(t: Seq<char>) -> int
    decreases t.len(),
{
    if t.len() == 0 {
        0
    } else {
        10 * number_of(t.drop_last()) + (t.last() as int - '0' as int)
    }
}

/// A number in decimal digits is that number, and starts with a zero only if it is zero.
pub proof fn law_decimal_is_the_number(n: nat)
    ensures
        is_digits(decimal(n)),
        number_of(decimal(n)) == n,
        n > 0 ==> decimal(n)[0] != '0',
        n < 10 ==> decimal(n).len() == 1,
    decreases n,
{
    let d = decimal(n);
    if n < 10 {
        assert(d.drop_last() =~= Seq::<char>::empty());
        reveal_with_fuel(number_of, 2);
    } else {
        law_decimal_is_the_number(n / 10);
        assert(d.drop_last() =~= decimal(n / 10));
        assert(d[0] == decimal(n / 10)[0]);
        assert forall|i: int| 0 <= i < d.len() implies '0' <= #[trigger] d[i] <= '9' by {
            if i < d.len() - 1 {
                assert(d[i] == decimal(n / 10)[i]);
            }
        }
    }
}

/// A signed number in decimal digits has a minus sign exactly if it is negative, and its digits
/// are those of its magnitude.
pub proof fn law_signed_decimal_is_the_number(n: int)
    ensures
        n >= 0 ==> is_digits(signed_decimal(n)) && number_of(signed_decimal(n)) == n,
        n < 0 ==> signed_decimal(n)[0] == '-' && is_digits(signed_decimal(n).skip(1)) && number_of(
            signed_decimal(n).skip(1),
        ) == -n,
{
    if n < 0 {
        law_decimal_is_the_number((-n) as nat);
        assert(signed_decimal(n).skip(1) =~= decimal((-n) as nat));
    } else {
        law_decimal_is_the_number(n as nat);
    }
}

/// `t`, whose characters are ASCII, in bytes.
pub open spec fn bytes_of(t: Seq<char>) -> Seq<u8> {
    Seq::new(t.len(), |i: int| t[i] as u8)
}

proof fn lemma_digits_value_of(t: Seq<char>)
    requires
        is_digits(t) || t.len() == 0,
    ensures
        digits_value(bytes_of(t)) == number_of(t),
        number_of(t) >= 0,
    decreases t.len(),
{
    if t.len() > 0 {
        let init = t.drop_last();
        assert forall|i: int| 0 <= i < init.len() implies '0' <= #[trigger] init[i] <= '9' by {
            assert(init[i] == t[i]);
        }
        lemma_digits_value_of(init);
        assert(bytes_of(t).drop_last() =~= bytes_of(init));
        assert('0' <= t[t.len() - 1] <= '9');
    }
}

/// A number that is written in decimal digits reads back, and reading refuses it exactly if it
/// is greater than allowed.
pub proof fn law_decimal_reads_back(n: nat, max: nat)
    ensures
        unsigned(bytes_of(decimal(n)), max) == (if n <= max {
            Some(n)
        } else {
            None
        }),
        n <= 0x7fff_ffff ==> signed(bytes_of(decimal(n))) == Some(n as int),
{
    let d = bytes_of(decimal(n));
    law_decimal_is_the_number(n);
    lemma_digits_value_of(decimal(n));
    assert forall|i: int| 0 <= i < d.len() implies is_digit(#[trigger] d[i]) by {
        assert('0' <= decimal(n)[i] <= '9');
    }
    assert(is_digit(d[0]));
    assert(without_plus(d) == d);
}

/// Fields without separators that are written one after the other with a separator between them
/// are parted again.
pub proof fn law_joined_fields_are_parted(fs: Seq<Seq<u8>>, sep: u8)
    requires
        fs.len() > 0,
        forall|i: int| 0 <= i < fs.len() ==> !(#[trigger] fs[i]).contains(sep),
    ensures
        fields(joined(fs, sep), sep) == fs,
    decreases fs.len(), fs.last().len(),
{
    let s = joined(fs, sep);
    let last = fs.last();
    if last.len() == 0 {
        if fs.len() == 1 {
            assert(s =~= Seq::empty());
            assert(fs =~= seq![s]);
        } else {
            let init = fs.drop_last();
            assert forall|i: int| 0 <= i < init.len() implies !(#[trigger] init[i]).contains(sep) by {
                assert(init[i] == fs[i]);
            }
            law_joined_fields_are_parted(init, sep);
            assert(s =~= joined(init, sep).push(sep));
            assert(s.drop_last() =~= joined(init, sep));
            assert(last =~= Seq::empty());
            assert(fs =~= init.push(Seq::empty()));
        }
    } else {
        let cut = fs.drop_last().push(last.drop_last());
        assert forall|i: int| 0 <= i < cut.len() implies !(#[trigger] cut[i]).contains(sep) by {
            if i < fs.len() - 1 {
                assert(cut[i] == fs[i]);
            } else {
                assert(!fs[i].contains(sep));
                if cut[i].contains(sep) {
                    let k = choose|k: int| 0 <= k < cut[i].len() && cut[i][k] == sep;
                    assert(fs[i][k] == sep);
                }
            }
        }
        assert(cut.drop_last() =~= fs.drop_last());
        law_joined_fields_are_parted(cut, sep);
        assert(s.drop_last() =~= joined(cut, sep));
        assert(last.contains(last.last()));
        assert(!fs[fs.len() - 1].contains(sep));
        assert(s.last() == last.last());
        assert(cut.last().push(s.last()) =~= last);
        assert(cut.drop_last().push(last) =~= fs);
    }
}

/// Hexadecimal digits read back, small letters as capital ones, and nothing else is one.
pub proof fn law_hex_digits(b: u8)
    ensures
        hex_value(b) matches Some(n) ==> n < 16 && (hex_digit(n as int) == b || hex_digit(n as int)
            + 32 == b),
        hex_value(b) is Some <==> (48 <= b <= 57 || 65 <= b <= 70 || 97 <= b <= 102),
        48 <= b <= 57 ==> hex_value(b) == Some((b - 48) as u8),
        65 <= b <= 70 ==> hex_value(b) == Some((b - 55) as u8),
        97 <= b <= 102 ==> hex_value(b) == Some((b - 87) as u8),
{
}

/// Whether `text` ends with `end`.
pub open spec fn ends_with(text: Seq<char>, end: Seq<char>) -> bool {
    text.len() >= end.len() && text.skip(text.len() - end.len()) == end
}

/// What is put behind a text is its end.
pub proof fn law_end_is_kept(text: Seq<char>, end: Seq<char>)
    ensures
        ends_with(text + end, end),
{
    assert((text + end).skip(text.len() as int) =~= end);
}

/// Digits read as the number that they stand for, with or without a sign before them, and are
/// refused exactly if it is out of range.
pub proof fn law_digits_read_as_their_number(t: Seq<char>, max: nat)
    requires
        is_digits(t),
    ensures
        number_of(t) >= 0,
        unsigned(bytes_of(t), max) == (if number_of(t) <= max {
            Some(number_of(t) as nat)
        } else {
            None
        }),
        unsigned(seq![43u8] + bytes_of(t), max) == unsigned(bytes_of(t), max),
        signed(bytes_of(t)) == (if number_of(t) <= 0x7fff_ffff {
            Some(number_of(t))
        } else {
            None
        }),
        signed(seq![43u8] + bytes_of(t)) == signed(bytes_of(t)),
        signed(seq![45u8] + bytes_of(t)) == (if number_of(t) <= 0x8000_0000 {
            Some(-number_of(t))
        } else {
            None
        }),
        unsigned(seq![45u8] + bytes_of(t), max) is None,
{
    let d = bytes_of(t);
    lemma_digits_value_of(t);
    assert forall|i: int| 0 <= i < d.len() implies is_digit(#[trigger] d[i]) by {
        assert('0' <= t[i] <= '9');
    }
    assert(is_digit(d[0]));
    assert((seq![43u8] + d).skip(1) =~= d);
    assert((seq![45u8] + d).skip(1) =~= d);
    let minus = seq![45u8] + d;
    assert(minus[0] == 45 && !is_digit(minus[0]));
}

/// What is not digits behind at most one sign is no whole number.
pub proof fn law_other_text_is_no_number(s: Seq<u8>, i: int, max: nat)
    requires
        s.len() == 0 || (0 <= i < s.len() && !(48 <= s[i] <= 57) && (i > 0 || !(s[0] == 43 || s[0]
            == 45))) || (s.len() == 1 && (s[0] == 43 || s[0] == 45)),
    ensures
        unsigned(s, max) is None,
        signed(s) is None,
{
    let p = without_plus(s);
    if s.len() > 1 && (s[0] == 43 || s[0] == 45) {
        assert(s.skip(1)[i - 1] == s[i]);
        assert(!is_digit(s.skip(1)[i - 1]));
    } else if s.len() > 0 && !(s[0] == 43 || s[0] == 45) {
        assert(!is_digit(s[i]));
    }
    if s.len() > 0 && s[0] == 45 {
        assert(!is_digit(s[0]));
    }
}

/// Whether `s` is nothing but digits, and may be nothing at all.
pub open spec fn only_digits(s: Seq<u8>) -> bool {
    forall|i: int| 0 <= i < s.len() ==> 48 <= #[trigger] s[i] <= 57
}

/// Whether `s` is nothing, or `e` or `E`, an optional sign, and digits.
pub open spec fn is_power(s: Seq<u8>) -> bool {
    s.len() == 0 || {
        let n: int = if s.len() > 1 && (s[1] == 43 || s[1] == 45) {
            2
        } else {
            1
        };
        (s[0] == 101 || s[0] == 69) && s.len() > n && only_digits(s.skip(n))
    }
}

/// Whether `s` is nothing, `+` or `-`.
pub open spec fn is_sign(s: Seq<u8>) -> bool {
    s.len() == 0 || s == seq![43u8] || s == seq![45u8]
}

/// Whether `s` is a number that is made up of these parts: a sign, digits, a point with digits
/// behind it, an exponent; there is a digit before or behind the point.
pub open spec fn is_made_of(
    s: Seq<u8>,
    sign: Seq<u8>,
    whole: Seq<u8>,
    part: Option<Seq<u8>>,
    power: Seq<u8>,
) -> bool {
    let end = match part {
        Some(p) => seq![46u8] + p,
        None => Seq::empty(),
    };
    &&& is_sign(sign) && only_digits(whole) && is_power(power)
    &&& part matches Some(p) ==> only_digits(p)
    &&& whole.len() > 0 || (part matches Some(p) && p.len() > 0)
    &&& s == sign + (whole + (end + power))
}

/// Whether `s` is this word, which is in small letters, in small or capital letters.
pub open spec fn is_word(s: Seq<u8>, word: Seq<u8>) -> bool {
    s.len() == word.len() && forall|i: int|
        0 <= i < s.len() ==> (#[trigger] s[i] == word[i] || s[i] + 32 == word[i])
}

/// Whether `s` is `inf`, `infinity` or `nan` behind this sign.
pub open spec fn is_named(s: Seq<u8>, sign: Seq<u8>) -> bool {
    &&& is_sign(sign) && s.len() >= sign.len() && s.take(sign.len() as int) == sign
    &&& {
        let t = s.skip(sign.len() as int);
        ||| is_word(t, seq![105u8, 110u8, 102u8])
        ||| is_word(t, seq![105u8, 110u8, 102u8, 105u8, 110u8, 105u8, 116u8, 121u8])
        ||| is_word(t, seq![110u8, 97u8, 110u8])
    }
}

proof fn lemma_digit_run_past(d: Seq<u8>, rest: Seq<u8>)
    requires
        only_digits(d),
        rest.len() == 0 || !is_digit(rest[0]),
    ensures
        digit_run(d + rest) == d.len(),
        (d + rest).skip(d.len() as int) == rest,
        (d + rest).take(d.len() as int) == d,
    decreases d.len(),
{
    let s = d + rest;
    assert(s.skip(d.len() as int) =~= rest);
    assert(s.take(d.len() as int) =~= d);
    if d.len() == 0 {
        assert(s =~= rest);
    } else {
        let e = d.skip(1);
        assert forall|i: int| 0 <= i < e.len() implies 48 <= #[trigger] e[i] <= 57 by {
            assert(e[i] == d[i + 1]);
        }
        lemma_digit_run_past(e, rest);
        assert(48 <= d[0] <= 57);
        assert(s[0] == d[0]);
        assert(s.skip(1) =~= e + rest);
    }
}

proof fn lemma_power(s: Seq<u8>)
    ensures
        is_power(s) <==> s.len() == 0 || is_exponent(s),
{
    if s.len() > 0 {
        let t = s.skip(1);
        let u = without_sign(t);
        if s.len() > 1 && (s[1] == 43 || s[1] == 45) {
            assert(t[0] == s[1]);
            assert(u =~= s.skip(2));
        } else {
            if t.len() > 0 {
                assert(t[0] == s[1]);
            }
            assert(u =~= s.skip(1));
        }
        assert(all_digits(u) <==> u.len() > 0 && only_digits(u));
    }
}

proof fn lemma_made_of_is_decimal(t: Seq<u8>, whole: Seq<u8>, part: Option<Seq<u8>>, power: Seq<u8>)
    requires
        is_made_of(t, Seq::empty(), whole, part, power),
    ensures
        is_decimal(t),
        !is_digit(t[0]) ==> t[0] == 46,
{
    lemma_power(power);
    assert(power.len() > 0 ==> !is_digit(power[0]));
    match part {
        Some(p) => {
            let rest = seq![46u8] + p + power;
            assert(t =~= whole + rest);
            lemma_digit_run_past(whole, rest);
            assert(rest.skip(1) =~= p + power);
            lemma_digit_run_past(p, power);
            assert(rest.skip(1 + p.len() as int) =~= power);
            if whole.len() > 0 {
                assert(48 <= whole[0] <= 57);
                assert(t[0] == whole[0]);
            } else {
                assert(t[0] == 46);
            }
        },
        None => {
            assert(t =~= whole + power);
            lemma_digit_run_past(whole, power);
            assert(48 <= whole[0] <= 57);
            assert(t[0] == whole[0]);
        },
    }
}

proof fn lemma_decimal_is_made_of(t: Seq<u8>) -> (r: (Seq<u8>, Option<Seq<u8>>, Seq<u8>))
    requires
        is_decimal(t),
    ensures
        is_made_of(t, Seq::empty(), r.0, r.1, r.2),
{
    lemma_digit_run_bound(t);
    let n = digit_run(t) as int;
    let whole = t.take(n);
    let u = t.skip(n);
    assert forall|i: int| 0 <= i < whole.len() implies 48 <= #[trigger] whole[i] <= 57 by {
        assert(is_digit(t[i]));
    }
    if u.len() > 0 && u[0] == 46 {
        let v = u.skip(1);
        lemma_digit_run_bound(v);
        let k = digit_run(v) as int;
        let p = v.take(k);
        let power = u.skip(1 + k);
        assert forall|i: int| 0 <= i < p.len() implies 48 <= #[trigger] p[i] <= 57 by {
            assert(is_digit(v[i]));
        }
        lemma_power(power);
        assert(t =~= Seq::<u8>::empty() + (whole + ((seq![46u8] + p) + power)));
        (whole, Some(p), power)
    } else {
        lemma_power(u);
        assert(t =~= Seq::<u8>::empty() + (whole + (Seq::<u8>::empty() + u)));
        (whole, None, u)
    }
}

proof fn lemma_word(s: Seq<u8>, word: Seq<u8>)
    requires
        forall|i: int| 0 <= i < word.len() ==> 97 <= #[trigger] word[i] <= 122,
    ensures
        same_word(s, word) <==> is_word(s, word),
{
    if same_word(s, word) {
        assert forall|i: int| 0 <= i < s.len() implies (#[trigger] s[i] == word[i] || s[i] + 32
            == word[i]) by {
            assert(lower(s[i]) == word[i]);
        }
    }
    if is_word(s, word) {
        assert forall|i: int| 0 <= i < s.len() implies lower(#[trigger] s[i]) == word[i] by {
            assert(97 <= word[i] <= 122);
        }
    }
}

/// Text reads as a number exactly if it is made up of a sign, digits with a point before, among
/// or behind them, and an exponent, of which only a digit must be there; or if it is `inf`,
/// `infinity` or `nan`, in small or capital letters, behind an optional sign.
pub proof fn law_numbers_are_made_of_parts(s: Seq<u8>)
    ensures
        is_float(s) <==> (exists|sign: Seq<u8>| is_named(s, sign)) || (exists|
            sign: Seq<u8>,
            whole: Seq<u8>,
            part: Option<Seq<u8>>,
            power: Seq<u8>,
        | is_made_of(s, sign, whole, part, power)),
{
    let t = without_sign(s);
    lemma_word(t, inf());
    lemma_word(t, infinity());
    lemma_word(t, nan());
    let sign = s.take(s.len() - t.len());
    assert(s =~= sign + t);
    assert(is_sign(sign)) by {
        if sign.len() > 0 {
            assert(sign =~= seq![s[0]]);
        }
    }
    if is_float(s) {
        if is_decimal(t) {
            let (whole, part, power) = lemma_decimal_is_made_of(t);
            assert(s =~= sign + (whole + ((match part {
                Some(p) => seq![46u8] + p,
                None => Seq::empty(),
            }) + power)));
            assert(is_made_of(s, sign, whole, part, power));
        } else {
            assert(s.skip(sign.len() as int) =~= t);
            assert(is_named(s, sign));
        }
    }
    if exists|g: Seq<u8>| is_named(s, g) {
        let g = choose|g: Seq<u8>| is_named(s, g);
        let u = s.skip(g.len() as int);
        if g.len() == 0 {
            assert(u =~= s);
            assert(s[0] != 43 && s[0] != 45);
        } else {
            assert(s.take(1)[0] == s[0]);
        }
        assert(u =~= t);
    }
    if exists|g: Seq<u8>, whole: Seq<u8>, part: Option<Seq<u8>>, power: Seq<u8>|
        is_made_of(s, g, whole, part, power) {
        let (g, whole, part, power) = choose|
            g: Seq<u8>,
            whole: Seq<u8>,
            part: Option<Seq<u8>>,
            power: Seq<u8>,
        | is_made_of(s, g, whole, part, power);
        let u = s.skip(g.len() as int);
        let end = match part {
            Some(p) => seq![46u8] + p,
            None => Seq::empty(),
        };
        assert(u =~= Seq::<u8>::empty() + (whole + (end + power)));
        lemma_made_of_is_decimal(u, whole, part, power);
        if g.len() == 0 {
            assert(u =~= s);
        } else {
            assert(s[0] == g[0]);
        }
        assert(u =~= t);
    }
}

} // verus!
