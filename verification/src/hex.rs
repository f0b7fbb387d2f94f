//! HEX string parsing ("AA BB" / "AABB" / "aa,bb" / "0xAA 0xBB").

use vstd::prelude::*;
use vstd::utf8::*;

verus! {

broadcast use vstd::string::group_string_axioms;

// ---------------------------------------------------------------------------
// Character classes
// ---------------------------------------------------------------------------

/// The Unicode `White_Space` property, which `char::is_whitespace` tests.
pub open spec fn is_unicode_whitespace(c: char) -> bool {
    let u = c as u32;
    ||| 0x09 <= u <= 0x0D
    ||| u == 0x20
    ||| u == 0x85
    ||| u == 0xA0
    ||| u == 0x1680
    ||| 0x2000 <= u <= 0x200A
    ||| u == 0x2028
    ||| u == 0x2029
    ||| u == 0x202F
    ||| u == 0x205F
    ||| u == 0x3000
}

/// Among ASCII characters, exactly tab, line feed, vertical tab, form feed,
/// carriage return and space are whitespace; every printable character
/// (digits, letters, punctuation such as ',') is not.
pub proof fn lemma_ascii_whitespace(c: char)
    requires
        (c as u32) < 0x80,
    ensures
        is_unicode_whitespace(c) <==> (0x09 <= c as u32 <= 0x0D || c as u32 == 0x20),
        0x21 <= c as u32 <= 0x7E ==> !is_unicode_whitespace(c),
{
}

/// Whitespace test on a char (Unicode `White_Space`).
pub fn is_whitespace_char(c: char) -> (r: bool)
    ensures
        r == is_unicode_whitespace(c),
{
    let u = c as u32;
    (0x09 <= u && u <= 0x0D) || u == 0x20 || u == 0x85 || u == 0xA0 || u == 0x1680 || (0x2000
        <= u && u <= 0x200A) || u == 0x2028 || u == 0x2029 || u == 0x202F || u == 0x205F || u
        == 0x3000
}

/// Value of an ASCII hexadecimal digit byte.
pub open spec fn hex_digit_value(b: u8) -> Option<u8> {
    if 0x30 <= b <= 0x39 {
        Some((b - 0x30) as u8)
    } else if 0x41 <= b <= 0x46 {
        Some((b - 0x41 + 10) as u8)
    } else if 0x61 <= b <= 0x66 {
        Some((b - 0x61 + 10) as u8)
    } else {
        None
    }
}

/// Value of a pair of hexadecimal digit bytes (high digit first); `None` when
/// either byte is not a hex digit.
pub open spec fn hex_pair_value(b0: u8, b1: u8) -> Option<u8> {
    match (hex_digit_value(b0), hex_digit_value(b1)) {
        (Some(hi), Some(lo)) => Some((hi * 16 + lo) as u8),
        _ => None,
    }
}

/// The hexadecimal digits in value order, lower case.
pub open spec fn hex_digits_lower() -> Seq<char> {
    seq!['0', '1', '2', '3', '4', '5', '6', '7', '8', '9', 'a', 'b', 'c', 'd', 'e', 'f']
}

/// The hexadecimal digits in value order, upper case.
pub open spec fn hex_digits_upper() -> Seq<char> {
    seq!['0', '1', '2', '3', '4', '5', '6', '7', '8', '9', 'A', 'B', 'C', 'D', 'E', 'F']
}

/// The digit of value `d`, in upper case when `upper` holds.
pub open spec fn hex_digit_char(d: int, upper: bool) -> char {
    if upper {
        hex_digits_upper()[d]
    } else {
        hex_digits_lower()[d]
    }
}

proof fn lemma_below_16(d: int)
    requires
        0 <= d < 16,
    ensures
        d == 0 || d == 1 || d == 2 || d == 3 || d == 4 || d == 5 || d == 6 || d == 7 || d == 8 || d == 9
            || d == 10 || d == 11 || d == 12 || d == 13 || d == 14 || d == 15,
{
}

/// The byte of each hexadecimal digit, in either case, has the digit's value,
/// and no other byte is a digit: `hex_digit_value(b)` is `Some(d)` exactly
/// when `b` is the ASCII digit of value `d` in lower or upper case.
pub proof fn lemma_hex_digit_table(b: u8, d: int, upper: bool)
    requires
        0 <= d < 16,
    ensures
        hex_digit_value(hex_digit_char(d, upper) as u8) == Some(d as u8),
        hex_digit_char(d, upper) as u32 == hex_digit_char(d, upper) as u8,
        hex_digit_value(b) == Some(d as u8) <==> (b == hex_digit_char(d, false) as u8 || b
            == hex_digit_char(d, true) as u8),
{
    lemma_below_16(d);
}

/// Each hexadecimal digit byte of either case has one value: a lower-case
/// letter reads like its upper-case form.
pub proof fn lemma_hex_digit_case(d: int)
    requires
        0 <= d < 16,
    ensures
        hex_digit_value(hex_digit_char(d, false) as u8) == hex_digit_value(hex_digit_char(d, true) as u8),
{
    lemma_below_16(d);
}

// ---------------------------------------------------------------------------
// parse_hex specification
// ---------------------------------------------------------------------------

/// Characters dropped before decoding: whitespace and commas.
pub open spec fn is_hex_separator(c: char) -> bool {
    is_unicode_whitespace(c) || c == ','
}

/// `s` without whitespace and commas.
pub open spec fn without_separators(s: Seq<char>) -> Seq<char>
    decreases s.len(),
{
    if s.len() == 0 {
        s
    } else if is_hex_separator(s.last()) {
        without_separators(s.drop_last())
    } else {
        without_separators(s.drop_last()).push(s.last())
    }
}

/// `s` with every `"0x"` removed, scanning left to right without overlap.
pub open spec fn remove_0x(s: Seq<char>) -> Seq<char>
    decreases s.len(),
{
    if s.len() < 2 {
        s
    } else if s[0] == '0' && s[1] == 'x' {
        remove_0x(s.skip(2))
    } else {
        seq![s[0]] + remove_0x(s.skip(1))
    }
}

/// The cleaned text whose UTF-8 bytes are decoded pairwise.
pub open spec fn hex_cleaned(s: Seq<char>) -> Seq<char> {
    remove_0x(without_separators(s))
}

/// Decodes consecutive byte pairs; `None` at the first pair that is not a number.
pub open spec fn decode_hex_pairs(b: Seq<u8>) -> Option<Seq<u8>>
    decreases b.len(),
{
    if b.len() < 2 {
        Some(Seq::empty())
    } else {
        match hex_pair_value(b[0], b[1]) {
            Some(v) => match decode_hex_pairs(b.skip(2)) {
                Some(rest) => Some(seq![v] + rest),
                None => None,
            },
            None => None,
        }
    }
}

/// The bytes `parse_hex` returns: empty for odd length or any invalid pair.
pub open spec fn parse_hex_spec(s: Seq<char>) -> Seq<u8> {
    let b = encode_utf8(hex_cleaned(s));
    if b.len() % 2 != 0 {
        Seq::empty()
    } else {
        match decode_hex_pairs(b) {
            Some(v) => v,
            None => Seq::empty(),
        }
    }
}

/// Two hexadecimal digits, in any mix of letter cases, parse to the one byte
/// they write: high digit first, so "ff", "FF" and "fF" all give 0xFF and
/// "a5" gives 0xA5.
pub proof fn lemma_parse_hex_two_digits(hi: int, lo: int, upper_hi: bool, upper_lo: bool)
    requires
        0 <= hi < 16,
        0 <= lo < 16,
    ensures
        parse_hex_spec(seq![hex_digit_char(hi, upper_hi), hex_digit_char(lo, upper_lo)]) == seq![
            (16 * hi + lo) as u8,
        ],
{
    let c0 = hex_digit_char(hi, upper_hi);
    let c1 = hex_digit_char(lo, upper_lo);
    let s = seq![c0, c1];
    lemma_below_16(hi);
    lemma_below_16(lo);
    lemma_hex_digit_table(0, hi, upper_hi);
    lemma_hex_digit_table(0, lo, upper_lo);
    assert(!is_hex_separator(c0) && !is_hex_separator(c1));
    assert(s.drop_last() =~= seq![c0]);
    assert(seq![c0].drop_last() =~= Seq::<char>::empty());
    assert(without_separators(seq![c0]) == seq![c0]) by {
        assert(without_separators(Seq::<char>::empty()) =~= Seq::<char>::empty());
        assert(Seq::<char>::empty().push(c0) =~= seq![c0]);
    }
    assert(without_separators(s) == s) by {
        assert(seq![c0].push(c1) =~= s);
    }
    assert(c1 != 'x');
    assert(s.skip(1) =~= seq![c1]);
    assert(remove_0x(s) == s) by {
        assert(s[1] == c1 && s[0] == c0);
        assert(!(s[0] == '0' && s[1] == 'x'));
        assert(remove_0x(s.skip(1)) == seq![c1]);
        assert(seq![s[0]] + seq![c1] =~= s);
    }
    assert(hex_cleaned(s) == s);
    assert(is_ascii_chars(s));
    is_ascii_chars_encode_utf8(s);
    let b = encode_utf8(s);
    assert(b =~= seq![c0 as u8, c1 as u8]) by {
        assert(b[0] == c0 as u8);
        assert(b[1] == c1 as u8);
    }
    assert(b.skip(2) =~= Seq::<u8>::empty());
    assert(hex_pair_value(b[0], b[1]) == Some((hi * 16 + lo) as u8));
    assert(decode_hex_pairs(b.skip(2)) == Some(Seq::<u8>::empty()));
    assert(seq![(hi * 16 + lo) as u8] + Seq::<u8>::empty() =~= seq![(16 * hi + lo) as u8]);
}

// ---------------------------------------------------------------------------
// Implementation
// ---------------------------------------------------------------------------

fn hex_digit(b: u8) -> (r: Option<u8>)
    ensures
        r == hex_digit_value(b),
{
    if 0x30 <= b && b <= 0x39 {
        Some(b - 0x30)
    } else if 0x41 <= b && b <= 0x46 {
        Some(b - 0x41 + 10)
    } else if 0x61 <= b && b <= 0x66 {
        Some(b - 0x61 + 10)
    } else {
        None
    }
}

/// Reads a two-byte radix-16 number (see [`hex_pair_value`]).
pub fn hex_pair(b0: u8, b1: u8) -> (r: Option<u8>)
    ensures
        r == hex_pair_value(b0, b1),
{
    match (hex_digit(b0), hex_digit(b1)) {
        (Some(hi), Some(lo)) => Some(hi * 16 + lo),
        _ => None,
    }
}

/// Appends the UTF-8 encoding of `c`.
pub fn push_utf8(out: &mut Vec<u8>, c: char)
    ensures
        final(out)@ == old(out)@ + encode_scalar(c as u32),
{
    let u = c as u32;
    proof {
        char_is_scalar(c);
    }
    if u <= 0x7F {
        out.push((u & 0x7F) as u8);
    } else if u <= 0x7FF {
        out.push(0xC0 | ((u >> 6) & 0x1F) as u8);
        out.push(0x80 | (u & 0x3F) as u8);
    } else if u <= 0xFFFF {
        out.push(0xE0 | ((u >> 12) & 0x0F) as u8);
        out.push(0x80 | ((u >> 6) & 0x3F) as u8);
        out.push(0x80 | (u & 0x3F) as u8);
    } else {
        out.push(0xF0 | ((u >> 18) & 0x7) as u8);
        out.push(0x80 | ((u >> 12) & 0x3F) as u8);
        out.push(0x80 | ((u >> 6) & 0x3F) as u8);
        out.push(0x80 | (u & 0x3F) as u8);
    }
    assert(final(out)@ =~= old(out)@ + encode_scalar(c as u32));
}

/// UTF-8 bytes of a char sequence.
pub fn encode_chars(chars: &Vec<char>) -> (r: Vec<u8>)
    ensures
        r@ == encode_utf8(chars@),
{
    let mut out: Vec<u8> = Vec::new();
    let mut i: usize = 0;
    assert(chars@.skip(0) =~= chars@);
    assert(out@ + encode_utf8(chars@) =~= encode_utf8(chars@));
    while i < chars.len()
        invariant
            i <= chars.len(),
            out@ + encode_utf8(chars@.skip(i as int)) == encode_utf8(chars@),
        decreases chars.len() - i,
    {
        assert(chars@.skip(i as int).drop_first() =~= chars@.skip(i + 1));
        push_utf8(&mut out, chars[i]);
        i = i + 1;
        assert(out@ + encode_utf8(chars@.skip(i as int)) =~= encode_utf8(chars@));
    }
    assert(chars@.skip(i as int) =~= Seq::<char>::empty());
    assert(out@ =~= encode_utf8(chars@));
    out
}

/// The characters of `s`, separators (whitespace, commas) dropped.
fn collect_without_separators(s: &str) -> (r: Vec<char>)
    ensures
        r@ == without_separators(s@),
{
    let mut kept: Vec<char> = Vec::new();
    let ghost full = s@;
    for c in it: s.chars()
        invariant
            it.seq() == full,
            kept@ == without_separators(full.take(it.index() as int)),
    {
        let ghost i = it.index();
        assert(full.take(i + 1).drop_last() =~= full.take(i as int));
        if !(is_whitespace_char(c) || c == ',') {
            kept.push(c);
        }
    }
    assert(full.take(full.len() as int) =~= full);
    kept
}

/// Removes every `"0x"` (left to right, non-overlapping).
fn strip_0x(chars: &Vec<char>) -> (r: Vec<char>)
    ensures
        r@ == remove_0x(chars@),
{
    let mut out: Vec<char> = Vec::new();
    let mut i: usize = 0;
    assert(chars@.skip(0) =~= chars@);
    assert(out@ + remove_0x(chars@) =~= remove_0x(chars@));
    while i < chars.len()
        invariant
            i <= chars.len(),
            out@ + remove_0x(chars@.skip(i as int)) == remove_0x(chars@),
        decreases chars.len() - i,
    {
        let ghost rest = chars@.skip(i as int);
        if i + 1 < chars.len() && chars[i] == '0' && chars[i + 1] == 'x' {
            assert(rest.skip(2) =~= chars@.skip(i + 2));
            i = i + 2;
        } else {
            if i + 1 < chars.len() {
                assert(rest.skip(1) =~= chars@.skip(i + 1));
                out.push(chars[i]);
                i = i + 1;
                assert(out@ + remove_0x(chars@.skip(i as int)) =~= remove_0x(chars@));
            } else {
                assert(rest =~= seq![chars@[i as int]]);
                out.push(chars[i]);
                i = i + 1;
                assert(chars@.skip(i as int) =~= Seq::<char>::empty());
                assert(out@ + remove_0x(chars@.skip(i as int)) =~= remove_0x(chars@));
            }
        }
    }
    assert(chars@.skip(i as int) =~= Seq::<char>::empty());
    assert(out@ =~= remove_0x(chars@));
    out
}

/// Parses a HEX string into bytes.
///
/// Whitespace, commas and every `"0x"` are ignored; an odd number of
/// remaining bytes or any pair that is not two hexadecimal digits (any other
/// character included) yields an empty vector.
pub fn parse_hex(hex: &str) -> (r: Vec<u8>)
    ensures
        r@ == parse_hex_spec(hex@),
{
    let kept = collect_without_separators(hex);
    let cleaned = strip_0x(&kept);
    let bytes = encode_chars(&cleaned);
    if bytes.len() % 2 != 0 {
        return Vec::new();
    }
    let mut out: Vec<u8> = Vec::new();
    let mut i: usize = 0;
    assert(bytes@.skip(0) =~= bytes@);
    proof {
        match decode_hex_pairs(bytes@) {
            Some(r0) => {
                assert(out@ + r0 =~= r0);
            },
            None => {},
        }
    }
    while i < bytes.len()
        invariant
            i <= bytes.len(),
            i % 2 == 0,
            bytes.len() % 2 == 0,
            bytes@ == encode_utf8(hex_cleaned(hex@)),
            decode_hex_pairs(bytes@) == (match decode_hex_pairs(bytes@.skip(i as int)) {
                Some(rest) => Some(out@ + rest),
                None => None::<Seq<u8>>,
            }),
        decreases bytes.len() - i,
    {
        let ghost rest = bytes@.skip(i as int);
        assert(rest.skip(2) =~= bytes@.skip(i + 2));
        let b0 = bytes[i];
        let b1 = bytes[i + 1];
        assert(rest[0] == b0 && rest[1] == b1);
        if b0 < 0x80 && b1 < 0x80 {
            match hex_pair(b0, b1) {
                Some(v) => {
                    let ghost old_out = out@;
                    out.push(v);
                    i = i + 2;
                    proof {
                        match decode_hex_pairs(bytes@.skip(i as int)) {
                            Some(r2) => {
                                assert(old_out + (seq![v] + r2) =~= out@ + r2);
                            },
                            None => {},
                        }
                    }
                },
                None => {
                    assert(decode_hex_pairs(rest) is None);
                    assert(decode_hex_pairs(bytes@) is None);
                    assert(bytes@ == encode_utf8(hex_cleaned(hex@)));
                    return Vec::new();
                },
            }
        } else {
            assert(hex_pair_value(b0, b1) is None);
            assert(decode_hex_pairs(rest) is None);
            assert(decode_hex_pairs(bytes@) is None);
            assert(bytes@ == encode_utf8(hex_cleaned(hex@)));
            return Vec::new();
        }
    }
    assert(bytes@.skip(i as int) =~= Seq::<u8>::empty());
    assert(out@ + Seq::<u8>::empty() =~= out@);
    out
}


} // verus!
