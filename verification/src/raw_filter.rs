//! Direction and content filters for raw byte chunks.

use vstd::prelude::*;
use vstd::utf8::*;

use crate::bytes::{contains_run, contains_subslice};
use crate::hex::{encode_chars, hex_digit_char, is_unicode_whitespace, is_whitespace_char};
use crate::logic::{collect_chars, last_n};
use crate::raw::{ChunkView, RawDataDirection, StoredChunk};

verus! {

/// Direction filter of a raw-data view.
#[derive(Debug, Clone, Copy, PartialEq, Eq, Structural)]
pub enum DirectionFilter {
    /// Both received and sent data.
    All,
    /// Received data only.
    Rx,
    /// Sent data only.
    Tx,
}

impl Default for DirectionFilter {
    /// Shows both directions.
    fn default() -> (r: Self)
        ensures
            r == DirectionFilter::All,
    {
        DirectionFilter::All
    }
}

impl DirectionFilter {
    pub open spec fn accepts(self, dir: RawDataDirection) -> bool {
        match self {
            DirectionFilter::All => true,
            DirectionFilter::Rx => dir == RawDataDirection::Rx,
            DirectionFilter::Tx => dir == RawDataDirection::Tx,
        }
    }

    /// Whether data of direction `dir` passes this filter.
    pub fn matches(self, dir: RawDataDirection) -> (r: bool)
        ensures
            r == self.accepts(dir),
    {
        match self {
            DirectionFilter::All => true,
            DirectionFilter::Rx => dir == RawDataDirection::Rx,
            DirectionFilter::Tx => dir == RawDataDirection::Tx,
        }
    }
}

/// Search pattern, already parsed into bytes.
#[derive(Debug, Clone)]
pub struct SearchPattern(Vec<u8>);

// ---------------------------------------------------------------------------
// Parsing specification
// ---------------------------------------------------------------------------

/// Value of an ASCII hexadecimal digit.
pub open spec fn hex_char_value(c: char) -> Option<u8> {
    if '0' <= c <= '9' {
        Some((c as u32 - '0' as u32) as u8)
    } else if 'a' <= c <= 'f' {
        Some((c as u32 - 'a' as u32 + 10) as u8)
    } else if 'A' <= c <= 'F' {
        Some((c as u32 - 'A' as u32 + 10) as u8)
    } else {
        None
    }
}

/// Drops leading whitespace.
pub open spec fn trim_start(s: Seq<char>) -> Seq<char>
    decreases s.len(),
{
    if s.len() > 0 && is_unicode_whitespace(s[0]) {
        trim_start(s.skip(1))
    } else {
        s
    }
}

/// Drops trailing whitespace.
pub open spec fn trim_end(s: Seq<char>) -> Seq<char>
    decreases s.len(),
{
    if s.len() > 0 && is_unicode_whitespace(s.last()) {
        trim_end(s.drop_last())
    } else {
        s
    }
}

/// Drops leading and trailing whitespace.
pub open spec fn trim_spec(s: Seq<char>) -> Seq<char> {
    trim_end(trim_start(s))
}

/// Every character is a hexadecimal digit or whitespace.
pub open spec fn hex_or_space(s: Seq<char>) -> bool {
    forall|i: int| 0 <= i < s.len() ==> hex_char_value(#[trigger] s[i]) is Some
        || is_unicode_whitespace(s[i])
}

/// Bytes of whitespace-separated hex tokens, each read in two-digit groups
/// from its start (a final single digit is a byte of its own).
pub open spec fn hex_token_bytes(s: Seq<char>) -> Seq<u8>
    decreases s.len(),
{
    if s.len() == 0 {
        Seq::empty()
    } else if is_unicode_whitespace(s[0]) {
        hex_token_bytes(s.skip(1))
    } else if s.len() >= 2 && !is_unicode_whitespace(s[1]) {
        seq![
            (hex_char_value(s[0]).unwrap() * 16 + hex_char_value(s[1]).unwrap()) as u8,
        ] + hex_token_bytes(s.skip(2))
    } else {
        seq![hex_char_value(s[0]).unwrap()] + hex_token_bytes(s.skip(1))
    }
}

/// The pattern `SearchPattern::parse` reads from user input: none for blank
/// input, hex bytes when the trimmed text is hex digits and whitespace only,
/// otherwise the UTF-8 bytes of the trimmed text.
pub open spec fn search_pattern_spec(input: Seq<char>) -> Option<Seq<u8>> {
    let t = trim_spec(input);
    if t.len() == 0 {
        None
    } else if hex_or_space(t) && hex_token_bytes(t).len() > 0 {
        Some(hex_token_bytes(t))
    } else {
        Some(encode_utf8(t))
    }
}

proof fn lemma_sixteen(d: int)
    requires
        0 <= d < 16,
    ensures
        d == 0 || d == 1 || d == 2 || d == 3 || d == 4 || d == 5 || d == 6 || d == 7 || d == 8 || d == 9
            || d == 10 || d == 11 || d == 12 || d == 13 || d == 14 || d == 15,
{
}

/// Each hexadecimal digit of either case has the digit's value, and no other
/// character is a digit: `hex_char_value(c)` is `Some(d)` exactly when `c` is
/// the digit of value `d` in lower or upper case.
pub proof fn lemma_hex_char_table(c: char, d: int, upper: bool)
    requires
        0 <= d < 16,
    ensures
        hex_char_value(hex_digit_char(d, upper)) == Some(d as u8),
        hex_char_value(c) == Some(d as u8) <==> (c == hex_digit_char(d, false) || c == hex_digit_char(d, true)),
{
    lemma_sixteen(d);
}

/// Two hexadecimal digits, in any mix of letter cases, make a one-byte search
/// pattern holding the byte they write, high digit first: "AA", "aa" and
/// "Aa" all search for 0xAA.
pub proof fn lemma_search_two_digits(hi: int, lo: int, upper_hi: bool, upper_lo: bool)
    requires
        0 <= hi < 16,
        0 <= lo < 16,
    ensures
        search_pattern_spec(seq![hex_digit_char(hi, upper_hi), hex_digit_char(lo, upper_lo)]) == Some(
            seq![(16 * hi + lo) as u8],
        ),
{
    let c0 = hex_digit_char(hi, upper_hi);
    let c1 = hex_digit_char(lo, upper_lo);
    let s = seq![c0, c1];
    lemma_sixteen(hi);
    lemma_sixteen(lo);
    lemma_hex_char_table(c0, hi, upper_hi);
    lemma_hex_char_table(c1, lo, upper_lo);
    assert(!is_unicode_whitespace(c0) && !is_unicode_whitespace(c1));
    assert(s[0] == c0 && s.last() == c1);
    assert(trim_start(s) == s);
    assert(trim_end(s) == s);
    assert(trim_spec(s) == s);
    assert(hex_or_space(s)) by {
        assert forall|i: int| 0 <= i < s.len() implies hex_char_value(#[trigger] s[i]) is Some
            || is_unicode_whitespace(s[i]) by {
            if i == 0 {
                assert(s[i] == c0);
            } else {
                assert(s[i] == c1);
            }
        }
    }
    assert(s.skip(2) =~= Seq::<char>::empty());
    assert(hex_token_bytes(s.skip(2)) =~= Seq::<u8>::empty());
    assert(hex_token_bytes(s) =~= seq![(16 * hi + lo) as u8]);
}

/// Verdict and carried tail of a chunk under a direction filter and an
/// optional pattern; `prev_tail` ends the previous direction-matching chunk,
/// so matches that straddle chunk boundaries are found.
pub open spec fn chunk_verdict(
    chunk: ChunkView,
    direction: DirectionFilter,
    pattern: Option<Seq<u8>>,
    prev_tail: Seq<u8>,
) -> (bool, Seq<u8>) {
    if !direction.accepts(chunk.1) {
        (false, Seq::empty())
    } else {
        let found = match pattern {
            None => true,
            Some(p) => p.len() == 0 || contains_run(prev_tail + chunk.2, p),
        };
        let keep: nat = match pattern {
            None => 0,
            Some(p) => if p.len() == 0 {
                0
            } else {
                (p.len() - 1) as nat
            },
        };
        (found, last_n(chunk.2, keep))
    }
}

// ---------------------------------------------------------------------------
// Implementation
// ---------------------------------------------------------------------------

fn hex_char(c: char) -> (r: Option<u8>)
    ensures
        r == hex_char_value(c),
{
    if '0' <= c && c <= '9' {
        Some((c as u32 - '0' as u32) as u8)
    } else if 'a' <= c && c <= 'f' {
        Some((c as u32 - 'a' as u32 + 10) as u8)
    } else if 'A' <= c && c <= 'F' {
        Some((c as u32 - 'A' as u32 + 10) as u8)
    } else {
        None
    }
}

/// The whitespace-trimmed characters of `s`.
fn trimmed_chars(s: &str) -> (r: Vec<char>)
    ensures
        r@ == trim_spec(s@),
{
    let chars = collect_chars(s);
    let n = chars.len();
    let mut lo: usize = 0;
    assert(chars@.skip(0) =~= chars@);
    while lo < n && is_whitespace_char(chars[lo])
        invariant
            lo <= n,
            n == chars@.len(),
            chars@ == s@,
            trim_start(chars@.skip(lo as int)) == trim_start(chars@),
        decreases n - lo,
    {
        assert(chars@.skip(lo as int).skip(1) =~= chars@.skip(lo + 1));
        lo = lo + 1;
    }
    let ghost t = chars@.skip(lo as int);
    assert(trim_start(chars@) == t);
    let mut hi: usize = n;
    assert(t.take((n - lo) as int) =~= t);
    while hi > lo && is_whitespace_char(chars[hi - 1])
        invariant
            lo <= hi <= n,
            n == chars@.len(),
            t == chars@.skip(lo as int),
            trim_end(t.take(hi - lo)) == trim_end(t),
        decreases hi,
    {
        assert(t.take(hi - lo).drop_last() =~= t.take(hi - 1 - lo));
        assert(t.take(hi - lo).last() == chars@[hi - 1]);
        hi = hi - 1;
    }
    assert(trim_end(t) == t.take(hi - lo));
    let mut out: Vec<char> = Vec::new();
    let mut i: usize = lo;
    while i < hi
        invariant
            lo <= i <= hi <= n,
            n == chars@.len(),
            out@ == chars@.subrange(lo as int, i as int),
        decreases hi - i,
    {
        out.push(chars[i]);
        i = i + 1;
        assert(out@ =~= chars@.subrange(lo as int, i as int));
    }
    assert(out@ =~= t.take(hi - lo));
    out
}

/// Reads whitespace-separated hex tokens (all characters are hex digits or whitespace).
fn hex_tokens(t: &Vec<char>) -> (r: Vec<u8>)
    requires
        hex_or_space(t@),
    ensures
        r@ == hex_token_bytes(t@),
{
    let mut out: Vec<u8> = Vec::new();
    let mut i: usize = 0;
    assert(t@.skip(0) =~= t@);
    assert(out@ + hex_token_bytes(t@) =~= hex_token_bytes(t@));
    while i < t.len()
        invariant
            i <= t@.len(),
            hex_or_space(t@),
            out@ + hex_token_bytes(t@.skip(i as int)) == hex_token_bytes(t@),
        decreases t.len() - i,
    {
        let ghost rest = t@.skip(i as int);
        let ghost before = out@;
        assert(rest[0] == t@[i as int]);
        if is_whitespace_char(t[i]) {
            assert(rest.skip(1) =~= t@.skip(i + 1));
            i = i + 1;
        } else if i + 1 < t.len() && !is_whitespace_char(t[i + 1]) {
            assert(rest[1] == t@[i + 1]);
            assert(hex_char_value(t@[i as int]) is Some);
            assert(hex_char_value(t@[i + 1]) is Some);
            let hi = hex_char(t[i]).unwrap();
            let lo = hex_char(t[i + 1]).unwrap();
            out.push(hi * 16 + lo);
            assert(rest.skip(2) =~= t@.skip(i + 2));
            i = i + 2;
            assert(before + hex_token_bytes(rest) =~= out@ + hex_token_bytes(
                t@.skip(i as int),
            ));
        } else {
            assert(hex_char_value(t@[i as int]) is Some);
            let d = hex_char(t[i]).unwrap();
            out.push(d);
            assert(rest.skip(1) =~= t@.skip(i + 1));
            i = i + 1;
            assert(before + hex_token_bytes(rest) =~= out@ + hex_token_bytes(
                t@.skip(i as int),
            ));
        }
    }
    assert(t@.skip(i as int) =~= Seq::<char>::empty());
    assert(out@ + Seq::<u8>::empty() =~= out@);
    out
}

impl SearchPattern {
    pub closed spec fn view(&self) -> Seq<u8> {
        self.0@
    }

    /// Parses user input: blank input gives `None` (no filtering); text made of
    /// hex digits and whitespace only is read as hex bytes ("31 32" or "3132");
    /// anything else is taken as UTF-8 text.
    pub fn parse(input: &str) -> (r: Option<Self>)
        ensures
            match r {
                Some(p) => search_pattern_spec(input@) == Some(p@),
                None => search_pattern_spec(input@) is None,
            },
    {
        let t = trimmed_chars(input);
        if t.len() == 0 {
            return None;
        }
        let mut is_hex = true;
        let mut i: usize = 0;
        while i < t.len()
            invariant
                i <= t@.len(),
                is_hex == (forall|k: int|
                    0 <= k < i ==> hex_char_value(#[trigger] t@[k]) is Some
                        || is_unicode_whitespace(t@[k])),
            decreases t.len() - i,
        {
            let c = t[i];
            if !(hex_char(c).is_some() || is_whitespace_char(c)) {
                is_hex = false;
            }
            i = i + 1;
        }
        if is_hex {
            let bytes = hex_tokens(&t);
            if bytes.len() > 0 {
                return Some(SearchPattern(bytes));
            }
        }
        Some(SearchPattern(encode_chars(&t)))
    }

    pub fn as_bytes(&self) -> (r: &[u8])
        ensures
            r@ == self@,
    {
        self.0.as_slice()
    }

    pub fn len(&self) -> (n: usize)
        ensures
            n == self@.len(),
    {
        self.0.len()
    }

    pub fn is_empty(&self) -> (b: bool)
        ensures
            b == (self@.len() == 0),
    {
        self.0.len() == 0
    }

    /// Whether `data` contains the pattern (an empty pattern always matches).
    pub fn matches(&self, data: &[u8]) -> (r: bool)
        ensures
            r == contains_run(data@, self@),
    {
        if self.0.len() == 0 {
            assert(data@.subrange(0, 0) =~= self@);
            assert(crate::bytes::occurs_at(data@, self@, 0));
            return true;
        }
        if self.0.len() == 1 {
            let b = self.0[0];
            let mut i: usize = 0;
            while i < data.len()
                invariant
                    i <= data@.len(),
                    self@.len() == 1,
                    b == self@[0],
                    forall|k: int| 0 <= k < i ==> data@[k] != b,
                decreases data.len() - i,
            {
                if data[i] == b {
                    assert(data@.subrange(i as int, i + 1) =~= self@);
                    assert(crate::bytes::occurs_at(data@, self@, i as int));
                    return true;
                }
                i = i + 1;
            }
            assert forall|k: int| !crate::bytes::occurs_at(data@, self@, k) by {
                if 0 <= k && k + 1 <= data@.len() {
                    assert(data@.subrange(k, k + 1)[0] == data@[k]);
                }
            }
            return false;
        }
        contains_subslice(data, self.0.as_slice())
    }
}

/// Direction / pattern verdict of one chunk and the tail to carry to the next
/// direction-matching chunk (the last `pattern.len() - 1` bytes).
pub(crate) fn chunk_matches(
    chunk: &StoredChunk,
    direction: DirectionFilter,
    pattern: Option<&SearchPattern>,
    prev_tail: &[u8],
) -> (r: (bool, Vec<u8>))
    ensures
        (r.0, r.1@) == chunk_verdict(
            chunk.view(),
            direction,
            match pattern {
                Some(p) => Some(p@),
                None => None,
            },
            prev_tail@,
        ),
{
    if !direction.matches(chunk.direction) {
        return (false, Vec::new());
    }
    let search_ok = match pattern {
        None => true,
        Some(p) => {
            if p.is_empty() {
                true
            } else {
                let mut combined: Vec<u8> = Vec::new();
                combined.extend_from_slice(prev_tail);
                combined.extend_from_slice(chunk.bytes.as_slice());
                assert(combined@ =~= prev_tail@ + chunk.bytes@);
                p.matches(combined.as_slice())
            }
        },
    };
    let keep: usize = match pattern {
        None => 0,
        Some(p) => if p.len() == 0 {
            0
        } else {
            p.len() - 1
        },
    };
    let n = chunk.bytes.len();
    let start = if keep < n { n - keep } else { 0 };
    let mut tail: Vec<u8> = Vec::new();
    let mut i: usize = start;
    while i < n
        invariant
            start <= i <= n,
            n == chunk.bytes@.len(),
            tail@ == chunk.bytes@.subrange(start as int, i as int),
        decreases n - i,
    {
        tail.push(chunk.bytes[i]);
        i = i + 1;
        assert(tail@ =~= chunk.bytes@.subrange(start as int, i as int));
    }
    assert(tail@ =~= last_n(chunk.bytes@, keep as nat));
    (search_ok, tail)
}

} // verus!
