//! Test-frame encoder: lays out the bytes a frame decoder configured with the
//! given blocks would accept, from per-block values already converted to
//! integers or bytes.

use vstd::prelude::*;

use crate::checksum::ChecksumAlgorithm;
use crate::decoder_block::{
    field_uint, lemma_pow_values, lemma_uint_values, pow256, value_width, DecoderBlockDef, DecoderChecksumCover,
    DecoderChecksumPosition, FieldType,
};
use crate::hex::{parse_hex, parse_hex_spec};

verus! {

/// Test-frame generator for frame decoders.
#[derive(Debug, Clone, Copy)]
pub struct FrameDecoderTestData;

/// Value supplied for one block, converted from its port value.
#[derive(Debug, Clone)]
pub enum BlockInput {
    /// Blocks without a port value (Header, Tail, Checksum).
    Nothing,
    /// Integer written by a Length or Id block.
    Integer(u64),
    /// Encoded bytes of a fixed-type Field.
    Encoded(Vec<u8>),
    /// First byte of a variable-length (Bytes) Field.
    Seed(u8),
    /// Bits written by a Bitfield.
    Bits(u32),
}

/// Checksum placement noted during the first pass.
pub struct ChecksumRecord {
    pub buf_pos: int,
    pub algorithm: ChecksumAlgorithm,
    pub cover_begin: int,
    pub cover_end: int,
    pub prepend: bool,
    pub cs_len: nat,
}

/// State of the first encoding pass.
pub struct EncodeState {
    pub buf: Seq<u8>,
    pub frame_start: int,
    pub id_value: Option<i64>,
    pub lengths: Seq<(Seq<char>, u64)>,
    pub records: Seq<ChecksumRecord>,
    /// False once a block cannot be encoded (its HEX text cannot be sliced,
    /// a bit field is wider than 32 bits, or a position exceeds `usize`).
    pub ok: bool,
}

impl BlockInput {
    pub open spec fn int_value(&self) -> u64 {
        match self {
            BlockInput::Integer(v) => *v,
            _ => 0,
        }
    }

    pub open spec fn encoded_value(&self) -> Seq<u8> {
        match self {
            BlockInput::Encoded(v) => v@,
            _ => Seq::empty(),
        }
    }

    pub open spec fn seed_value(&self) -> u8 {
        match self {
            BlockInput::Seed(v) => *v,
            _ => 0,
        }
    }

    pub open spec fn bits_value(&self) -> u32 {
        match self {
            BlockInput::Bits(v) => *v,
            _ => 0,
        }
    }
}

/// A block runs when it has no frame-type condition or the frame's id equals it.
pub open spec fn block_runs(match_id: Option<i64>, id_value: Option<i64>) -> bool {
    match match_id {
        None => true,
        Some(m) => id_value == Some(m),
    }
}

/// Integer bytes of a Length / Id value by field type (truncated to the
/// field's width; float and byte types write the low byte).
pub open spec fn int_bytes(ft: FieldType, v: u64) -> Seq<u8> {
    match ft {
        FieldType::UInt8 | FieldType::Int8 => seq![v as u8],
        FieldType::UInt16LE | FieldType::Int16LE => seq![v as u8, (v >> 8u64) as u8],
        FieldType::UInt16BE | FieldType::Int16BE => seq![(v >> 8u64) as u8, v as u8],
        FieldType::UInt32LE | FieldType::Int32LE => seq![
            v as u8,
            (v >> 8u64) as u8,
            (v >> 16u64) as u8,
            (v >> 24u64) as u8,
        ],
        FieldType::UInt32BE | FieldType::Int32BE => seq![
            (v >> 24u64) as u8,
            (v >> 16u64) as u8,
            (v >> 8u64) as u8,
            v as u8,
        ],
        _ => seq![v as u8],
    }
}

/// A Length or Id value of an integer type is written in that type's width
/// and byte order: reading the written bytes back as the field type reads
/// them gives the value modulo 256^width (so a 16-bit little-endian field
/// gets `v % 256` first and `(v / 256) % 256` second). Float and byte-string
/// types get the value's low byte only.
pub proof fn lemma_int_bytes_read_back(ft: FieldType, v: u64)
    ensures
        (ft is Float32LE || ft is Float32BE || ft is Bytes) ==> int_bytes(ft, v) == seq![(v % 256) as u8],
        !(ft is Float32LE || ft is Float32BE || ft is Bytes) ==> {
            &&& int_bytes(ft, v).len() == value_width(ft)
            &&& field_uint(ft, int_bytes(ft, v)) == (v as nat) % pow256(value_width(ft))
        },
{
    let b = int_bytes(ft, v);
    lemma_pow_values();
    reveal_with_fuel(pow256, 5);
    assert(pow256(4) == 4294967296);
    lemma_uint_values(b);
    assert((v as u8) as u64 == v % 256) by (bit_vector);
    assert((v as u8) as u64 + 256 * ((v >> 8u64) as u8) as u64 == v % 65536) by (bit_vector);
    assert((v as u8) as u64 + 256 * ((v >> 8u64) as u8) as u64 + 65536 * ((v >> 16u64) as u8) as u64
        + 16777216 * ((v >> 24u64) as u8) as u64 == v % 4294967296) by (bit_vector);
}

/// A value recorded under a key is what a lookup of that key finds until
/// the key is recorded again; recording a key leaves other keys' values, and
/// nothing is found before anything is recorded.
pub proof fn lemma_length_lookup_latest(lengths: Seq<(Seq<char>, u64)>, key: Seq<char>, other: Seq<char>, v: u64)
    ensures
        length_lookup(Seq::empty(), key) is None,
        length_lookup(lengths.push((key, v)), key) == Some(v),
        other != key ==> length_lookup(lengths.push((key, v)), other) == length_lookup(lengths, other),
{
    assert(lengths.push((key, v)).drop_last() =~= lengths);
}

/// Bit `k` of `set_bit(b, k, bit)` is `bit`, and every other bit is the
/// same as in `b`.
pub proof fn lemma_set_bit(b: u8, k: u8, bit: u8, j: u8)
    requires
        k < 8,
        j < 8,
        bit <= 1,
    ensures
        (set_bit(b, k, bit) >> k) & 1 == bit,
        j != k ==> (set_bit(b, k, bit) >> j) & 1 == (b >> j) & 1,
{
    assert(k < 8 && bit <= 1 ==> ((((b & !(1u8 << k)) | (bit << k)) as u8) >> k) & 1 == bit) by (bit_vector);
    assert(k < 8 && j < 8 && j != k && bit <= 1 ==> ((((b & !(1u8 << k)) | (bit << k)) as u8) >> j) & 1 == (b
        >> j) & 1) by (bit_vector);
}

/// The bytes of a variable-length field start at the seed and count up by
/// one, wrapping from 0xFF to 0x00.
pub proof fn lemma_seeded_bytes_count_up(seed: u8, len: nat, j: int)
    ensures
        seeded_bytes(seed, len).len() == len,
        len > 0 ==> seeded_bytes(seed, len)[0] == seed,
        0 <= j && j + 1 < len ==> seeded_bytes(seed, len)[j + 1] == (seeded_bytes(seed, len)[j] + 1) % 256,
{
    if 0 <= j && j + 1 < len {
        let a = seed as int + j;
        assert((a + 1) % 256 == (a % 256 + 1) % 256) by (nonlinear_arith)
            requires
                a >= 0,
        ;
    }
}

/// `len` bytes counting up (wrapping) from `seed`.
pub open spec fn seeded_bytes(seed: u8, len: nat) -> Seq<u8> {
    Seq::new(len, |j: int| ((seed + j) % 256) as u8)
}

/// Latest value recorded under `key`.
pub open spec fn length_lookup(lengths: Seq<(Seq<char>, u64)>, key: Seq<char>) -> Option<u64>
    decreases lengths.len(),
{
    if lengths.len() == 0 {
        None
    } else if lengths.last().0 == key {
        Some(lengths.last().1)
    } else {
        length_lookup(lengths.drop_last(), key)
    }
}

/// `b` with bit `k` set to `bit`.
pub open spec fn set_bit(b: u8, k: u8, bit: u8) -> u8 {
    ((b & !(1u8 << k)) | (bit << k)) as u8
}

/// Bit `i` (MSB first) of the `len`-bit value `val`.
pub open spec fn field_bit(val: u32, len: u8, i: u8) -> u8 {
    ((val >> ((len - 1 - i) as u32)) & 1u32) as u8
}

/// Writes the first `i` bits of a bit field (MSB first, starting `bit_offset`
/// bits into byte `abs`).
pub open spec fn write_bits(buf: Seq<u8>, abs: int, bit_offset: u8, len: u8, val: u32, i: nat) -> Seq<u8>
    decreases i,
{
    if i == 0 {
        buf
    } else {
        let prev = write_bits(buf, abs, bit_offset, len, val, (i - 1) as nat);
        let a = bit_offset + (i - 1);
        let idx = abs + a / 8;
        let k = (7 - a % 8) as u8;
        prev.update(idx, set_bit(prev[idx], k, field_bit(val, len, (i - 1) as u8)))
    }
}

/// Bytes after the first pass reaches a Checksum block's position.
pub open spec fn checksum_record(s: EncodeState, algorithm: ChecksumAlgorithm, cover: DecoderChecksumCover, cover_start: Option<u32>, position: DecoderChecksumPosition) -> EncodeState {
    let cs_len = algorithm.output_len();
    match position {
        DecoderChecksumPosition::Prepend => {
            if s.frame_start + cs_len > usize::MAX {
                EncodeState { ok: false, ..s }
            } else {
                EncodeState {
                    records: s.records.push(
                        ChecksumRecord {
                            buf_pos: s.frame_start,
                            algorithm,
                            cover_begin: s.frame_start + cs_len,
                            cover_end: 0,
                            prepend: true,
                            cs_len,
                        },
                    ),
                    ..s
                }
            }
        },
        _ => {
            let begin = match cover {
                DecoderChecksumCover::AllPrior => s.frame_start,
                DecoderChecksumCover::Range => s.frame_start + match cover_start {
                    Some(c) => c as int,
                    None => 0,
                },
            };
            if begin > usize::MAX {
                EncodeState { ok: false, ..s }
            } else {
                EncodeState {
                    buf: s.buf + Seq::new(cs_len, |j: int| 0u8),
                    records: s.records.push(
                        ChecksumRecord {
                            buf_pos: s.buf.len() as int,
                            algorithm,
                            cover_begin: begin,
                            cover_end: s.buf.len() as int,
                            prepend: false,
                            cs_len,
                        },
                    ),
                    ..s
                }
            }
        },
    }
}

/// One block of the first pass.
pub open spec fn encode_step(s: EncodeState, b: DecoderBlockDef, input: BlockInput) -> EncodeState {
    if !s.ok {
        s
    } else {
        match b {
            DecoderBlockDef::Header { hex, .. } => {
                let bytes = parse_hex_spec(hex@);
                EncodeState { buf: s.buf + bytes, frame_start: (s.buf.len() + bytes.len()) as int, ..s }
            },
            DecoderBlockDef::Length { id, field_type, match_id, .. } => if !block_runs(
                match_id,
                s.id_value,
            ) {
                s
            } else {
                let v = input.int_value();
                EncodeState {
                    buf: s.buf + int_bytes(field_type, v),
                    lengths: s.lengths.push((id@, v)),
                    ..s
                }
            },
            DecoderBlockDef::Id { field_type, .. } => {
                let v = input.int_value();
                EncodeState {
                    buf: s.buf + int_bytes(field_type, v),
                    id_value: Some(v as i64),
                    ..s
                }
            },
            DecoderBlockDef::Field { field_type, length_ref, match_id, .. } => if !block_runs(
                match_id,
                s.id_value,
            ) {
                s
            } else if field_type == FieldType::Bytes {
                let len: u64 = match length_ref {
                    Some(r) => match length_lookup(s.lengths, r@) {
                        Some(v) => v,
                        None => 1,
                    },
                    None => 1,
                };
                EncodeState {
                    buf: s.buf + seeded_bytes(input.seed_value(), len as usize as nat),
                    ..s
                }
            } else {
                EncodeState { buf: s.buf + input.encoded_value(), ..s }
            },
            DecoderBlockDef::Bitfield { byte_offset, bit_offset, bit_length, match_id, .. } => {
                if !block_runs(match_id, s.id_value) {
                    s
                } else {
                    let abs = s.frame_start + byte_offset;
                    let needed = abs + (bit_offset + bit_length + 7) / 8;
                    if bit_length > 32 || needed > usize::MAX {
                        EncodeState { ok: false, ..s }
                    } else {
                        let padded = if s.buf.len() < needed {
                            s.buf + Seq::new((needed - s.buf.len()) as nat, |j: int| 0u8)
                        } else {
                            s.buf
                        };
                        EncodeState {
                            buf: write_bits(
                                padded,
                                abs,
                                bit_offset,
                                bit_length,
                                input.bits_value(),
                                bit_length as nat,
                            ),
                            ..s
                        }
                    }
                }
            },
            DecoderBlockDef::Checksum {
                algorithm,
                cover,
                cover_start,
                position,
                match_id,
                ..
            } => if !block_runs(match_id, s.id_value) {
                s
            } else {
                checksum_record(s, algorithm, cover, cover_start, position)
            },
            DecoderBlockDef::Tail { hex, match_id, .. } => if !block_runs(match_id, s.id_value) {
                s
            } else {
                EncodeState { buf: s.buf + parse_hex_spec(hex@), ..s }
            },
            _ => s,
        }
    }
}

/// The first pass over the first `n` blocks.
pub open spec fn first_pass(blocks: Seq<DecoderBlockDef>, inputs: Seq<BlockInput>, n: nat) -> EncodeState
    decreases n,
{
    if n == 0 {
        EncodeState {
            buf: Seq::empty(),
            frame_start: 0,
            id_value: None,
            lengths: Seq::empty(),
            records: Seq::empty(),
            ok: true,
        }
    } else {
        encode_step(first_pass(blocks, inputs, (n - 1) as nat), blocks[n - 1], inputs[n - 1])
    }
}

/// Writes one checksum over the bytes it covers; `None` when the covered
/// range is not inside the frame.
pub open spec fn fill_checksum(buf: Seq<u8>, r: ChecksumRecord) -> Option<Seq<u8>> {
    let end = if r.prepend {
        buf.len() as int
    } else {
        r.cover_end
    };
    if !(0 <= r.cover_begin <= end <= buf.len()) {
        None
    } else {
        let c = r.algorithm.checksum_of(buf.subrange(r.cover_begin, end));
        Some(
            Seq::new(
                buf.len(),
                |p: int|
                    if r.buf_pos <= p < r.buf_pos + c.len() {
                        c[p - r.buf_pos]
                    } else {
                        buf[p]
                    },
            ),
        )
    }
}

/// The second pass: the first `k` checksums written in order.
pub open spec fn second_pass(buf: Seq<u8>, records: Seq<ChecksumRecord>, k: nat) -> Option<Seq<u8>>
    decreases k,
{
    if k == 0 {
        Some(buf)
    } else {
        match second_pass(buf, records, (k - 1) as nat) {
            Some(b) => fill_checksum(b, records[k - 1]),
            None => None,
        }
    }
}

/// The encoded frame and the (position, length) of every checksum, or `None`
/// when a block cannot be encoded or a checksum's covered range lies outside
/// the frame.
pub open spec fn encoded_frame(blocks: Seq<DecoderBlockDef>, inputs: Seq<BlockInput>) -> Option<(Seq<u8>, Seq<(usize, usize)>)> {
    let s = first_pass(blocks, inputs, blocks.len());
    if !s.ok {
        None
    } else {
        match second_pass(s.buf, s.records, s.records.len()) {
            Some(b) => Some(
                (b, s.records.map_values(|r: ChecksumRecord| (r.buf_pos as usize, r.cs_len as usize))),
            ),
            None => None,
        }
    }
}


// ---------------------------------------------------------------------------
// Implementation
// ---------------------------------------------------------------------------

/// Exec form of a checksum placement.
struct CsRecord {
    buf_pos: usize,
    algorithm: ChecksumAlgorithm,
    cover_begin: usize,
    cover_end: usize,
    prepend: bool,
    cs_len: usize,
}

impl CsRecord {
    spec fn view(&self) -> ChecksumRecord {
        ChecksumRecord {
            buf_pos: self.buf_pos as int,
            algorithm: self.algorithm,
            cover_begin: self.cover_begin as int,
            cover_end: self.cover_end as int,
            prepend: self.prepend,
            cs_len: self.cs_len as nat,
        }
    }
}

spec fn records_view(v: Seq<CsRecord>) -> Seq<ChecksumRecord> {
    v.map_values(|r: CsRecord| r.view())
}

spec fn lengths_view(v: Seq<(String, u64)>) -> Seq<(Seq<char>, u64)> {
    v.map_values(|e: (String, u64)| (e.0@, e.1))
}

/// Every recorded checksum slot lies inside the buffer (prepended ones right
/// before their covered range).
spec fn records_fit(records: Seq<ChecksumRecord>, len: nat) -> bool {
    forall|k: int|
        0 <= k < records.len() ==> {
            let r = #[trigger] records[k];
            &&& r.cs_len == r.algorithm.output_len()
            &&& 0 <= r.buf_pos
            &&& if r.prepend {
                r.buf_pos + r.cs_len == r.cover_begin
            } else {
                r.buf_pos + r.cs_len <= len
            }
        }
}

proof fn lemma_fit_grow(records: Seq<ChecksumRecord>, a: nat, b: nat)
    requires
        records_fit(records, a),
        a <= b,
    ensures
        records_fit(records, b),
{
}

proof fn lemma_failure_persists(blocks: Seq<DecoderBlockDef>, inputs: Seq<BlockInput>, i: nat, n: nat)
    requires
        i <= n,
        !first_pass(blocks, inputs, i).ok,
    ensures
        !first_pass(blocks, inputs, n).ok,
    decreases n - i,
{
    if i < n {
        lemma_failure_persists(blocks, inputs, i, (n - 1) as nat);
    }
}

/// Appends the integer bytes of `v` for `ft`.
fn push_int(buf: &mut Vec<u8>, ft: FieldType, v: u64)
    ensures
        final(buf)@ == old(buf)@ + int_bytes(ft, v),
{
    match ft {
        FieldType::UInt8 | FieldType::Int8 => {
            buf.push(v as u8);
        },
        FieldType::UInt16LE | FieldType::Int16LE => {
            buf.push(v as u8);
            buf.push((v >> 8u64) as u8);
        },
        FieldType::UInt16BE | FieldType::Int16BE => {
            buf.push((v >> 8u64) as u8);
            buf.push(v as u8);
        },
        FieldType::UInt32LE | FieldType::Int32LE => {
            buf.push(v as u8);
            buf.push((v >> 8u64) as u8);
            buf.push((v >> 16u64) as u8);
            buf.push((v >> 24u64) as u8);
        },
        FieldType::UInt32BE | FieldType::Int32BE => {
            buf.push((v >> 24u64) as u8);
            buf.push((v >> 16u64) as u8);
            buf.push((v >> 8u64) as u8);
            buf.push(v as u8);
        },
        _ => {
            buf.push(v as u8);
        },
    }
    assert(final(buf)@ =~= old(buf)@ + int_bytes(ft, v));
}

/// Latest length recorded under `key`.
fn find_length(lengths: &Vec<(String, u64)>, key: &String) -> (r: Option<u64>)
    ensures
        r == length_lookup(lengths_view(lengths@), key@),
{
    let mut i: usize = lengths.len();
    assert(lengths@.take(i as int) =~= lengths@);
    while i > 0
        invariant
            i <= lengths@.len(),
            length_lookup(lengths_view(lengths@), key@) == length_lookup(
                lengths_view(lengths@.take(i as int)),
                key@,
            ),
        decreases i,
    {
        let ghost pre = lengths_view(lengths@.take(i as int));
        assert(pre.last() == (lengths@[i - 1].0@, lengths@[i - 1].1));
        assert(pre.drop_last() =~= lengths_view(lengths@.take(i - 1)));
        if lengths[i - 1].0 == *key {
            return Some(lengths[i - 1].1);
        }
        i = i - 1;
    }
    assert(lengths_view(lengths@.take(0)) =~= Seq::<(Seq<char>, u64)>::empty());
    None
}

/// Writes a `len`-bit field MSB first, `bit_offset` bits into byte `abs`.
fn write_bitfield(buf: &mut Vec<u8>, abs: usize, bit_offset: u8, len: u8, val: u32)
    requires
        len <= 32,
        abs + (bit_offset + len + 7) / 8 <= old(buf)@.len(),
    ensures
        final(buf)@ == write_bits(old(buf)@, abs as int, bit_offset, len, val, len as nat),
        final(buf)@.len() == old(buf)@.len(),
{
    let mut i: u8 = 0;
    while i < len
        invariant
            i <= len <= 32,
            abs + (bit_offset + len + 7) / 8 <= old(buf)@.len(),
            buf@.len() == old(buf)@.len(),
            buf@ == write_bits(old(buf)@, abs as int, bit_offset, len, val, i as nat),
        decreases len - i,
    {
        let a: usize = bit_offset as usize + i as usize;
        let byte_idx = a / 8;
        assert(byte_idx < (bit_offset + len + 7) / 8) by (nonlinear_arith)
            requires
                a < bit_offset + len,
                byte_idx == a / 8,
        ;
        let k: u8 = (7 - a % 8) as u8;
        let bit = ((val >> ((len - 1 - i) as u32)) & 1u32) as u8;
        assert(abs + byte_idx < buf.len());
        let idx = abs + byte_idx;
        let b = buf[idx];
        let nb = ((b & !(1u8 << k)) | (bit << k)) as u8;
        buf.set(idx, nb);
        i = i + 1;
    }
}

/// Writes one checksum; false when its covered range is outside the buffer.
fn fill_one(buf: &mut Vec<u8>, r: &CsRecord) -> (ok: bool)
    requires
        r.cs_len == r.algorithm.output_len(),
        if r.prepend {
            r.buf_pos + r.cs_len == r.cover_begin
        } else {
            r.buf_pos + r.cs_len <= old(buf)@.len()
        },
    ensures
        match fill_checksum(old(buf)@, r.view()) {
            Some(b) => ok && final(buf)@ == b,
            None => !ok,
        },
{
    let end = if r.prepend { buf.len() } else { r.cover_end };
    if !(r.cover_begin <= end && end <= buf.len()) {
        return false;
    }
    let mut cover: Vec<u8> = Vec::new();
    let mut i: usize = r.cover_begin;
    while i < end
        invariant
            r.cover_begin <= i <= end <= buf@.len(),
            cover@ == buf@.subrange(r.cover_begin as int, i as int),
        decreases end - i,
    {
        cover.push(buf[i]);
        i = i + 1;
        assert(cover@ =~= buf@.subrange(r.cover_begin as int, i as int));
    }
    let c = r.algorithm.compute(cover.as_slice(), None);
    let ghost before = buf@;
    assert(r.buf_pos + r.cs_len <= before.len());
    let mut j: usize = 0;
    while j < c.len()
        invariant
            j <= c@.len(),
            c@.len() == r.cs_len,
            r.buf_pos + r.cs_len <= before.len(),
            buf@.len() == before.len(),
            forall|p: int|
                0 <= p < before.len() ==> #[trigger] buf@[p] == if r.buf_pos <= p < r.buf_pos + j {
                    c@[p - r.buf_pos]
                } else {
                    before[p]
                },
        decreases c.len() - j,
    {
        assert(r.buf_pos + j < buf.len());
        buf.set(r.buf_pos + j, c[j]);
        j = j + 1;
    }
    assert(buf@ =~= fill_checksum(before, r.view()).unwrap());
    true
}

/// Exec state of the first pass.
struct EncoderState {
    buf: Vec<u8>,
    lengths: Vec<(String, u64)>,
    records: Vec<CsRecord>,
    frame_start: usize,
    id_value: Option<i64>,
}

impl EncoderState {
    spec fn view(&self) -> EncodeState {
        EncodeState {
            buf: self.buf@,
            frame_start: self.frame_start as int,
            id_value: self.id_value,
            lengths: lengths_view(self.lengths@),
            records: records_view(self.records@),
            ok: true,
        }
    }

    spec fn fits(&self) -> bool {
        records_fit(records_view(self.records@), self.buf@.len())
    }

    fn step_bytes_field(&mut self, length_ref: &Option<String>, input: &BlockInput)
        requires
            old(self).fits(),
        ensures
            final(self).fits(),
            final(self).view() == (EncodeState {
                buf: old(self).view().buf + seeded_bytes(
                    input.seed_value(),
                    (match length_ref {
                        Some(r) => match length_lookup(old(self).view().lengths, r@) {
                            Some(v) => v,
                            None => 1u64,
                        },
                        None => 1u64,
                    }) as usize as nat,
                ),
                ..old(self).view()
            }),
    {
        let len: u64 = match length_ref {
            Some(rf) => match find_length(&self.lengths, rf) {
                Some(v) => v,
                None => 1,
            },
            None => 1,
        };
        let seed: u8 = match input {
            BlockInput::Seed(v) => *v,
            _ => 0,
        };
        let n = len as usize;
        let ghost base = self.buf@;
        let mut j: usize = 0;
        let mut cur: u8 = seed;
        assert(base + seeded_bytes(seed, 0) =~= base);
        while j < n
            invariant
                j <= n,
                cur as int == (seed + j) % 256,
                self.buf@ == base + seeded_bytes(seed, j as nat),
                self.lengths == old(self).lengths,
                self.records == old(self).records,
                self.frame_start == old(self).frame_start,
                self.id_value == old(self).id_value,
                base == old(self).buf@,
            decreases n - j,
        {
            self.buf.push(cur);
            cur = if cur == 255 { 0 } else { cur + 1 };
            j = j + 1;
            assert(self.buf@ =~= base + seeded_bytes(seed, j as nat));
        }
    }

    fn step_bitfield(&mut self, byte_offset: u32, bit_offset: u8, bit_length: u8, input: &BlockInput) -> (ok: bool)
        requires
            old(self).fits(),
        ensures
            final(self).fits(),
            ({
                let s = old(self).view();
                let abs = s.frame_start + byte_offset;
                let needed = abs + (bit_offset + bit_length + 7) / 8;
                if bit_length > 32 || needed > usize::MAX {
                    !ok
                } else {
                    let padded = if s.buf.len() < needed {
                        s.buf + Seq::new((needed - s.buf.len()) as nat, |j: int| 0u8)
                    } else {
                        s.buf
                    };
                    &&& ok
                    &&& final(self).view() == (EncodeState {
                        buf: write_bits(padded, abs, bit_offset, bit_length, input.bits_value(), bit_length as nat),
                        ..s
                    })
                }
            }),
    {
        let bits: u32 = match input {
            BlockInput::Bits(v) => *v,
            _ => 0,
        };
        let span: usize = (bit_offset as usize + bit_length as usize + 7) / 8;
        let abs_opt = self.frame_start.checked_add(byte_offset as usize);
        let needed_opt = match abs_opt {
            Some(a) => a.checked_add(span),
            None => None,
        };
        if bit_length > 32 || needed_opt.is_none() {
            return false;
        }
        let abs = abs_opt.unwrap();
        let needed = needed_opt.unwrap();
        let ghost base = self.buf@;
        while self.buf.len() < needed
            invariant
                base == old(self).buf@,
                base.len() <= self.buf@.len(),
                base.len() < needed ==> self.buf@.len() <= needed,
                base.len() >= needed ==> self.buf@.len() == base.len(),
                self.buf@.subrange(0, base.len() as int) == base,
                forall|p: int| base.len() <= p < self.buf@.len() ==> self.buf@[p] == 0u8,
                self.lengths == old(self).lengths,
                self.records == old(self).records,
                self.frame_start == old(self).frame_start,
                self.id_value == old(self).id_value,
            decreases needed - self.buf.len(),
        {
            self.buf.push(0);
            assert(self.buf@.subrange(0, base.len() as int) =~= base);
        }
        let ghost padded = if base.len() < needed {
            base + Seq::new((needed - base.len()) as nat, |j: int| 0u8)
        } else {
            base
        };
        assert forall|p: int| 0 <= p < base.len() implies self.buf@[p] == base[p] by {
            assert(self.buf@[p] == self.buf@.subrange(0, base.len() as int)[p]);
        }
        assert(self.buf@ =~= padded);
        write_bitfield(&mut self.buf, abs, bit_offset, bit_length, bits);
        proof {
            lemma_fit_grow(records_view(self.records@), base.len(), self.buf@.len());
        }
        true
    }

    fn step_checksum(
        &mut self,
        algorithm: ChecksumAlgorithm,
        cover: DecoderChecksumCover,
        cover_start: Option<u32>,
        position: DecoderChecksumPosition,
    ) -> (ok: bool)
        requires
            old(self).fits(),
        ensures
            final(self).fits(),
            ({
                let t = checksum_record(old(self).view(), algorithm, cover, cover_start, position);
                if t.ok {
                    ok && final(self).view() == t
                } else {
                    !ok
                }
            }),
    {
        let cs_len = algorithm.byte_len();
        match position {
            DecoderChecksumPosition::Prepend => {
                let begin = self.frame_start.checked_add(cs_len);
                if begin.is_none() {
                    return false;
                }
                let ghost rv = records_view(self.records@);
                let rec = CsRecord {
                    buf_pos: self.frame_start,
                    algorithm,
                    cover_begin: begin.unwrap(),
                    cover_end: 0,
                    prepend: true,
                    cs_len,
                };
                self.records.push(rec);
                assert(records_view(self.records@) =~= rv.push(rec.view()));
                true
            },
            _ => {
                let offset: usize = match cover {
                    DecoderChecksumCover::AllPrior => 0,
                    DecoderChecksumCover::Range => match cover_start {
                        Some(c) => c as usize,
                        None => 0,
                    },
                };
                let begin = self.frame_start.checked_add(offset);
                if begin.is_none() {
                    return false;
                }
                let pos = self.buf.len();
                let ghost base = self.buf@;
                let mut j: usize = 0;
                assert(base + Seq::new(0, |k: int| 0u8) =~= base);
                while j < cs_len
                    invariant
                        j <= cs_len,
                        self.buf@ == base + Seq::new(j as nat, |k: int| 0u8),
                        self.lengths == old(self).lengths,
                        self.records == old(self).records,
                        self.frame_start == old(self).frame_start,
                        self.id_value == old(self).id_value,
                        base == old(self).buf@,
                    decreases cs_len - j,
                {
                    self.buf.push(0);
                    j = j + 1;
                    assert(self.buf@ =~= base + Seq::new(j as nat, |k: int| 0u8));
                }
                let ghost rv = records_view(self.records@);
                let rec = CsRecord {
                    buf_pos: pos,
                    algorithm,
                    cover_begin: begin.unwrap(),
                    cover_end: pos,
                    prepend: false,
                    cs_len,
                };
                self.records.push(rec);
                assert(records_view(self.records@) =~= rv.push(rec.view()));
                true
            },
        }
    }

    fn push_hex(&mut self, hex: &String)
        requires
            old(self).fits(),
        ensures
            final(self).fits(),
            final(self).view() == (EncodeState { buf: old(self).view().buf + parse_hex_spec(hex@), ..old(self).view() }),
    {
        let bytes = parse_hex(hex.as_str());
        self.buf.extend_from_slice(bytes.as_slice());
        assert(self.buf@ =~= old(self).buf@ + parse_hex_spec(hex@));
    }

    fn step(&mut self, b: &DecoderBlockDef, input: &BlockInput) -> (ok: bool)
        requires
            old(self).fits(),
        ensures
            final(self).fits(),
            ok ==> encode_step(old(self).view(), *b, *input) == final(self).view(),
            !ok ==> !encode_step(old(self).view(), *b, *input).ok,
    {
        match b {
            DecoderBlockDef::Header { hex, .. } => {
                self.push_hex(hex);
                self.frame_start = self.buf.len();
                true
            },
            DecoderBlockDef::Length { id, field_type, match_id, .. } => {
                if runs(*match_id, self.id_value) {
                    let v = match input {
                        BlockInput::Integer(v) => *v,
                        _ => 0,
                    };
                    push_int(&mut self.buf, *field_type, v);
                    let ghost lv = lengths_view(self.lengths@);
                    self.lengths.push((id.clone(), v));
                    assert(lengths_view(self.lengths@) =~= lv.push((id@, v)));
                }
                true
            },
            DecoderBlockDef::Id { field_type, .. } => {
                let v = match input {
                    BlockInput::Integer(v) => *v,
                    _ => 0,
                };
                push_int(&mut self.buf, *field_type, v);
                self.id_value = Some(v as i64);
                true
            },
            DecoderBlockDef::Field { field_type, length_ref, match_id, .. } => {
                if runs(*match_id, self.id_value) {
                    if *field_type == FieldType::Bytes {
                        self.step_bytes_field(length_ref, input);
                    } else {
                        let ghost before = self.buf@;
                        match input {
                            BlockInput::Encoded(v) => {
                                self.buf.extend_from_slice(v.as_slice());
                            },
                            _ => {},
                        }
                        assert(self.buf@ =~= before + input.encoded_value());
                    }
                }
                true
            },
            DecoderBlockDef::Bitfield { byte_offset, bit_offset, bit_length, match_id, .. } => {
                if runs(*match_id, self.id_value) {
                    self.step_bitfield(*byte_offset, *bit_offset, *bit_length, input)
                } else {
                    true
                }
            },
            DecoderBlockDef::Checksum { algorithm, cover, cover_start, position, match_id, .. } => {
                if runs(*match_id, self.id_value) {
                    self.step_checksum(*algorithm, *cover, *cover_start, *position)
                } else {
                    true
                }
            },
            DecoderBlockDef::Tail { hex, match_id, .. } => {
                if runs(*match_id, self.id_value) {
                    self.push_hex(hex);
                }
                true
            },
            _ => true,
        }
    }
}

impl FrameDecoderTestData {
    /// Encodes one frame from its blocks and the per-block values (`inputs[i]`
    /// belongs to `blocks[i]`): a first pass writes every block that runs
    /// (checksums as zero placeholders, prepended ones over the first bytes
    /// after the header), a second pass fills in the checksums in order.
    /// Returns the frame and the (position, length) of every checksum, or
    /// `None` when a block cannot be encoded or a checksum's covered range
    /// lies outside the frame.
    pub fn encode_blocks(blocks: &[DecoderBlockDef], inputs: &[BlockInput]) -> (r: Option<(Vec<u8>, Vec<(usize, usize)>)>)
        requires
            inputs@.len() == blocks@.len(),
        ensures
            match r {
                Some((b, cs)) => encoded_frame(blocks@, inputs@) == Some((b@, cs@)),
                None => encoded_frame(blocks@, inputs@) is None,
            },
    {
        let mut st = EncoderState {
            buf: Vec::new(),
            lengths: Vec::new(),
            records: Vec::new(),
            frame_start: 0,
            id_value: None,
        };
        assert(lengths_view(st.lengths@) =~= Seq::<(Seq<char>, u64)>::empty());
        assert(records_view(st.records@) =~= Seq::<ChecksumRecord>::empty());
        assert(st.buf@ =~= Seq::<u8>::empty());
        assert(st.view() == first_pass(blocks@, inputs@, 0));
        let mut i: usize = 0;
        while i < blocks.len()
            invariant
                i <= blocks@.len(),
                inputs@.len() == blocks@.len(),
                st.view() == first_pass(blocks@, inputs@, i as nat),
                st.fits(),
            decreases blocks.len() - i,
        {
            if !st.step(&blocks[i], &inputs[i]) {
                proof {
                    lemma_failure_persists(blocks@, inputs@, (i + 1) as nat, blocks@.len());
                }
                return None;
            }
            i = i + 1;
        }
        let EncoderState { mut buf, lengths: _, records, frame_start: _, id_value: _ } = st;
        if !fill_all(&mut buf, &records) {
            return None;
        }
        let cs = checksum_spans(&records);
        Some((buf, cs))
    }
}

impl FrameDecoderTestData {
    /// Corrupts an encoded frame so its checksum no longer matches while its
    /// layout stays intact: inverts the first byte of the last checksum, or,
    /// without a usable checksum, the last byte.
    pub fn corrupt_checksum(data: &mut Vec<u8>, cs_ranges: &[(usize, usize)])
        ensures
            ({
                let d = old(data)@;
                let n = cs_ranges@.len();
                if n > 0 && cs_ranges@[n - 1].1 > 0 && cs_ranges@[n - 1].0 < d.len() {
                    let p = cs_ranges@[n - 1].0 as int;
                    final(data)@ == d.update(p, !d[p])
                } else if d.len() > 0 {
                    final(data)@ == d.update(d.len() - 1, !d[d.len() - 1])
                } else {
                    final(data)@ == d
                }
            }),
    {
        let n = cs_ranges.len();
        if n > 0 && cs_ranges[n - 1].1 > 0 && cs_ranges[n - 1].0 < data.len() {
            let p = cs_ranges[n - 1].0;
            let b = data[p];
            data.set(p, !b);
        } else if data.len() > 0 {
            let p = data.len() - 1;
            let b = data[p];
            data.set(p, !b);
        }
    }
}

/// Second pass over all records; false when one covers bytes outside the frame.
fn fill_all(buf: &mut Vec<u8>, records: &Vec<CsRecord>) -> (ok: bool)
    requires
        records_fit(records_view(records@), old(buf)@.len()),
    ensures
        match second_pass(old(buf)@, records_view(records@), records@.len() as nat) {
            Some(b) => ok && final(buf)@ == b,
            None => !ok,
        },
{
    let ghost final_records = records_view(records@);
    let ghost first = buf@;
    let mut k: usize = 0;
    while k < records.len()
        invariant
            k <= records@.len(),
            final_records == records_view(records@),
            first == old(buf)@,
            records_fit(final_records, buf@.len()),
            second_pass(first, final_records, k as nat) == Some(buf@),
        decreases records.len() - k,
    {
        assert(final_records[k as int] == records@[k as int].view());
        if !fill_one(buf, &records[k]) {
            proof {
                lemma_second_pass_none(first, final_records, (k + 1) as nat, final_records.len());
            }
            return false;
        }
        k = k + 1;
    }
    true
}

/// (position, length) of every checksum record.
fn checksum_spans(records: &Vec<CsRecord>) -> (cs: Vec<(usize, usize)>)
    ensures
        cs@ == records_view(records@).map_values(
            |r: ChecksumRecord| (r.buf_pos as usize, r.cs_len as usize),
        ),
{
    let ghost rv = records_view(records@);
    let mut cs: Vec<(usize, usize)> = Vec::new();
    let mut m: usize = 0;
    while m < records.len()
        invariant
            m <= records@.len(),
            rv == records_view(records@),
            cs@ == rv.take(m as int).map_values(
                |r: ChecksumRecord| (r.buf_pos as usize, r.cs_len as usize),
            ),
        decreases records.len() - m,
    {
        cs.push((records[m].buf_pos, records[m].cs_len));
        m = m + 1;
        assert(cs@ =~= rv.take(m as int).map_values(
            |r: ChecksumRecord| (r.buf_pos as usize, r.cs_len as usize),
        ));
    }
    assert(rv.take(m as int) =~= rv);
    cs
}

proof fn lemma_second_pass_none(buf: Seq<u8>, records: Seq<ChecksumRecord>, k: nat, n: nat)
    requires
        k <= n,
        second_pass(buf, records, k) is None,
    ensures
        second_pass(buf, records, n) is None,
    decreases n - k,
{
    if k < n {
        lemma_second_pass_none(buf, records, k, (n - 1) as nat);
    }
}

/// Whether a frame-type condition lets a block run.
fn runs(match_id: Option<i64>, id_value: Option<i64>) -> (r: bool)
    ensures
        r == block_runs(match_id, id_value),
{
    match match_id {
        None => true,
        Some(m) => match id_value {
            Some(v) => v == m,
            None => false,
        },
    }
}

} // verus!
