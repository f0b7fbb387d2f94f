//! Frame decode block definitions (field types, block kinds and their accessors).

use vstd::prelude::*;

use crate::checksum::ChecksumAlgorithm;
use crate::logic::LogicDecoderConfig;

verus! {

/// Numeric field encodings.
#[derive(Debug, Clone, Copy, PartialEq, Eq, Structural)]
pub enum FieldType {
    UInt8,
    Int8,
    UInt16LE,
    UInt16BE,
    Int16LE,
    Int16BE,
    UInt32LE,
    UInt32BE,
    Int32LE,
    Int32BE,
    Float32LE,
    Float32BE,
    /// Variable-length bytes (length taken from a length block).
    Bytes,
}

impl FieldType {
    pub open spec fn fixed_len(self) -> Option<usize> {
        match self {
            FieldType::UInt8 | FieldType::Int8 => Some(1),
            FieldType::UInt16LE | FieldType::UInt16BE | FieldType::Int16LE | FieldType::Int16BE => Some(2),
            FieldType::Bytes => None,
            _ => Some(4),
        }
    }

    /// Fixed byte length of the encoding (`None` for `Bytes`).
    pub fn byte_len(self) -> (r: Option<usize>)
        ensures
            r == self.fixed_len(),
    {
        match self {
            FieldType::UInt8 | FieldType::Int8 => Some(1),
            FieldType::UInt16LE | FieldType::UInt16BE | FieldType::Int16LE | FieldType::Int16BE => Some(2),
            FieldType::UInt32LE | FieldType::UInt32BE | FieldType::Int32LE | FieldType::Int32BE
            | FieldType::Float32LE | FieldType::Float32BE => Some(4),
            FieldType::Bytes => None,
        }
    }
}

/// What a field's bytes hold before conversion to a number: an unsigned or
/// signed integer, or the bit pattern of an IEEE-754 single.
#[derive(Debug, Clone, Copy, PartialEq, Eq, Structural)]
pub enum RawField {
    Unsigned(u32),
    Signed(i32),
    Float32Bits(u32),
}

/// Little-endian value of the first `n` bytes.
pub open spec fn uint_le(b: Seq<u8>, n: nat) -> nat
    decreases n,
{
    if n == 0 {
        0
    } else {
        (b[n - 1] as nat) * pow256((n - 1) as nat) + uint_le(b, (n - 1) as nat)
    }
}

/// Big-endian value of the first `n` bytes.
pub open spec fn uint_be(b: Seq<u8>, n: nat) -> nat
    decreases n,
{
    if n == 0 {
        0
    } else {
        uint_be(b, (n - 1) as nat) * 256 + (b[n - 1] as nat)
    }
}

/// 256 to the power `n`.
pub open spec fn pow256(n: nat) -> nat
    decreases n,
{
    if n == 0 {
        1
    } else {
        256 * pow256((n - 1) as nat)
    }
}

/// Two's-complement reading of an unsigned value of `bits` bits.
pub open spec fn signed_of(u: int, bits: nat) -> int {
    if u >= pow2(bits) / 2 {
        u - pow2(bits)
    } else {
        u
    }
}

/// 2 to the power `n`.
pub open spec fn pow2(n: nat) -> int
    decreases n,
{
    if n == 0 {
        1
    } else {
        2 * pow2((n - 1) as nat)
    }
}

/// Whether the field's bytes are read most significant first.
pub open spec fn big_endian(ft: FieldType) -> bool {
    match ft {
        FieldType::UInt16BE | FieldType::Int16BE | FieldType::UInt32BE | FieldType::Int32BE
        | FieldType::Float32BE => true,
        _ => false,
    }
}

/// Width in bytes of the value a field holds (`Bytes`: its first byte).
pub open spec fn value_width(ft: FieldType) -> nat {
    match ft {
        FieldType::UInt8 | FieldType::Int8 | FieldType::Bytes => 1,
        FieldType::UInt16LE | FieldType::UInt16BE | FieldType::Int16LE | FieldType::Int16BE => 2,
        _ => 4,
    }
}

/// Unsigned value of the field's leading bytes in its byte order.
pub open spec fn field_uint(ft: FieldType, b: Seq<u8>) -> nat {
    if big_endian(ft) {
        uint_be(b, value_width(ft))
    } else {
        uint_le(b, value_width(ft))
    }
}

/// The raw value a field reads from `b`; `None` when `b` is too short.
pub open spec fn raw_field(ft: FieldType, b: Seq<u8>) -> Option<RawField> {
    let w = value_width(ft);
    let u = field_uint(ft, b);
    if b.len() < w {
        None
    } else {
        match ft {
            FieldType::Int8 | FieldType::Int16LE | FieldType::Int16BE | FieldType::Int32LE
            | FieldType::Int32BE => Some(RawField::Signed(signed_of(u as int, 8 * w) as i32)),
            FieldType::Float32LE | FieldType::Float32BE => Some(RawField::Float32Bits(u as u32)),
            _ => Some(RawField::Unsigned(u as u32)),
        }
    }
}

/// The `w` bytes of `v` (taken modulo 256^w) in the field's byte order.
pub open spec fn field_bytes(ft: FieldType, v: nat) -> Seq<u8> {
    let w = value_width(ft);
    Seq::new(
        w,
        |i: int|
            {
                let k = if big_endian(ft) { w - 1 - i } else { i };
                ((v / pow256(k as nat)) % 256) as u8
            },
    )
}

pub(crate) proof fn lemma_pow_values()
    ensures
        pow256(0) == 1,
        pow256(1) == 256,
        pow256(2) == 65536,
        pow256(3) == 16777216,
        pow2(8) == 256,
        pow2(16) == 65536,
        pow2(32) == 4294967296,
{
    reveal_with_fuel(pow256, 4);
    reveal_with_fuel(pow2, 33);
}

pub(crate) proof fn lemma_uint_values(b: Seq<u8>)
    ensures
        uint_le(b, 1) == b[0] as nat,
        uint_be(b, 1) == b[0] as nat,
        uint_le(b, 2) == b[0] + 256 * b[1],
        uint_be(b, 2) == 256 * b[0] + b[1],
        uint_le(b, 4) == b[0] + 256 * b[1] + 65536 * b[2] + 16777216 * b[3],
        uint_be(b, 4) == 16777216 * b[0] + 65536 * b[1] + 256 * b[2] + b[3],
{
    lemma_pow_values();
    reveal_with_fuel(uint_le, 5);
    reveal_with_fuel(uint_be, 5);
    let (x0, x1, x2, x3) = (b[0] as nat, b[1] as nat, b[2] as nat, b[3] as nat);
    assert(x0 * pow256(0) == x0) by (nonlinear_arith)
        requires
            pow256(0) == 1,
    ;
    assert(x1 * pow256(1) == 256 * x1) by (nonlinear_arith)
        requires
            pow256(1) == 256,
    ;
    assert(x2 * pow256(2) == 65536 * x2) by (nonlinear_arith)
        requires
            pow256(2) == 65536,
    ;
    assert(x3 * pow256(3) == 16777216 * x3) by (nonlinear_arith)
        requires
            pow256(3) == 16777216,
    ;
}

/// Every fixed-width type is as long as the value it holds, and its encoding
/// has that many bytes; `Bytes` has no fixed length.
pub proof fn lemma_widths(ft: FieldType, v: nat)
    ensures
        ft is Bytes <==> ft.fixed_len() is None,
        !(ft is Bytes) ==> ft.fixed_len() == Some(value_width(ft) as usize),
        field_bytes(ft, v).len() == value_width(ft),
        value_width(ft) == 1 || value_width(ft) == 2 || value_width(ft) == 4,
{
}

/// Little-endian types read their first byte as the least significant one,
/// big-endian types as the most significant one.
pub proof fn lemma_byte_order_reads(b: Seq<u8>)
    requires
        b.len() >= 4,
    ensures
        field_uint(FieldType::UInt8, b) == b[0],
        field_uint(FieldType::Int8, b) == b[0],
        field_uint(FieldType::UInt16LE, b) == b[0] + 256 * b[1],
        field_uint(FieldType::Int16LE, b) == b[0] + 256 * b[1],
        field_uint(FieldType::UInt16BE, b) == 256 * b[0] + b[1],
        field_uint(FieldType::Int16BE, b) == 256 * b[0] + b[1],
        field_uint(FieldType::UInt32LE, b) == b[0] + 256 * b[1] + 65536 * b[2] + 16777216 * b[3],
        field_uint(FieldType::Int32LE, b) == b[0] + 256 * b[1] + 65536 * b[2] + 16777216 * b[3],
        field_uint(FieldType::Float32LE, b) == b[0] + 256 * b[1] + 65536 * b[2] + 16777216 * b[3],
        field_uint(FieldType::UInt32BE, b) == 16777216 * b[0] + 65536 * b[1] + 256 * b[2] + b[3],
        field_uint(FieldType::Int32BE, b) == 16777216 * b[0] + 65536 * b[1] + 256 * b[2] + b[3],
        field_uint(FieldType::Float32BE, b) == 16777216 * b[0] + 65536 * b[1] + 256 * b[2] + b[3],
{
    lemma_uint_values(b);
}

/// The two's-complement reading of an 8-, 16- or 32-bit value lies in the
/// signed range of that width and differs from the value by a multiple of
/// 2^width (it is the value itself below half the range).
pub proof fn lemma_signed_of_range(u: int, bits: nat)
    requires
        bits == 8 || bits == 16 || bits == 32,
        0 <= u < pow2(bits),
    ensures
        -(pow2(bits) / 2) <= signed_of(u, bits) < pow2(bits) / 2,
        signed_of(u, bits) == u || signed_of(u, bits) == u - pow2(bits),
        u < pow2(bits) / 2 ==> signed_of(u, bits) == u,
{
    lemma_pow_values();
}

impl FieldType {
    /// Reads the field's raw value from the leading bytes of `bytes` in the
    /// field's width and byte order (`Bytes`: the first byte); `None` when
    /// `bytes` is too short.
    pub fn decode_raw(self, bytes: &[u8]) -> (r: Option<RawField>)
        ensures
            r == raw_field(self, bytes@),
    {
        proof {
            lemma_pow_values();
            if bytes@.len() >= 4 {
                lemma_uint_values(bytes@);
            } else if bytes@.len() >= 2 {
                reveal_with_fuel(uint_le, 3);
                reveal_with_fuel(uint_be, 3);
            } else if bytes@.len() >= 1 {
                reveal_with_fuel(uint_le, 2);
                reveal_with_fuel(uint_be, 2);
            }
        }
        let n = bytes.len();
        match self {
            FieldType::UInt8 | FieldType::Bytes => {
                if n < 1 {
                    return None;
                }
                Some(RawField::Unsigned(bytes[0] as u32))
            },
            FieldType::Int8 => {
                if n < 1 {
                    return None;
                }
                let u = bytes[0] as i32;
                Some(RawField::Signed(if u >= 128 { u - 256 } else { u }))
            },
            FieldType::UInt16LE | FieldType::Int16LE | FieldType::UInt16BE | FieldType::Int16BE => {
                if n < 2 {
                    return None;
                }
                let u: u32 = if big_endian_exec(self) {
                    (bytes[0] as u32) * 256 + bytes[1] as u32
                } else {
                    bytes[0] as u32 + (bytes[1] as u32) * 256
                };
                match self {
                    FieldType::Int16LE | FieldType::Int16BE => {
                        let v = u as i32;
                        Some(RawField::Signed(if u >= 0x8000 { v - 0x10000 } else { v }))
                    },
                    _ => Some(RawField::Unsigned(u)),
                }
            },
            _ => {
                if n < 4 {
                    return None;
                }
                let u: u32 = if big_endian_exec(self) {
                    (bytes[0] as u32) * 16777216 + (bytes[1] as u32) * 65536 + (bytes[2] as u32) * 256
                        + bytes[3] as u32
                } else {
                    bytes[0] as u32 + (bytes[1] as u32) * 256 + (bytes[2] as u32) * 65536
                        + (bytes[3] as u32) * 16777216
                };
                match self {
                    FieldType::Int32LE | FieldType::Int32BE => {
                        let s: i32 = if u >= 0x8000_0000 {
                            ((u - 0x8000_0000) as i32) - 0x7FFF_FFFF - 1
                        } else {
                            u as i32
                        };
                        Some(RawField::Signed(s))
                    },
                    FieldType::Float32LE | FieldType::Float32BE => Some(RawField::Float32Bits(u)),
                    _ => Some(RawField::Unsigned(u)),
                }
            },
        }
    }

    /// Lays out the low `w` bytes of `value` in the field's width `w` and byte
    /// order (`Bytes`: one byte).
    pub fn encode_raw(self, value: u32) -> (r: Vec<u8>)
        ensures
            r@ == field_bytes(self, value as nat),
    {
        proof {
            lemma_pow_values();
        }
        let b0 = (value % 256) as u8;
        let b1 = (value / 256 % 256) as u8;
        let b2 = (value / 65536 % 256) as u8;
        let b3 = (value / 16777216 % 256) as u8;
        let r = match self {
            FieldType::UInt8 | FieldType::Int8 | FieldType::Bytes => vec![b0],
            FieldType::UInt16LE | FieldType::Int16LE => vec![b0, b1],
            FieldType::UInt16BE | FieldType::Int16BE => vec![b1, b0],
            FieldType::UInt32LE | FieldType::Int32LE | FieldType::Float32LE => vec![b0, b1, b2, b3],
            FieldType::UInt32BE | FieldType::Int32BE | FieldType::Float32BE => vec![b3, b2, b1, b0],
        };
        proof {
            let v = value as nat;
            assert(b0 == ((v / pow256(0)) % 256) as u8);
            assert(b1 == ((v / pow256(1)) % 256) as u8);
            assert(b2 == ((v / pow256(2)) % 256) as u8);
            assert(b3 == ((v / pow256(3)) % 256) as u8);
            let fb = field_bytes(self, v);
            assert forall|i: int| 0 <= i < r@.len() implies r@[i] == fb[i] by {
                if big_endian(self) {
                    assert(value_width(self) - 1 - i == 0 || value_width(self) - 1 - i == 1
                        || value_width(self) - 1 - i == 2 || value_width(self) - 1 - i == 3);
                }
            }
            assert(r@ =~= fb);
        }
        r
    }
}

/// Whether the field's bytes are read most significant first.
fn big_endian_exec(ft: FieldType) -> (r: bool)
    ensures
        r == big_endian(ft),
{
    match ft {
        FieldType::UInt16BE | FieldType::Int16BE | FieldType::UInt32BE | FieldType::Int32BE
        | FieldType::Float32BE => true,
        _ => false,
    }
}

/// Laying a value out in a field and reading it back gives the value (read
/// as two's complement for signed fields) when it fits the field's width.
pub proof fn lemma_field_roundtrip(ft: FieldType, v: u32)
    requires
        v < pow256(value_width(ft)),
    ensures
        raw_field(ft, field_bytes(ft, v as nat)) == Some(
            match ft {
                FieldType::Int8 | FieldType::Int16LE | FieldType::Int16BE | FieldType::Int32LE
                | FieldType::Int32BE => RawField::Signed(
                    signed_of(v as int, 8 * value_width(ft)) as i32,
                ),
                FieldType::Float32LE | FieldType::Float32BE => RawField::Float32Bits(v),
                _ => RawField::Unsigned(v),
            },
        ),
{
    let b = field_bytes(ft, v as nat);
    lemma_pow_values();
    reveal_with_fuel(uint_le, 5);
    reveal_with_fuel(uint_be, 5);
    let w = value_width(ft);
    if w == 1 {
        assert(b[0] == (v % 256) as u8);
        assert(field_uint(ft, b) == v);
    } else if w == 2 {
        if big_endian(ft) {
            assert(b[0] == (v / 256 % 256) as u8 && b[1] == (v % 256) as u8);
        } else {
            assert(b[0] == (v % 256) as u8 && b[1] == (v / 256 % 256) as u8);
        }
        assert(field_uint(ft, b) == v);
    } else {
        assert(w == 4);
        if big_endian(ft) {
            assert(b[0] == (v / 16777216 % 256) as u8 && b[1] == (v / 65536 % 256) as u8
                && b[2] == (v / 256 % 256) as u8 && b[3] == (v % 256) as u8);
        } else {
            assert(b[0] == (v % 256) as u8 && b[1] == (v / 256 % 256) as u8
                && b[2] == (v / 65536 % 256) as u8 && b[3] == (v / 16777216 % 256) as u8);
        }
        lemma_uint_values(b);
        assert(v == (v % 256) + 256 * ((v / 256) % 256) + 65536 * ((v / 65536) % 256) + 16777216 * ((
        v / 16777216) % 256)) by (bit_vector);
        assert(field_uint(ft, b) == v);
    }
}

/// Byte range covered by a checksum block.
#[derive(Debug, Clone, Copy, PartialEq, Eq, Structural)]
pub enum DecoderChecksumCover {
    /// Every byte from the frame start up to the checksum block.
    AllPrior,
    /// Offsets `[cover_start, cover_end)` after the header.
    Range,
}

/// Where the checksum bytes sit in the frame.
#[derive(Debug, Clone, Copy, PartialEq, Eq, Structural)]
pub enum DecoderChecksumPosition {
    Append,
    Inline,
    Prepend,
}

/// Unit of a length block: a byte count or a repeat count of following fields.
#[derive(Debug, Clone, Copy, PartialEq, Eq, Structural)]
pub enum LengthUnit {
    Bytes,
    Fields,
}

/// Radix of an ASCII field.
#[derive(Debug, Clone, Copy, PartialEq, Eq, Structural)]
pub enum AsciiBase {
    Hex,
    Dec,
}

/// One block of a frame layout.
#[derive(Debug, Clone, PartialEq, Eq)]
pub enum DecoderBlockDef {
    /// Fixed start-of-frame bytes (HEX text).
    Header { id: String, hex: String, match_id: Option<i64> },
    /// Length field.
    Length {
        id: String,
        field_type: FieldType,
        port_name: Option<String>,
        unit: Option<LengthUnit>,
        match_id: Option<i64>,
    },
    /// Frame-type id field; later blocks with a `match_id` run only when it matches.
    Id { id: String, field_type: FieldType, port_name: Option<String> },
    /// Data field decoded by `field_type`.
    Field {
        id: String,
        field_type: FieldType,
        port_name: String,
        length_ref: Option<String>,
        match_id: Option<i64>,
    },
    /// Bit field at a byte / bit offset after the header.
    Bitfield {
        id: String,
        byte_offset: u32,
        bit_offset: u8,
        bit_length: u8,
        is_signed: bool,
        port_name: String,
        match_id: Option<i64>,
    },
    /// Checksum over earlier bytes.
    Checksum {
        id: String,
        algorithm: ChecksumAlgorithm,
        custom_script: Option<String>,
        cover: DecoderChecksumCover,
        cover_start: Option<u32>,
        cover_end: Option<u32>,
        position: DecoderChecksumPosition,
        match_id: Option<i64>,
    },
    /// Fixed end-of-frame bytes (HEX text).
    Tail { id: String, hex: String, match_id: Option<i64> },
    /// Separator-delimited text line, one column per port.
    Csv { separator: String, ports: Vec<String> },
    /// Fixed-width ASCII number.
    AsciiField { port_name: String, base: AsciiBase, digits: usize },
    /// Logic-analyzer sample stream handed to a protocol decoder.
    Samples { decoder: LogicDecoderConfig },
}

impl DecoderBlockDef {
    /// Block id (empty for Csv / AsciiField / Samples, which have none).
    pub open spec fn id_spec(self) -> Seq<char> {
        match self {
            DecoderBlockDef::Header { id, .. } => id@,
            DecoderBlockDef::Length { id, .. } => id@,
            DecoderBlockDef::Id { id, .. } => id@,
            DecoderBlockDef::Field { id, .. } => id@,
            DecoderBlockDef::Bitfield { id, .. } => id@,
            DecoderBlockDef::Checksum { id, .. } => id@,
            DecoderBlockDef::Tail { id, .. } => id@,
            _ => Seq::empty(),
        }
    }

    /// Frame-type condition of the block (none for Id and the text / sample blocks).
    pub open spec fn match_id_spec(self) -> Option<i64> {
        match self {
            DecoderBlockDef::Header { match_id, .. } => match_id,
            DecoderBlockDef::Length { match_id, .. } => match_id,
            DecoderBlockDef::Field { match_id, .. } => match_id,
            DecoderBlockDef::Bitfield { match_id, .. } => match_id,
            DecoderBlockDef::Checksum { match_id, .. } => match_id,
            DecoderBlockDef::Tail { match_id, .. } => match_id,
            _ => None,
        }
    }

    /// Single output port: Length defaults to "length", Id to "id_value".
    pub open spec fn output_port_spec(self) -> Option<Seq<char>> {
        match self {
            DecoderBlockDef::Length { port_name, .. } => Some(
                match port_name {
                    Some(p) => p@,
                    None => seq!['l', 'e', 'n', 'g', 't', 'h'],
                },
            ),
            DecoderBlockDef::Id { port_name, .. } => Some(
                match port_name {
                    Some(p) => p@,
                    None => seq!['i', 'd', '_', 'v', 'a', 'l', 'u', 'e'],
                },
            ),
            DecoderBlockDef::Field { port_name, .. } => Some(port_name@),
            DecoderBlockDef::Bitfield { port_name, .. } => Some(port_name@),
            DecoderBlockDef::AsciiField { port_name, .. } => Some(port_name@),
            _ => None,
        }
    }

    /// The block id.
    pub fn id(&self) -> (r: &str)
        ensures
            r@ == self.id_spec(),
    {
        match self {
            DecoderBlockDef::Header { id, .. } => id.as_str(),
            DecoderBlockDef::Length { id, .. } => id.as_str(),
            DecoderBlockDef::Id { id, .. } => id.as_str(),
            DecoderBlockDef::Field { id, .. } => id.as_str(),
            DecoderBlockDef::Bitfield { id, .. } => id.as_str(),
            DecoderBlockDef::Checksum { id, .. } => id.as_str(),
            DecoderBlockDef::Tail { id, .. } => id.as_str(),
            _ => {
                proof {
                    reveal_strlit("");
                }
                ""
            },
        }
    }

    /// The block's frame-type condition.
    pub fn match_id(&self) -> (r: Option<i64>)
        ensures
            r == self.match_id_spec(),
    {
        match self {
            DecoderBlockDef::Header { match_id, .. } => *match_id,
            DecoderBlockDef::Length { match_id, .. } => *match_id,
            DecoderBlockDef::Field { match_id, .. } => *match_id,
            DecoderBlockDef::Bitfield { match_id, .. } => *match_id,
            DecoderBlockDef::Checksum { match_id, .. } => *match_id,
            DecoderBlockDef::Tail { match_id, .. } => *match_id,
            _ => None,
        }
    }

    /// The block's single output port name.
    pub fn output_port_name(&self) -> (r: Option<&str>)
        ensures
            match r {
                Some(s) => self.output_port_spec() == Some(s@),
                None => self.output_port_spec() is None,
            },
    {
        match self {
            DecoderBlockDef::Length { port_name, .. } => match port_name {
                Some(p) => Some(p.as_str()),
                None => {
                    proof {
                        reveal_strlit("length");
                    }
                    Some("length")
                },
            },
            DecoderBlockDef::Id { port_name, .. } => match port_name {
                Some(p) => Some(p.as_str()),
                None => {
                    proof {
                        reveal_strlit("id_value");
                    }
                    Some("id_value")
                },
            },
            DecoderBlockDef::Field { port_name, .. } => Some(port_name.as_str()),
            DecoderBlockDef::Bitfield { port_name, .. } => Some(port_name.as_str()),
            DecoderBlockDef::AsciiField { port_name, .. } => Some(port_name.as_str()),
            _ => None,
        }
    }
}

} // verus!
