//! Frame checksum algorithms: SUM / XOR / LRC / CRC-8 / CRC-16 (Modbus, CCITT) / CRC-32.

use vstd::prelude::*;

verus! {

/// Checksum algorithm used by frame decode / encode blocks.
#[derive(Debug, Clone, Copy, PartialEq, Eq, Structural)]
pub enum ChecksumAlgorithm {
    NoChecksum,
    Sum8,
    Xor8,
    Crc8,
    Crc16Modbus,
    Crc16CCITT,
    Crc32,
    Lrc,
    Custom,
}

// ---------------------------------------------------------------------------
// Specifications
// ---------------------------------------------------------------------------

/// Byte-wise sum modulo 256.
pub open spec fn sum8_spec(data: Seq<u8>) -> u8
    decreases data.len(),
{
    if data.len() == 0 {
        0
    } else {
        ((sum8_spec(data.drop_last()) + data.last()) % 256) as u8
    }
}

/// Byte-wise XOR.
pub open spec fn xor8_spec(data: Seq<u8>) -> u8
    decreases data.len(),
{
    if data.len() == 0 {
        0
    } else {
        xor8_spec(data.drop_last()) ^ data.last()
    }
}

/// Longitudinal redundancy check: zero minus every byte, modulo 256.
pub open spec fn lrc_spec(data: Seq<u8>) -> u8
    decreases data.len(),
{
    if data.len() == 0 {
        0
    } else {
        ((lrc_spec(data.drop_last()) - data.last() + 256) % 256) as u8
    }
}

/// One MSB-first CRC-8 shift step with polynomial `poly`.
pub open spec fn crc8_bit(c: u8, poly: u8) -> u8 {
    if c & 0x80 != 0 {
        (c << 1u8) ^ poly
    } else {
        c << 1u8
    }
}

/// `n` MSB-first CRC-8 shift steps.
pub open spec fn crc8_bits(c: u8, poly: u8, n: nat) -> u8
    decreases n,
{
    if n == 0 {
        c
    } else {
        crc8_bits(crc8_bit(c, poly), poly, (n - 1) as nat)
    }
}

/// CRC-8 register after feeding `data` (non-reflected, no final XOR).
pub open spec fn crc8_reg(data: Seq<u8>, poly: u8, init: u8) -> u8
    decreases data.len(),
{
    if data.len() == 0 {
        init
    } else {
        crc8_bits(crc8_reg(data.drop_last(), poly, init) ^ data.last(), poly, 8)
    }
}

/// One reflected CRC-16/Modbus shift step (polynomial 0x8005 reflected = 0xA001).
pub open spec fn modbus_bit(c: u16) -> u16 {
    if c & 1 != 0 {
        (c >> 1u16) ^ 0xA001
    } else {
        c >> 1u16
    }
}

pub open spec fn modbus_bits(c: u16, n: nat) -> u16
    decreases n,
{
    if n == 0 {
        c
    } else {
        modbus_bits(modbus_bit(c), (n - 1) as nat)
    }
}

/// CRC-16/Modbus of `data` (init 0xFFFF, reflected, no final XOR).
pub open spec fn crc16_modbus_spec(data: Seq<u8>) -> u16
    decreases data.len(),
{
    if data.len() == 0 {
        0xFFFF
    } else {
        modbus_bits(crc16_modbus_spec(data.drop_last()) ^ (data.last() as u16), 8)
    }
}

/// One MSB-first CRC-16/CCITT shift step (polynomial 0x1021).
pub open spec fn ccitt_bit(c: u16) -> u16 {
    if c & 0x8000 != 0 {
        (c << 1u16) ^ 0x1021
    } else {
        c << 1u16
    }
}

pub open spec fn ccitt_bits(c: u16, n: nat) -> u16
    decreases n,
{
    if n == 0 {
        c
    } else {
        ccitt_bits(ccitt_bit(c), (n - 1) as nat)
    }
}

/// CRC-16/CCITT-FALSE of `data` (init 0xFFFF, non-reflected, no final XOR).
pub open spec fn crc16_ccitt_spec(data: Seq<u8>) -> u16
    decreases data.len(),
{
    if data.len() == 0 {
        0xFFFF
    } else {
        ccitt_bits(crc16_ccitt_spec(data.drop_last()) ^ ((data.last() as u16) << 8u16), 8)
    }
}

/// One reflected CRC-32 shift step (polynomial 0x04C11DB7 reflected = 0xEDB88320).
pub open spec fn crc32_bit(c: u32) -> u32 {
    if c & 1 != 0 {
        (c >> 1u32) ^ 0xEDB88320
    } else {
        c >> 1u32
    }
}

pub open spec fn crc32_bits(c: u32, n: nat) -> u32
    decreases n,
{
    if n == 0 {
        c
    } else {
        crc32_bits(crc32_bit(c), (n - 1) as nat)
    }
}

/// CRC-32 register after feeding `data` (init 0xFFFFFFFF, reflected).
pub open spec fn crc32_reg(data: Seq<u8>) -> u32
    decreases data.len(),
{
    if data.len() == 0 {
        0xFFFF_FFFF
    } else {
        crc32_bits(crc32_reg(data.drop_last()) ^ (data.last() as u32), 8)
    }
}

/// CRC-32 (IEEE 802.3) of `data`: the register complemented.
pub open spec fn crc32_spec(data: Seq<u8>) -> u32 {
    !crc32_reg(data)
}

/// Little-endian bytes of a 16-bit value.
pub open spec fn u16_le(v: u16) -> Seq<u8> {
    seq![(v & 0xFF) as u8, (v >> 8u16) as u8]
}

/// Big-endian bytes of a 16-bit value.
pub open spec fn u16_be(v: u16) -> Seq<u8> {
    seq![(v >> 8u16) as u8, (v & 0xFF) as u8]
}

/// Little-endian bytes of a 32-bit value.
pub open spec fn u32_le(v: u32) -> Seq<u8> {
    seq![
        (v & 0xFF) as u8,
        ((v >> 8u32) & 0xFF) as u8,
        ((v >> 16u32) & 0xFF) as u8,
        (v >> 24u32) as u8,
    ]
}

impl ChecksumAlgorithm {
    /// The checksum bytes of `data` under this algorithm (empty for `None` and `Custom`).
    pub open spec fn checksum_of(self, data: Seq<u8>) -> Seq<u8> {
        match self {
            ChecksumAlgorithm::NoChecksum => Seq::empty(),
            ChecksumAlgorithm::Sum8 => seq![sum8_spec(data)],
            ChecksumAlgorithm::Xor8 => seq![xor8_spec(data)],
            ChecksumAlgorithm::Crc8 => seq![crc8_reg(data, 0x07, 0x00)],
            ChecksumAlgorithm::Crc16Modbus => u16_le(crc16_modbus_spec(data)),
            ChecksumAlgorithm::Crc16CCITT => u16_be(crc16_ccitt_spec(data)),
            ChecksumAlgorithm::Crc32 => u32_le(crc32_spec(data)),
            ChecksumAlgorithm::Lrc => seq![lrc_spec(data)],
            ChecksumAlgorithm::Custom => Seq::empty(),
        }
    }

    /// Number of checksum bytes this algorithm produces.
    pub open spec fn output_len(self) -> nat {
        match self {
            ChecksumAlgorithm::NoChecksum => 0,
            ChecksumAlgorithm::Sum8 | ChecksumAlgorithm::Xor8 | ChecksumAlgorithm::Crc8
            | ChecksumAlgorithm::Lrc => 1,
            ChecksumAlgorithm::Crc16Modbus | ChecksumAlgorithm::Crc16CCITT => 2,
            ChecksumAlgorithm::Crc32 => 4,
            ChecksumAlgorithm::Custom => 0,
        }
    }

    /// Outcome of a checksum comparison: algorithms without output always pass,
    /// the others pass exactly when the expected bytes equal the computed ones.
    pub open spec fn accepts(self, data: Seq<u8>, expected: Seq<u8>) -> bool {
        self.checksum_of(data).len() == 0 || self.checksum_of(data) == expected
    }
}

// ---------------------------------------------------------------------------
// Implementation
// ---------------------------------------------------------------------------

impl ChecksumAlgorithm {
    /// Computes the checksum bytes of `data`. `custom_script` is not evaluated
    /// (script checksums are computed elsewhere), so `Custom` yields no bytes.
    pub fn compute(self, data: &[u8], custom_script: Option<&str>) -> (r: Vec<u8>)
        ensures
            r@ == self.checksum_of(data@),
            r@.len() == self.output_len(),
    {
        let _ = custom_script;
        match self {
            ChecksumAlgorithm::NoChecksum => Vec::new(),
            ChecksumAlgorithm::Sum8 => {
                let s = sum8(data);
                let mut v = Vec::new();
                v.push(s);
                v
            },
            ChecksumAlgorithm::Xor8 => {
                let x = xor8(data);
                let mut v = Vec::new();
                v.push(x);
                v
            },
            ChecksumAlgorithm::Crc8 => {
                let c = crc8(data, 0x07, 0x00, 0x00);
                proof {
                    lemma_xor_zero(crc8_reg(data@, 0x07, 0x00));
                }
                let mut v = Vec::new();
                v.push(c);
                v
            },
            ChecksumAlgorithm::Crc16Modbus => {
                let c = crc16_modbus(data);
                let mut v = Vec::new();
                v.push((c & 0xFF) as u8);
                v.push((c >> 8u16) as u8);
                v
            },
            ChecksumAlgorithm::Crc16CCITT => {
                let c = crc16_ccitt(data);
                let mut v = Vec::new();
                v.push((c >> 8u16) as u8);
                v.push((c & 0xFF) as u8);
                v
            },
            ChecksumAlgorithm::Crc32 => {
                let c = crc32(data);
                let mut v = Vec::new();
                v.push((c & 0xFF) as u8);
                v.push(((c >> 8u32) & 0xFF) as u8);
                v.push(((c >> 16u32) & 0xFF) as u8);
                v.push((c >> 24u32) as u8);
                v
            },
            ChecksumAlgorithm::Lrc => {
                let l = lrc(data);
                let mut v = Vec::new();
                v.push(l);
                v
            },
            ChecksumAlgorithm::Custom => Vec::new(),
        }
    }

    /// Compares the computed checksum with `expected`; algorithms that produce
    /// no bytes (`None`, `Custom`) always pass.
    pub fn verify(self, data: &[u8], expected: &[u8], custom_script: Option<&str>) -> (r: bool)
        ensures
            r == self.accepts(data@, expected@),
    {
        let computed = self.compute(data, custom_script);
        if computed.len() == 0 {
            return true;
        }
        bytes_equal(computed.as_slice(), expected)
    }

    /// Number of bytes `compute` produces.
    pub fn byte_len(self) -> (n: usize)
        ensures
            n as nat == self.output_len(),
    {
        match self {
            ChecksumAlgorithm::NoChecksum => 0,
            ChecksumAlgorithm::Sum8 | ChecksumAlgorithm::Xor8 | ChecksumAlgorithm::Crc8
            | ChecksumAlgorithm::Lrc => 1,
            ChecksumAlgorithm::Crc16Modbus | ChecksumAlgorithm::Crc16CCITT => 2,
            ChecksumAlgorithm::Crc32 => 4,
            ChecksumAlgorithm::Custom => 0,
        }
    }
}

proof fn lemma_xor_zero(x: u8)
    ensures
        x ^ 0u8 == x,
{
    assert(x ^ 0u8 == x) by (bit_vector);
}

/// Byte-slice equality.
pub fn bytes_equal(a: &[u8], b: &[u8]) -> (r: bool)
    ensures
        r == (a@ == b@),
{
    if a.len() != b.len() {
        return false;
    }
    let mut i: usize = 0;
    while i < a.len()
        invariant
            a.len() == b.len(),
            i <= a.len(),
            forall|k: int| 0 <= k < i ==> a@[k] == b@[k],
        decreases a.len() - i,
    {
        if a[i] != b[i] {
            return false;
        }
        i = i + 1;
    }
    assert(a@ =~= b@);
    true
}

fn sum8(data: &[u8]) -> (r: u8)
    ensures
        r == sum8_spec(data@),
{
    let mut acc: u8 = 0;
    let mut i: usize = 0;
    while i < data.len()
        invariant
            i <= data.len(),
            acc == sum8_spec(data@.take(i as int)),
        decreases data.len() - i,
    {
        assert(data@.take(i + 1).drop_last() =~= data@.take(i as int));
        acc = acc.wrapping_add(data[i]);
        i = i + 1;
    }
    assert(data@.take(data.len() as int) =~= data@);
    acc
}

fn xor8(data: &[u8]) -> (r: u8)
    ensures
        r == xor8_spec(data@),
{
    let mut acc: u8 = 0;
    let mut i: usize = 0;
    while i < data.len()
        invariant
            i <= data.len(),
            acc == xor8_spec(data@.take(i as int)),
        decreases data.len() - i,
    {
        assert(data@.take(i + 1).drop_last() =~= data@.take(i as int));
        acc = acc ^ data[i];
        i = i + 1;
    }
    assert(data@.take(data.len() as int) =~= data@);
    acc
}

fn lrc(data: &[u8]) -> (r: u8)
    ensures
        r == lrc_spec(data@),
{
    let mut acc: u8 = 0;
    let mut i: usize = 0;
    while i < data.len()
        invariant
            i <= data.len(),
            acc == lrc_spec(data@.take(i as int)),
        decreases data.len() - i,
    {
        assert(data@.take(i + 1).drop_last() =~= data@.take(i as int));
        acc = acc.wrapping_sub(data[i]);
        i = i + 1;
    }
    assert(data@.take(data.len() as int) =~= data@);
    acc
}

/// CRC-8 with the given polynomial, initial value and final XOR (non-reflected).
fn crc8(data: &[u8], poly: u8, init: u8, xorout: u8) -> (r: u8)
    ensures
        r == crc8_reg(data@, poly, init) ^ xorout,
{
    let mut crc: u8 = init;
    let mut i: usize = 0;
    while i < data.len()
        invariant
            i <= data.len(),
            crc == crc8_reg(data@.take(i as int), poly, init),
        decreases data.len() - i,
    {
        assert(data@.take(i + 1).drop_last() =~= data@.take(i as int));
        crc = crc ^ data[i];
        let ghost start = crc;
        let mut k: usize = 0;
        while k < 8
            invariant
                k <= 8,
                crc8_bits(crc, poly, (8 - k) as nat) == crc8_bits(start, poly, 8),
            decreases 8 - k,
        {
            if crc & 0x80 != 0 {
                crc = (crc << 1u8) ^ poly;
            } else {
                crc = crc << 1u8;
            }
            k = k + 1;
        }
        i = i + 1;
    }
    assert(data@.take(data.len() as int) =~= data@);
    crc ^ xorout
}

/// CRC-16/Modbus (poly 0x8005 reflected, init 0xFFFF).
fn crc16_modbus(data: &[u8]) -> (r: u16)
    ensures
        r == crc16_modbus_spec(data@),
{
    let mut crc: u16 = 0xFFFF;
    let mut i: usize = 0;
    while i < data.len()
        invariant
            i <= data.len(),
            crc == crc16_modbus_spec(data@.take(i as int)),
        decreases data.len() - i,
    {
        assert(data@.take(i + 1).drop_last() =~= data@.take(i as int));
        crc = crc ^ (data[i] as u16);
        let ghost start = crc;
        let mut k: usize = 0;
        while k < 8
            invariant
                k <= 8,
                modbus_bits(crc, (8 - k) as nat) == modbus_bits(start, 8),
            decreases 8 - k,
        {
            if crc & 1 != 0 {
                crc = (crc >> 1u16) ^ 0xA001;
            } else {
                crc = crc >> 1u16;
            }
            k = k + 1;
        }
        i = i + 1;
    }
    assert(data@.take(data.len() as int) =~= data@);
    crc
}

/// CRC-16/CCITT-FALSE (poly 0x1021, init 0xFFFF).
fn crc16_ccitt(data: &[u8]) -> (r: u16)
    ensures
        r == crc16_ccitt_spec(data@),
{
    let mut crc: u16 = 0xFFFF;
    let mut i: usize = 0;
    while i < data.len()
        invariant
            i <= data.len(),
            crc == crc16_ccitt_spec(data@.take(i as int)),
        decreases data.len() - i,
    {
        assert(data@.take(i + 1).drop_last() =~= data@.take(i as int));
        crc = crc ^ ((data[i] as u16) << 8u16);
        let ghost start = crc;
        let mut k: usize = 0;
        while k < 8
            invariant
                k <= 8,
                ccitt_bits(crc, (8 - k) as nat) == ccitt_bits(start, 8),
            decreases 8 - k,
        {
            if crc & 0x8000 != 0 {
                crc = (crc << 1u16) ^ 0x1021;
            } else {
                crc = crc << 1u16;
            }
            k = k + 1;
        }
        i = i + 1;
    }
    assert(data@.take(data.len() as int) =~= data@);
    crc
}

/// CRC-32/IEEE 802.3 (poly 0x04C11DB7 reflected, init and final XOR 0xFFFFFFFF).
fn crc32(data: &[u8]) -> (r: u32)
    ensures
        r == crc32_spec(data@),
{
    let mut crc: u32 = 0xFFFF_FFFF;
    let mut i: usize = 0;
    while i < data.len()
        invariant
            i <= data.len(),
            crc == crc32_reg(data@.take(i as int)),
        decreases data.len() - i,
    {
        assert(data@.take(i + 1).drop_last() =~= data@.take(i as int));
        crc = crc ^ (data[i] as u32);
        let ghost start = crc;
        let mut k: usize = 0;
        while k < 8
            invariant
                k <= 8,
                crc32_bits(crc, (8 - k) as nat) == crc32_bits(start, 8),
            decreases 8 - k,
        {
            if crc & 1 != 0 {
                crc = (crc >> 1u32) ^ 0xEDB88320;
            } else {
                crc = crc >> 1u32;
            }
            k = k + 1;
        }
        i = i + 1;
    }
    assert(data@.take(data.len() as int) =~= data@);
    !crc
}


/// The checksum `compute` produces is accepted by `verify` on the same data,
/// and for algorithms that produce bytes every other byte string is refused.
pub proof fn lemma_verify_accepts_computed(alg: ChecksumAlgorithm, data: Seq<u8>, other: Seq<u8>)
    ensures
        alg.accepts(data, alg.checksum_of(data)),
        alg.output_len() > 0 && other != alg.checksum_of(data) ==> !alg.accepts(data, other),
{
    assert(alg.checksum_of(data).len() == alg.output_len());
}

/// SUM of a single byte is the byte, and SUM of two pieces is the sum of
/// their SUMs modulo 256.
pub proof fn lemma_sum8_additive(a: Seq<u8>, b: Seq<u8>, x: u8)
    ensures
        sum8_spec(seq![x]) == x,
        sum8_spec(a + b) == (sum8_spec(a) + sum8_spec(b)) % 256,
{
    let one = seq![x];
    assert(one.drop_last() =~= Seq::<u8>::empty());
    assert(one.last() == x);
    assert(sum8_spec(one) == ((sum8_spec(one.drop_last()) + x) % 256) as u8);
    lemma_sum8_concat(a, b);
}

proof fn lemma_sum8_concat(a: Seq<u8>, b: Seq<u8>)
    ensures
        sum8_spec(a + b) == (sum8_spec(a) + sum8_spec(b)) % 256,
    decreases b.len(),
{
    if b.len() == 0 {
        assert(a + b =~= a);
    } else {
        lemma_sum8_concat(a, b.drop_last());
        assert((a + b).drop_last() =~= a + b.drop_last());
        assert((a + b).last() == b.last());
        let (p, q, r) = (sum8_spec(a) as int, sum8_spec(b.drop_last()) as int, b.last() as int);
        assert(((p + q) % 256 + r) % 256 == (p + (q + r) % 256) % 256) by (nonlinear_arith)
            requires
                0 <= p < 256,
                0 <= q < 256,
                0 <= r < 256,
        ;
    }
}

/// XOR of a single byte is the byte, and XOR of two pieces is the XOR of
/// their XORs.
pub proof fn lemma_xor8_split(a: Seq<u8>, b: Seq<u8>, x: u8)
    ensures
        xor8_spec(seq![x]) == x,
        xor8_spec(a + b) == xor8_spec(a) ^ xor8_spec(b),
{
    let one = seq![x];
    assert(one.drop_last() =~= Seq::<u8>::empty());
    assert(one.last() == x);
    assert(0u8 ^ x == x) by (bit_vector);
    assert(xor8_spec(one) == xor8_spec(one.drop_last()) ^ x);
    lemma_xor8_concat(a, b);
}

proof fn lemma_xor8_concat(a: Seq<u8>, b: Seq<u8>)
    ensures
        xor8_spec(a + b) == xor8_spec(a) ^ xor8_spec(b),
    decreases b.len(),
{
    if b.len() == 0 {
        assert(a + b =~= a);
        let y = xor8_spec(a);
        assert(y ^ 0u8 == y) by (bit_vector);
    } else {
        lemma_xor8_concat(a, b.drop_last());
        assert((a + b).drop_last() =~= a + b.drop_last());
        assert((a + b).last() == b.last());
        let (p, q, r) = (xor8_spec(a), xor8_spec(b.drop_last()), b.last());
        assert((p ^ q) ^ r == p ^ (q ^ r)) by (bit_vector);
    }
}

/// Each CRC shift step feeds back its generator polynomial: flipping the
/// bit that is shifted out changes the next register by exactly the
/// polynomial (0xA001 for Modbus, 0x1021 for CCITT, 0xEDB88320 for CRC-32,
/// `poly` for CRC-8), and a step is linear in the register.
pub proof fn lemma_crc_step_polynomials(a: u16, b: u16, w: u32, x: u32, c: u8, d: u8, poly: u8)
    ensures
        modbus_bit(a) ^ modbus_bit(a ^ 1) == 0xA001,
        modbus_bit(a ^ b) == modbus_bit(a) ^ modbus_bit(b) ^ modbus_bit(0),
        ccitt_bit(a) ^ ccitt_bit(a ^ 0x8000) == 0x1021,
        ccitt_bit(a ^ b) == ccitt_bit(a) ^ ccitt_bit(b) ^ ccitt_bit(0),
        crc32_bit(w) ^ crc32_bit(w ^ 1) == 0xEDB88320,
        crc32_bit(w ^ x) == crc32_bit(w) ^ crc32_bit(x) ^ crc32_bit(0),
        crc8_bit(c, poly) ^ crc8_bit(c ^ 0x80, poly) == poly,
        crc8_bit(c ^ d, poly) == crc8_bit(c, poly) ^ crc8_bit(d, poly) ^ crc8_bit(0, poly),
{
    assert((if a & 1 != 0 { (a >> 1u16) ^ 0xA001 } else { a >> 1u16 }) ^ (if (a ^ 1) & 1 != 0 {
        ((a ^ 1) >> 1u16) ^ 0xA001
    } else {
        (a ^ 1) >> 1u16
    }) == 0xA001) by (bit_vector);
    assert((if (a ^ b) & 1 != 0 { ((a ^ b) >> 1u16) ^ 0xA001 } else { (a ^ b) >> 1u16 }) == (if a & 1
        != 0 {
        (a >> 1u16) ^ 0xA001
    } else {
        a >> 1u16
    }) ^ (if b & 1 != 0 { (b >> 1u16) ^ 0xA001 } else { b >> 1u16 }) ^ (if 0u16 & 1 != 0 {
        (0u16 >> 1u16) ^ 0xA001
    } else {
        0u16 >> 1u16
    })) by (bit_vector);
    assert((if a & 0x8000 != 0 { (a << 1u16) ^ 0x1021 } else { a << 1u16 }) ^ (if (a ^ 0x8000)
        & 0x8000 != 0 {
        ((a ^ 0x8000) << 1u16) ^ 0x1021
    } else {
        (a ^ 0x8000) << 1u16
    }) == 0x1021) by (bit_vector);
    assert((if (a ^ b) & 0x8000 != 0 { ((a ^ b) << 1u16) ^ 0x1021 } else { (a ^ b) << 1u16 }) == (if a
        & 0x8000 != 0 {
        (a << 1u16) ^ 0x1021
    } else {
        a << 1u16
    }) ^ (if b & 0x8000 != 0 { (b << 1u16) ^ 0x1021 } else { b << 1u16 }) ^ (if 0u16 & 0x8000 != 0 {
        (0u16 << 1u16) ^ 0x1021
    } else {
        0u16 << 1u16
    })) by (bit_vector);
    assert((if w & 1 != 0 { (w >> 1u32) ^ 0xEDB88320 } else { w >> 1u32 }) ^ (if (w ^ 1) & 1 != 0 {
        ((w ^ 1) >> 1u32) ^ 0xEDB88320
    } else {
        (w ^ 1) >> 1u32
    }) == 0xEDB88320) by (bit_vector);
    assert((if (w ^ x) & 1 != 0 { ((w ^ x) >> 1u32) ^ 0xEDB88320 } else { (w ^ x) >> 1u32 }) == (if w
        & 1 != 0 {
        (w >> 1u32) ^ 0xEDB88320
    } else {
        w >> 1u32
    }) ^ (if x & 1 != 0 { (x >> 1u32) ^ 0xEDB88320 } else { x >> 1u32 }) ^ (if 0u32 & 1 != 0 {
        (0u32 >> 1u32) ^ 0xEDB88320
    } else {
        0u32 >> 1u32
    })) by (bit_vector);
    assert((if c & 0x80 != 0 { (c << 1u8) ^ poly } else { c << 1u8 }) ^ (if (c ^ 0x80) & 0x80 != 0 {
        ((c ^ 0x80) << 1u8) ^ poly
    } else {
        (c ^ 0x80) << 1u8
    }) == poly) by (bit_vector);
    assert((if (c ^ d) & 0x80 != 0 { ((c ^ d) << 1u8) ^ poly } else { (c ^ d) << 1u8 }) == (if c & 0x80
        != 0 {
        (c << 1u8) ^ poly
    } else {
        c << 1u8
    }) ^ (if d & 0x80 != 0 { (d << 1u8) ^ poly } else { d << 1u8 }) ^ (if 0u8 & 0x80 != 0 {
        (0u8 << 1u8) ^ poly
    } else {
        0u8 << 1u8
    })) by (bit_vector);
}

/// The 16- and 32-bit checksums are laid out as their algorithms define:
/// Modbus and CRC-32 least significant byte first, CCITT most significant
/// byte first.
pub proof fn lemma_checksum_byte_order(v: u16, w: u32)
    ensures
        u16_le(v).len() == 2 && u16_le(v)[0] + 256 * u16_le(v)[1] == v,
        u16_be(v).len() == 2 && 256 * u16_be(v)[0] + u16_be(v)[1] == v,
        u32_le(w).len() == 4 && u32_le(w)[0] + 256 * u32_le(w)[1] + 65536 * u32_le(w)[2] + 16777216
            * u32_le(w)[3] == w,
{
    assert(((v & 0xFF) as u8) as u16 + 256 * ((v >> 8u16) as u8) as u16 == v) by (bit_vector);
    assert(((w & 0xFF) as u8) as u32 + 256 * (((w >> 8u32) & 0xFF) as u8) as u32 + 65536 * (((w
        >> 16u32) & 0xFF) as u8) as u32 + 16777216 * ((w >> 24u32) as u8) as u32 == w) by (bit_vector);
}

/// LRC is the two's complement of SUM: their sum is zero modulo 256.
pub proof fn lemma_lrc_plus_sum_zero(data: Seq<u8>)
    ensures
        (lrc_spec(data) + sum8_spec(data)) % 256 == 0,
    decreases data.len(),
{
    if data.len() > 0 {
        lemma_lrc_plus_sum_zero(data.drop_last());
        let a = lrc_spec(data.drop_last()) as int;
        let b = sum8_spec(data.drop_last()) as int;
        let x = data.last() as int;
        assert(a + b == 0 || a + b == 256);
        assert(lrc_spec(data) == (a - x + 256) % 256);
        assert(sum8_spec(data) == (b + x) % 256);
    }
}

} // verus!
