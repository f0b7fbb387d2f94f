//! Raw byte collector: fixed-capacity chunk history read through absolute
//! cursors, without consuming.

use vstd::prelude::*;

use std::collections::VecDeque;

use base64::Engine;

use crate::raw_filter::{chunk_matches, chunk_verdict, DirectionFilter, SearchPattern};

verus! {

/// Direction of raw data.
#[derive(Debug, Clone, Copy, PartialEq, Eq, Structural)]
pub enum RawDataDirection {
    /// Received.
    Rx,
    /// Sent.
    Tx,
}

impl Default for RawDataDirection {
    /// Received.
    fn default() -> (r: Self)
        ensures
            r == RawDataDirection::Rx,
    {
        RawDataDirection::Rx
    }
}

/// Raw chunk on the wire: its bytes travel as base64 text.
#[derive(Debug, Clone)]
pub struct RawDataChunk {
    pub timestamp_us: u64,
    pub direction: RawDataDirection,
    /// Base64 (standard alphabet, padded) of the raw bytes.
    pub bytes_b64: String,
}

/// Batch of raw chunks.
#[derive(Debug, Clone)]
pub struct RawDataBatch {
    /// Sequence number, assigned by the dispatcher when the batch is sent.
    pub seq: u64,
    pub chunks: Vec<RawDataChunk>,
    pub total_bytes: u64,
    pub dropped_bytes: u64,
}

/// Stored chunk (raw bytes, not encoded).
#[derive(Debug, Clone)]
pub(crate) struct StoredChunk {
    pub(crate) timestamp_us: u64,
    pub(crate) direction: RawDataDirection,
    pub(crate) bytes: Vec<u8>,
}

/// Chunk as a mathematical value: timestamp, direction and bytes.
pub type ChunkView = (u64, RawDataDirection, Seq<u8>);

impl StoredChunk {
    pub(crate) open spec fn view(&self) -> ChunkView {
        (self.timestamp_us, self.direction, self.bytes@)
    }
}

/// Unencoded chunks plus a snapshot of the counters; encoding happens in
/// [`RawDrain::into_batch`].
#[derive(Debug)]
pub struct RawDrain {
    /// (timestamp_us, direction, bytes)
    pub chunks: Vec<(u64, RawDataDirection, Vec<u8>)>,
    pub total_bytes: u64,
    pub dropped_bytes: u64,
}

/// Character of a 6-bit value in the standard base64 alphabet
/// (`A`-`Z`, `a`-`z`, `0`-`9`, `+`, `/`).
pub open spec fn base64_char(v: int) -> char {
    if v < 26 {
        ('A' as int + v) as char
    } else if v < 52 {
        ('a' as int + v - 26) as char
    } else if v < 62 {
        ('0' as int + v - 52) as char
    } else if v == 62 {
        '+'
    } else {
        '/'
    }
}

/// Standard padded base64 text of `bytes` (RFC 4648): every 3 bytes become
/// 4 characters; a final group of 1 or 2 bytes is padded with `=`.
pub open spec fn base64_standard(bytes: Seq<u8>) -> Seq<char>
    decreases bytes.len(),
{
    if bytes.len() == 0 {
        Seq::empty()
    } else {
        let b0 = bytes[0] as int;
        let b1 = if bytes.len() > 1 { bytes[1] as int } else { 0 };
        let b2 = if bytes.len() > 2 { bytes[2] as int } else { 0 };
        let c0 = base64_char(b0 / 4);
        let c1 = base64_char((b0 % 4) * 16 + b1 / 16);
        let c2 = if bytes.len() > 1 { base64_char((b1 % 16) * 4 + b2 / 64) } else { '=' };
        let c3 = if bytes.len() > 2 { base64_char(b2 % 64) } else { '=' };
        if bytes.len() <= 3 {
            seq![c0, c1, c2, c3]
        } else {
            seq![c0, c1, c2, c3] + base64_standard(bytes.skip(3))
        }
    }
}

/// Length of padded base64 output for `n` input bytes.
pub open spec fn base64_len(n: nat) -> nat {
    (n / 3) * 4 + if n % 3 > 0 {
        4nat
    } else {
        0nat
    }
}

/// Standard base64 text has 4 characters for every started group of 3 bytes.
pub proof fn lemma_base64_length(bytes: Seq<u8>)
    ensures
        base64_standard(bytes).len() == base64_len(bytes.len()),
    decreases bytes.len(),
{
    if bytes.len() > 3 {
        lemma_base64_length(bytes.skip(3));
    }
}

/// Calls `base64::engine::general_purpose::STANDARD.encode`. Claimed: the
/// result is the standard padded base64 text of `bytes` (standard alphabet,
/// `=` padding); the input excludes sizes whose output length overflows
/// `usize` (the call panics there).
#[verifier::external_body]
fn base64_encode(bytes: &[u8]) -> (r: String)
    requires
        base64_len(bytes@.len()) <= usize::MAX,
    ensures
        r@ == base64_standard(bytes@),
{
    base64::engine::general_purpose::STANDARD.encode(bytes)
}

/// Wire chunk built from a drained chunk.
pub open spec fn encoded_chunk(c: RawDataChunk, src: (u64, RawDataDirection, Vec<u8>)) -> bool {
    &&& c.timestamp_us == src.0
    &&& c.direction == src.1
    &&& c.bytes_b64@ == base64_standard(src.2@)
}

impl RawDrain {
    /// Encodes into a wire batch: every chunk's bytes become base64 text,
    /// the counters are copied, and `seq` is left 0 for the dispatcher.
    pub fn into_batch(self) -> (r: RawDataBatch)
        requires
            forall|i: int|
                0 <= i < self.chunks@.len() ==> base64_len(#[trigger] self.chunks@[i].2@.len())
                    <= usize::MAX,
        ensures
            r.seq == 0,
            r.total_bytes == self.total_bytes,
            r.dropped_bytes == self.dropped_bytes,
            r.chunks@.len() == self.chunks@.len(),
            forall|i: int|
                0 <= i < r.chunks@.len() ==> encoded_chunk(#[trigger] r.chunks@[i], self.chunks@[i]),
    {
        let mut out: Vec<RawDataChunk> = Vec::new();
        let mut i: usize = 0;
        while i < self.chunks.len()
            invariant
                i <= self.chunks@.len(),
                out@.len() == i,
                forall|k: int|
                    0 <= k < self.chunks@.len() ==> base64_len(#[trigger] self.chunks@[k].2@.len())
                        <= usize::MAX,
                forall|k: int| 0 <= k < i ==> encoded_chunk(#[trigger] out@[k], self.chunks@[k]),
            decreases self.chunks.len() - i,
        {
            let (timestamp_us, direction, ref bytes) = self.chunks[i];
            let b64 = base64_encode(bytes.as_slice());
            out.push(RawDataChunk { timestamp_us, direction, bytes_b64: b64 });
            i = i + 1;
        }
        RawDataBatch {
            seq: 0,
            chunks: out,
            total_bytes: self.total_bytes,
            dropped_bytes: self.dropped_bytes,
        }
    }
}

// ---------------------------------------------------------------------------
// Collector specification
// ---------------------------------------------------------------------------

/// Total number of bytes in a chunk sequence.
pub open spec fn byte_sum(s: Seq<ChunkView>) -> nat
    decreases s.len(),
{
    if s.len() == 0 {
        0
    } else {
        byte_sum(s.drop_last()) + s.last().2.len()
    }
}

/// Number of oldest chunks dropped so that the rest fits in `cap` bytes.
pub open spec fn evict_count(s: Seq<ChunkView>, cap: nat) -> nat
    decreases s.len(),
{
    if s.len() == 0 || byte_sum(s) <= cap {
        0
    } else {
        1 + evict_count(s.skip(1), cap)
    }
}

/// `a + b`, saturating at `usize::MAX`.
pub open spec fn sat_add(a: int, b: int) -> int {
    if a + b > usize::MAX {
        usize::MAX as int
    } else {
        a + b
    }
}

/// Chunks a read still takes after `acc` bytes: it stops before the chunk
/// that would bring the running byte count above `max`.
pub open spec fn more_taken(s: Seq<ChunkView>, max: int, acc: int) -> nat
    decreases s.len(),
{
    if s.len() == 0 || sat_add(acc, s[0].2.len() as int) > max {
        0
    } else {
        1 + more_taken(s.skip(1), max, sat_add(acc, s[0].2.len() as int))
    }
}

/// Chunks a read of at most `max` bytes takes: whole chunks only, in order,
/// stopping before the first one that would exceed `max`.
pub open spec fn read_count(s: Seq<ChunkView>, max: int) -> nat {
    more_taken(s, max, 0)
}

/// Filtered read over `s`: the matching chunks and the number of chunks
/// scanned. Every scanned chunk counts toward `max`; the scan stops before the
/// first chunk that would exceed it.
pub open spec fn filtered_scan(
    s: Seq<ChunkView>,
    max: int,
    acc: int,
    tail: Seq<u8>,
    direction: DirectionFilter,
    pattern: Option<Seq<u8>>,
) -> (Seq<ChunkView>, nat)
    decreases s.len(),
{
    if s.len() == 0 {
        (Seq::empty(), 0)
    } else {
        let next_acc = sat_add(acc, s[0].2.len() as int);
        if next_acc > max {
            (Seq::empty(), 0)
        } else {
            let v = chunk_verdict(s[0], direction, pattern, tail);
            let next_tail = if direction.accepts(s[0].1) {
                v.1
            } else {
                tail
            };
            let rest = filtered_scan(
                s.skip(1),
                max,
                next_acc,
                next_tail,
                direction,
                pattern,
            );
            (
                if v.0 {
                    seq![s[0]] + rest.0
                } else {
                    rest.0
                },
                rest.1 + 1,
            )
        }
    }
}

/// Views of returned chunk tuples.
pub open spec fn tuple_views(v: Seq<(u64, RawDataDirection, Vec<u8>)>) -> Seq<ChunkView> {
    v.map_values(|t: (u64, RawDataDirection, Vec<u8>)| (t.0, t.1, t.2@))
}

proof fn lemma_byte_sum_append(a: Seq<ChunkView>, b: Seq<ChunkView>)
    ensures
        byte_sum(a + b) == byte_sum(a) + byte_sum(b),
    decreases b.len(),
{
    if b.len() == 0 {
        assert(a + b =~= a);
    } else {
        lemma_byte_sum_append(a, b.drop_last());
        assert((a + b).drop_last() =~= a + b.drop_last());
    }
}

proof fn lemma_byte_sum_front(s: Seq<ChunkView>)
    requires
        s.len() > 0,
    ensures
        byte_sum(s) == s[0].2.len() + byte_sum(s.skip(1)),
{
    lemma_byte_sum_append(seq![s[0]], s.skip(1));
    assert(seq![s[0]] + s.skip(1) =~= s);
    assert(seq![s[0]].drop_last() =~= Seq::<ChunkView>::empty());
    assert(byte_sum(seq![s[0]]) == byte_sum(Seq::<ChunkView>::empty()) + s[0].2.len());
}

/// Fixed-capacity chunk history with absolute indices: when the stored bytes
/// exceed the capacity the oldest chunks are dropped and `base_index` advances.
#[derive(Debug, Clone)]
pub struct RawDataCollector {
    chunks: VecDeque<StoredChunk>,
    capacity: usize,
    stored: usize,
    total_bytes: u64,
    dropped_bytes: u64,
    base_index: usize,
}

impl RawDataCollector {
    /// Default capacity: 1 MiB.
    pub const DEFAULT_CAPACITY: usize = 1_048_576;

    /// Stored chunks, oldest first; the first has absolute index `base_spec()`.
    pub closed spec fn view(&self) -> Seq<ChunkView> {
        self.chunks@.map_values(|c: StoredChunk| c.view())
    }

    pub closed spec fn capacity_spec(&self) -> nat {
        self.capacity as nat
    }

    pub closed spec fn base_spec(&self) -> nat {
        self.base_index as nat
    }

    pub closed spec fn stored_spec(&self) -> nat {
        self.stored as nat
    }

    pub closed spec fn total_spec(&self) -> nat {
        self.total_bytes as nat
    }

    pub closed spec fn dropped_spec(&self) -> nat {
        self.dropped_bytes as nat
    }

    /// Representation invariant: the byte counter matches the chunks, fits the
    /// capacity, and every byte ever written is either stored or dropped.
    pub closed spec fn well_formed(&self) -> bool {
        &&& self.capacity >= 1
        &&& self.stored as nat == byte_sum(self.view())
        &&& self.stored <= self.capacity
        &&& self.total_bytes == self.dropped_bytes + self.stored
        &&& self.base_index + self.chunks@.len() <= usize::MAX
    }

    /// Chunks from absolute index `index` on (clamped to the oldest stored one).
    pub open spec fn from_index(&self, index: usize) -> Seq<ChunkView> {
        let rel = if index >= self.base_spec() {
            index - self.base_spec()
        } else {
            0
        };
        if rel <= self.view().len() {
            self.view().skip(rel)
        } else {
            Seq::empty()
        }
    }

    /// Absolute index a read from `index` starts at.
    pub open spec fn read_start(&self, index: usize) -> nat {
        if index >= self.base_spec() {
            index as nat
        } else {
            self.base_spec()
        }
    }

    /// Collector with the default capacity.
    pub fn new() -> (r: Self)
        ensures
            r.well_formed(),
            r@ == Seq::<ChunkView>::empty(),
            r.capacity_spec() == Self::DEFAULT_CAPACITY,
            r.base_spec() == 0 && r.total_spec() == 0 && r.dropped_spec() == 0,
            is_fresh(r),
    {
        Self::with_capacity(Self::DEFAULT_CAPACITY)
    }

    /// Collector holding up to `capacity` bytes (at least 1).
    pub fn with_capacity(capacity: usize) -> (r: Self)
        ensures
            r.well_formed(),
            r@ == Seq::<ChunkView>::empty(),
            r.capacity_spec() == (if capacity >= 1 { capacity as nat } else { 1 }),
            r.base_spec() == 0 && r.total_spec() == 0 && r.dropped_spec() == 0,
            is_fresh(r),
    {
        let cap = if capacity >= 1 { capacity } else { 1 };
        let r = RawDataCollector {
            chunks: VecDeque::new(),
            capacity: cap,
            stored: 0,
            total_bytes: 0,
            dropped_bytes: 0,
            base_index: 0,
        };
        assert(r@ =~= Seq::<ChunkView>::empty());
        r
    }

    /// Drops oldest chunks until the stored bytes fit the capacity.
    fn evict(&mut self)
        requires
            old(self).capacity >= 1,
            old(self).stored as nat == byte_sum(old(self)@),
            old(self).total_bytes == old(self).dropped_bytes + old(self).stored,
            old(self).base_index + old(self)@.len() <= usize::MAX,
        ensures
            final(self).well_formed(),
            final(self).capacity == old(self).capacity,
            final(self).total_bytes == old(self).total_bytes,
            final(self)@ == old(self)@.skip(evict_count(old(self)@, old(self).capacity as nat) as int),
            final(self).base_index == old(self).base_index + evict_count(
                old(self)@,
                old(self).capacity as nat,
            ),
            final(self).dropped_bytes == old(self).dropped_bytes + byte_sum(
                old(self)@.take(evict_count(old(self)@, old(self).capacity as nat) as int),
            ),
    {
        let ghost orig = self@;
        let ghost cap = self.capacity as nat;
        let ghost mut k: int = 0;
        assert(orig.skip(0) =~= orig);
        assert(orig.take(0) =~= Seq::<ChunkView>::empty());
        while self.stored > self.capacity && self.chunks.len() > 0
            invariant
                self.capacity as nat == cap,
                cap >= 1,
                0 <= k <= orig.len(),
                self@ == orig.skip(k),
                evict_count(self@, cap) + k == evict_count(orig, cap),
                self.stored as nat == byte_sum(self@),
                self.total_bytes == old(self).total_bytes,
                self.total_bytes == self.dropped_bytes + self.stored,
                self.dropped_bytes == old(self).dropped_bytes + byte_sum(orig.take(k)),
                self.base_index == old(self).base_index + k,
                old(self).base_index + orig.len() <= usize::MAX,
            decreases self.chunks.len(),
        {
            let ghost cur = self@;
            proof {
                lemma_byte_sum_front(cur);
                assert(cur[0] == orig[k]);
                assert(orig.take(k + 1).drop_last() =~= orig.take(k));
            }
            let front = self.chunks.pop_front().unwrap();
            let n = front.bytes.len();
            assert(n == cur[0].2.len());
            self.stored = self.stored - n;
            self.dropped_bytes = self.dropped_bytes + n as u64;
            self.base_index = self.base_index + 1;
            proof {
                k = k + 1;
                assert(self@ =~= cur.skip(1));
                assert(cur.skip(1) =~= orig.skip(k));
            }
        }
        proof {
            if self.chunks@.len() == 0 {
                assert(self@.len() == 0);
            }
        }
    }

    /// Appends a chunk, then drops the oldest chunks while the stored bytes
    /// exceed the capacity (advancing `base_index` once per dropped chunk).
    pub fn push_chunk(&mut self, timestamp_us: u64, direction: RawDataDirection, bytes: &[u8])
        requires
            old(self).well_formed(),
            old(self).total_spec() + bytes@.len() <= u64::MAX,
            old(self).stored_spec() + bytes@.len() <= usize::MAX,
            old(self).base_spec() + old(self)@.len() + 1 <= usize::MAX,
        ensures
            final(self).well_formed(),
            ({
                let s = old(self)@.push((timestamp_us, direction, bytes@));
                let d = evict_count(s, old(self).capacity_spec());
                &&& final(self)@ == s.skip(d as int)
                &&& final(self).base_spec() == old(self).base_spec() + d
                &&& final(self).dropped_spec() == old(self).dropped_spec() + byte_sum(s.take(d as int))
            }),
            final(self).total_spec() == old(self).total_spec() + bytes@.len(),
            final(self).capacity_spec() == old(self).capacity_spec(),
            final(self).base_spec() + final(self)@.len() == old(self).base_spec() + old(self)@.len() + 1,
            step_post(*old(self), *final(self), CollectorStep::Push(bytes@.len() as usize)),
    {
        let ghost s = self@.push((timestamp_us, direction, bytes@));
        proof {
            lemma_evict_count_bound(s, self.capacity as nat);
        }
        let n = bytes.len();
        let mut copy: Vec<u8> = Vec::new();
        copy.extend_from_slice(bytes);
        assert(copy@ =~= bytes@);
        self.total_bytes = self.total_bytes + n as u64;
        self.stored = self.stored + n;
        self.chunks.push_back(StoredChunk { timestamp_us, direction, bytes: copy });
        proof {
            assert(self@ =~= s);
            assert(s.drop_last() =~= old(self)@);
        }
        self.evict();
    }

    /// Read-only read from absolute index `start_index` (moved up to the oldest
    /// stored chunk): whole chunks while their total stays within `max_bytes`.
    /// Returns the chunks and the index to read from next. A chunk longer than
    /// `max_bytes` is never returned: a read that reaches it stops there, and
    /// the returned index stays on it.
    pub fn read_from(&self, start_index: usize, max_bytes: usize) -> (r: (
        Vec<(u64, RawDataDirection, Vec<u8>)>,
        usize,
    ))
        requires
            self.well_formed(),
        ensures
            ({
                let rest = self.from_index(start_index);
                let n = read_count(rest, max_bytes as int);
                &&& tuple_views(r.0@) == rest.take(n as int)
                &&& r.1 == self.read_start(start_index) + n
            }),
    {
        let start = if start_index > self.base_index { start_index } else { self.base_index };
        let rel = start - self.base_index;
        let len = self.chunks.len();
        let ghost rest = self.from_index(start_index);
        let mut result: Vec<(u64, RawDataDirection, Vec<u8>)> = Vec::new();
        if rel >= len {
            assert(rest.len() == 0);
            assert(tuple_views(result@) =~= rest.take(0));
            return (result, start);
        }
        let mut acc: usize = 0;
        let mut next = start;
        let mut i: usize = rel;
        assert(rest.take(0) =~= Seq::<ChunkView>::empty());
        assert(tuple_views(result@) =~= Seq::<ChunkView>::empty());
        assert(rest.skip(0) =~= rest);
        while i < len
            invariant_except_break
                rel <= i <= len,
                len == self.chunks@.len(),
                self@.len() == len,
                rest == self@.skip(rel as int),
                next == start + (i - rel),
                start + (len - rel) <= usize::MAX,
                tuple_views(result@) == rest.take(i - rel),
                result@.len() == i - rel,
                read_count(rest, max_bytes as int) == (i - rel) + more_taken(
                    rest.skip(i - rel),
                    max_bytes as int,
                    acc as int,
                ),
            ensures
                rel <= len,
                tuple_views(result@) == rest.take(read_count(rest, max_bytes as int) as int),
                next == start + read_count(rest, max_bytes as int),
            decreases len - i,
        {
            let ghost j = i - rel;
            let ghost cur = rest.skip(j);
            assert(cur[0] == self@[i as int]);
            let chunk = &self.chunks[i];
            let next_acc = acc.saturating_add(chunk.bytes.len());
            if next_acc > max_bytes {
                assert(more_taken(cur, max_bytes as int, acc as int) == 0);
                break;
            }
            acc = next_acc;
            let mut copy: Vec<u8> = Vec::new();
            copy.extend_from_slice(chunk.bytes.as_slice());
            assert(copy@ =~= chunk.bytes@);
            result.push((chunk.timestamp_us, chunk.direction, copy));
            next = next + 1;
            i = i + 1;
            proof {
                assert(cur.skip(1) =~= rest.skip(j + 1));
                assert(tuple_views(result@) =~= rest.take(j + 1));
            }
        }
        proof {
            if rel > len {
                assert(rest.len() == 0);
            } else if i == len {
                let j = i - rel;
                assert(rest.skip(j).len() == 0);
                assert(rest.take(j) =~= rest);
            }
        }
        (result, next)
    }

    /// Like [`Self::read_from`], returning only the chunks whose direction
    /// passes `direction` and that contain `pattern` (also across the boundary
    /// with the previous direction-matching chunk). Every scanned chunk counts
    /// toward `max_bytes`, and the scan stops before the first chunk that would
    /// exceed it; the returned index is one past the last scanned chunk.
    pub fn read_filtered_from(
        &self,
        start_index: usize,
        max_bytes: usize,
        direction: DirectionFilter,
        pattern: Option<&SearchPattern>,
    ) -> (r: (Vec<(u64, RawDataDirection, Vec<u8>)>, usize))
        requires
            self.well_formed(),
        ensures
            ({
                let scan = filtered_scan(
                    self.from_index(start_index),
                    max_bytes as int,
                    0,
                    Seq::empty(),
                    direction,
                    match pattern {
                        Some(p) => Some(p@),
                        None => None,
                    },
                );
                &&& tuple_views(r.0@) == scan.0
                &&& r.1 == self.read_start(start_index) + scan.1
            }),
    {
        let ghost pat = match pattern {
            Some(p) => Some(p@),
            None => None,
        };
        let start = if start_index > self.base_index { start_index } else { self.base_index };
        let rel = start - self.base_index;
        let len = self.chunks.len();
        let ghost rest = self.from_index(start_index);
        let ghost whole = filtered_scan(rest, max_bytes as int, 0, Seq::empty(), direction, pat);
        let mut result: Vec<(u64, RawDataDirection, Vec<u8>)> = Vec::new();
        assert(tuple_views(result@) =~= Seq::<ChunkView>::empty());
        if rel >= len {
            assert(rest.len() == 0);
            return (result, start);
        }
        let mut acc: usize = 0;
        let mut next = start;
        let mut prev_tail: Vec<u8> = Vec::new();
        let mut i: usize = rel;
        assert(rest.skip(0) =~= rest);
        while i < len
            invariant_except_break
                rel <= i <= len,
                len == self.chunks@.len(),
                self@.len() == len,
                rest == self@.skip(rel as int),
                pat == match pattern {
                    Some(p) => Some(p@),
                    None => None,
                },
                whole == filtered_scan(rest, max_bytes as int, 0, Seq::empty(), direction, pat),
                next == start + (i - rel),
                start + (len - rel) <= usize::MAX,
                ({
                    let tail_scan = filtered_scan(
                        rest.skip(i - rel),
                        max_bytes as int,
                        acc as int,
                        prev_tail@,
                        direction,
                        pat,
                    );
                    &&& whole.0 == tuple_views(result@) + tail_scan.0
                    &&& whole.1 == (i - rel) + tail_scan.1
                }),
            ensures
                rel <= len,
                tuple_views(result@) == whole.0,
                next == start + whole.1,
            decreases len - i,
        {
            let ghost j = i - rel;
            let ghost cur = rest.skip(j);
            let ghost before = tuple_views(result@);
            let ghost acc0 = acc as int;
            let ghost tail0 = prev_tail@;
            assert(cur[0] == self@[i as int]);
            let chunk = &self.chunks[i];
            let next_acc = acc.saturating_add(chunk.bytes.len());
            if next_acc > max_bytes {
                assert(before + Seq::<ChunkView>::empty() =~= before);
                break;
            }
            acc = next_acc;
            let (matched, new_tail) = chunk_matches(chunk, direction, pattern, prev_tail.as_slice());
            let ghost nt = new_tail@;
            assert(acc as int == sat_add(acc0, cur[0].2.len() as int));
            assert(chunk.view() == cur[0]);
            assert((matched, nt) == chunk_verdict(cur[0], direction, pat, tail0));
            if matched {
                let mut copy: Vec<u8> = Vec::new();
                copy.extend_from_slice(chunk.bytes.as_slice());
                assert(copy@ =~= chunk.bytes@);
                result.push((chunk.timestamp_us, chunk.direction, copy));
                assert(tuple_views(result@) =~= before + seq![cur[0]]);
            }
            if direction.matches(chunk.direction) {
                prev_tail = new_tail;
            }
            next = next + 1;
            i = i + 1;
            proof {
                assert(cur.skip(1) =~= rest.skip(j + 1));
                let tail_scan = filtered_scan(
                    rest.skip(j + 1),
                    max_bytes as int,
                    acc as int,
                    prev_tail@,
                    direction,
                    pat,
                );
                assert(prev_tail@ == (if direction.accepts(cur[0].1) { nt } else { tail0 }));
                assert(!(sat_add(acc0, cur[0].2.len() as int) > max_bytes));
                assert(filtered_scan(cur, max_bytes as int, acc0, tail0, direction, pat)
                    == (
                    if matched {
                        seq![cur[0]] + tail_scan.0
                    } else {
                        tail_scan.0
                    },
                    tail_scan.1 + 1,
                ));
                if matched {
                    assert(before + (seq![cur[0]] + tail_scan.0) =~= tuple_views(result@)
                        + tail_scan.0);
                }
            }
        }
        proof {
            if rel > len {
                assert(rest.len() == 0);
            } else if i == len {
                assert(rest.skip(i - rel).len() == 0);
                assert(tuple_views(result@) + Seq::<ChunkView>::empty() =~= tuple_views(
                    result@,
                ));
            }
        }
        (result, next)
    }

    /// Absolute index of the oldest stored chunk.
    pub fn base_index(&self) -> (r: usize)
        ensures
            r == self.base_spec(),
    {
        self.base_index
    }

    pub fn chunk_count(&self) -> (r: usize)
        ensures
            r == self@.len(),
    {
        self.chunks.len()
    }

    /// Removes every chunk and resets all counters (the capacity is kept).
    pub fn clear(&mut self)
        requires
            old(self).well_formed(),
        ensures
            final(self).well_formed(),
            final(self)@ == Seq::<ChunkView>::empty(),
            final(self).capacity_spec() == old(self).capacity_spec(),
            final(self).base_spec() == 0,
            final(self).total_spec() == 0,
            final(self).dropped_spec() == 0,
            step_post(*old(self), *final(self), CollectorStep::Clear),
    {
        self.chunks.clear();
        self.stored = 0;
        self.total_bytes = 0;
        self.dropped_bytes = 0;
        self.base_index = 0;
        assert(self@ =~= Seq::<ChunkView>::empty());
    }

    /// Sets the capacity (at least 1), dropping the oldest chunks that no longer fit.
    pub fn set_capacity(&mut self, capacity: usize)
        requires
            old(self).well_formed(),
        ensures
            final(self).well_formed(),
            final(self).capacity_spec() == (if capacity >= 1 { capacity as nat } else { 1 }),
            ({
                let d = evict_count(old(self)@, final(self).capacity_spec());
                &&& final(self)@ == old(self)@.skip(d as int)
                &&& final(self).base_spec() == old(self).base_spec() + d
                &&& final(self).dropped_spec() == old(self).dropped_spec() + byte_sum(
                    old(self)@.take(d as int),
                )
            }),
            final(self).total_spec() == old(self).total_spec(),
            final(self).base_spec() + final(self)@.len() == old(self).base_spec() + old(self)@.len(),
            step_post(*old(self), *final(self), CollectorStep::SetCapacity(capacity)),
    {
        proof {
            lemma_evict_count_bound(old(self)@, if capacity >= 1 { capacity as nat } else { 1 });
        }
        self.capacity = if capacity >= 1 { capacity } else { 1 };
        self.evict();
    }

    /// Bytes currently stored.
    pub fn stored_bytes(&self) -> (r: usize)
        ensures
            r == self.stored_spec(),
    {
        self.stored
    }

    /// Unread bytes from absolute index `index` to the newest chunk.
    pub fn remaining_bytes_from(&self, index: usize) -> (r: usize)
        requires
            self.well_formed(),
        ensures
            r == byte_sum(self.from_index(index)),
    {
        let start = if index > self.base_index { index } else { self.base_index };
        let rel = start - self.base_index;
        let len = self.chunks.len();
        if rel >= len {
            proof {
                if rel == len {
                    assert(self@.skip(rel as int).len() == 0);
                }
            }
            return 0;
        }
        let mut sum: usize = 0;
        let mut i: usize = rel;
        proof {
            lemma_byte_sum_append(self@.take(rel as int), self@.skip(rel as int));
            assert(self@.take(rel as int) + self@.skip(rel as int) =~= self@);
            assert(self@.subrange(rel as int, rel as int) =~= Seq::<ChunkView>::empty());
        }
        while i < len
            invariant
                rel <= i <= len,
                len == self.chunks@.len(),
                self@.len() == len,
                self.well_formed(),
                byte_sum(self@.skip(rel as int)) <= self.stored,
                sum as nat == byte_sum(self@.subrange(rel as int, i as int)),
            decreases len - i,
        {
            proof {
                lemma_byte_sum_append(self@.subrange(rel as int, i + 1), self@.subrange(i + 1, len as int));
                assert(self@.subrange(rel as int, i + 1) + self@.subrange(i + 1, len as int)
                    =~= self@.skip(rel as int));
                assert(self@.subrange(rel as int, i + 1).drop_last() =~= self@.subrange(
                    rel as int,
                    i as int,
                ));
            }
            let n = self.chunks[i].bytes.len();
            assert(n == self@[i as int].2.len());
            sum = sum + n;
            i = i + 1;
        }
        assert(self@.subrange(rel as int, len as int) =~= self@.skip(rel as int));
        sum
    }

    /// Bytes ever written (including dropped ones).
    pub fn total_bytes(&self) -> (r: u64)
        ensures
            r == self.total_spec(),
    {
        self.total_bytes
    }

    /// Bytes dropped to keep within the capacity.
    pub fn dropped_bytes(&self) -> (r: u64)
        ensures
            r == self.dropped_spec(),
    {
        self.dropped_bytes
    }
}

impl Default for RawDataCollector {
    /// Collector with the default capacity.
    fn default() -> (r: Self)
        ensures
            r.well_formed(),
            r@ == Seq::<ChunkView>::empty(),
            r.capacity_spec() == Self::DEFAULT_CAPACITY,
    {
        Self::new()
    }
}

/// Every byte written to a collector is either still stored or counted as
/// dropped, and the stored bytes never exceed the capacity.
pub proof fn lemma_bytes_accounted(c: RawDataCollector)
    requires
        c.well_formed(),
    ensures
        c.total_spec() == c.dropped_spec() + c.stored_spec(),
        c.stored_spec() == byte_sum(c@),
        c.stored_spec() <= c.capacity_spec(),
{
}


proof fn lemma_evict_count_bound(s: Seq<ChunkView>, cap: nat)
    ensures
        evict_count(s, cap) <= s.len(),
    decreases s.len(),
{
    if s.len() > 0 && byte_sum(s) > cap {
        lemma_evict_count_bound(s.skip(1), cap);
    }
}

/// A push never moves a stored chunk: after `push_chunk` (view `s.skip(d)`,
/// base advanced by `d`), every chunk still stored sits at the absolute index
/// it had before, and the pushed chunk sits right after the previous newest.
pub proof fn lemma_push_keeps_indices(old_view: Seq<ChunkView>, base: nat, chunk: ChunkView, cap: nat, k: int)
    ensures
        ({
            let s = old_view.push(chunk);
            let d = evict_count(s, cap);
            &&& d <= s.len()
            &&& (base + d <= k < base + s.len() ==> s.skip(d as int)[k - (base + d)] == s[k - base])
            &&& (d <= old_view.len() ==> s.skip(d as int)[old_view.len() - d] == chunk)
        }),
{
    let s = old_view.push(chunk);
    lemma_evict_count_bound(s, cap);
}


/// A chunk longer than the capacity, once pushed, is dropped together with
/// every older chunk.
pub proof fn lemma_oversize_push_evicts_all(old_view: Seq<ChunkView>, chunk: ChunkView, cap: nat)
    requires
        chunk.2.len() > cap,
    ensures
        ({
            let s = old_view.push(chunk);
            s.skip(evict_count(s, cap) as int).len() == 0
        }),
{
    let s = old_view.push(chunk);
    lemma_evict_last_oversize(s, cap);
}

proof fn lemma_evict_last_oversize(s: Seq<ChunkView>, cap: nat)
    requires
        s.len() > 0,
        s.last().2.len() > cap,
    ensures
        evict_count(s, cap) == s.len(),
    decreases s.len(),
{
    assert(byte_sum(s) >= s.last().2.len());
    assert(evict_count(s, cap) == 1 + evict_count(s.skip(1), cap));
    if s.len() > 1 {
        assert(s.skip(1).last() == s.last());
        lemma_evict_last_oversize(s.skip(1), cap);
    } else {
        assert(s.skip(1).len() == 0);
        assert(evict_count(s.skip(1), cap) == 0);
    }
}

proof fn lemma_more_taken_bound(s: Seq<ChunkView>, max: int, acc: int)
    ensures
        more_taken(s, max, acc) <= s.len(),
    decreases s.len(),
{
    if s.len() > 0 && sat_add(acc, s[0].2.len() as int) <= max {
        lemma_more_taken_bound(s.skip(1), max, sat_add(acc, s[0].2.len() as int));
    }
}

proof fn lemma_unfiltered_scan(s: Seq<ChunkView>, max: int, acc: int, tail: Seq<u8>)
    ensures
        filtered_scan(s, max, acc, tail, DirectionFilter::All, None) == (
            s.take(more_taken(s, max, acc) as int),
            more_taken(s, max, acc),
        ),
    decreases s.len(),
{
    if s.len() > 0 && sat_add(acc, s[0].2.len() as int) <= max {
        let next = sat_add(acc, s[0].2.len() as int);
        let v = chunk_verdict(s[0], DirectionFilter::All, None, tail);
        lemma_unfiltered_scan(s.skip(1), max, next, v.1);
        lemma_more_taken_bound(s.skip(1), max, next);
        let n = more_taken(s.skip(1), max, next);
        assert(seq![s[0]] + s.skip(1).take(n as int) =~= s.take((n + 1) as int));
    } else if s.len() == 0 {
        assert(s.take(0) =~= Seq::<ChunkView>::empty());
    } else {
        assert(s.take(0) =~= Seq::<ChunkView>::empty());
    }
}

/// A filtered read with no direction restriction and no pattern returns what
/// the plain read returns: the same chunks and the same next index.
pub proof fn lemma_unfiltered_read_is_plain_read(c: RawDataCollector, start_index: usize, max_bytes: usize)
    ensures
        filtered_scan(
            c.from_index(start_index),
            max_bytes as int,
            0,
            Seq::empty(),
            DirectionFilter::All,
            None,
        ) == (
            c.from_index(start_index).take(read_count(c.from_index(start_index), max_bytes as int) as int),
            read_count(c.from_index(start_index), max_bytes as int),
        ),
{
    lemma_unfiltered_scan(c.from_index(start_index), max_bytes as int, 0, Seq::empty());
}

/// `a` keeps some of the elements of `b`, in order: `idx` gives, for each
/// element of `a`, its increasing position in `b`.
pub open spec fn picks(a: Seq<ChunkView>, b: Seq<ChunkView>, idx: Seq<int>) -> bool {
    &&& idx.len() == a.len()
    &&& forall|k: int| 0 <= k < idx.len() ==> 0 <= #[trigger] idx[k] < b.len() && a[k] == b[idx[k]]
    &&& forall|k: int, l: int| 0 <= k < l < idx.len() ==> #[trigger] idx[k] < #[trigger] idx[l]
}

/// Every chunk a filtered read returns passes the direction filter, and the
/// returned chunks are scanned chunks kept in store order.
pub proof fn lemma_filtered_scan_selects(
    s: Seq<ChunkView>,
    max: int,
    acc: int,
    tail: Seq<u8>,
    direction: DirectionFilter,
    pattern: Option<Seq<u8>>,
) -> (idx: Seq<int>)
    ensures
        ({
            let r = filtered_scan(s, max, acc, tail, direction, pattern);
            &&& r.1 <= s.len()
            &&& forall|k: int| 0 <= k < r.0.len() ==> direction.accepts(#[trigger] r.0[k].1)
            &&& picks(r.0, s.take(r.1 as int), idx)
        }),
    decreases s.len(),
{
    let r = filtered_scan(s, max, acc, tail, direction, pattern);
    if s.len() == 0 || sat_add(acc, s[0].2.len() as int) > max {
        Seq::empty()
    } else {
        let next = sat_add(acc, s[0].2.len() as int);
        let v = chunk_verdict(s[0], direction, pattern, tail);
        let nt = if direction.accepts(s[0].1) { v.1 } else { tail };
        let ri = lemma_filtered_scan_selects(s.skip(1), max, next, nt, direction, pattern);
        let rest = filtered_scan(s.skip(1), max, next, nt, direction, pattern);
        let b = s.take((rest.1 + 1) as int);
        let b2 = s.skip(1).take(rest.1 as int);
        assert forall|m: int| 0 <= m < b2.len() implies b[m + 1] == b2[m] by {}
        let shifted = ri.map_values(|x: int| x + 1);
        if v.0 {
            let idx = seq![0int] + shifted;
            assert(r.0 =~= seq![s[0]] + rest.0);
            assert forall|k: int| 0 <= k < r.0.len() implies direction.accepts(#[trigger] r.0[k].1) by {
                if k > 0 {
                    assert(r.0[k] == rest.0[k - 1]);
                }
            }
            assert forall|k: int| 0 <= k < idx.len() implies 0 <= #[trigger] idx[k] < b.len() && r.0[k]
                == b[idx[k]] by {
                if k > 0 {
                    assert(idx[k] == ri[k - 1] + 1);
                    assert(r.0[k] == rest.0[k - 1]);
                    assert(rest.0[k - 1] == b2[ri[k - 1]]);
                }
            }
            assert forall|k: int, l: int| 0 <= k < l < idx.len() implies #[trigger] idx[k] < #[trigger] idx[l] by {
                if k > 0 {
                    assert(idx[k] == ri[k - 1] + 1 && idx[l] == ri[l - 1] + 1);
                    assert(ri[k - 1] < ri[l - 1]);
                } else {
                    assert(idx[l] == ri[l - 1] + 1);
                    assert(0 <= ri[l - 1]);
                }
            }
            idx
        } else {
            let idx = shifted;
            assert(r.0 == rest.0);
            assert forall|k: int| 0 <= k < idx.len() implies 0 <= #[trigger] idx[k] < b.len() && r.0[k]
                == b[idx[k]] by {
                assert(idx[k] == ri[k] + 1);
                assert(rest.0[k] == b2[ri[k]]);
            }
            assert forall|k: int, l: int| 0 <= k < l < idx.len() implies #[trigger] idx[k] < #[trigger] idx[l] by {
                assert(idx[k] == ri[k] + 1 && idx[l] == ri[l] + 1);
                assert(ri[k] < ri[l]);
            }
            idx
        }
    }
}


proof fn lemma_taken_within(s: Seq<ChunkView>, max: int, acc: int)
    requires
        0 <= acc <= max,
        acc + byte_sum(s) <= usize::MAX,
    ensures
        acc + byte_sum(s.take(more_taken(s, max, acc) as int)) <= max,
    decreases s.len(),
{
    if s.len() == 0 || sat_add(acc, s[0].2.len() as int) > max {
        assert(s.take(0) =~= Seq::<ChunkView>::empty());
    } else {
        lemma_byte_sum_front(s);
        let next = acc + s[0].2.len();
        lemma_taken_within(s.skip(1), max, next);
        lemma_more_taken_bound(s.skip(1), max, next);
        let n = more_taken(s.skip(1), max, next);
        let t = s.take((n + 1) as int);
        assert(t.skip(1) =~= s.skip(1).take(n as int));
        lemma_byte_sum_front(t);
    }
}

/// A read never returns more bytes than it was allowed: the chunks `read_from`
/// returns hold at most `max_bytes` bytes in all, however long the first
/// unread chunk is.
pub proof fn lemma_read_within_max(c: RawDataCollector, start_index: usize, max_bytes: usize)
    requires
        c.well_formed(),
    ensures
        byte_sum(
            c.from_index(start_index).take(
                read_count(c.from_index(start_index), max_bytes as int) as int,
            ),
        ) <= max_bytes,
{
    let rest = c.from_index(start_index);
    let rel = if start_index >= c.base_spec() {
        start_index - c.base_spec()
    } else {
        0
    };
    if rel <= c@.len() {
        lemma_byte_sum_append(c@.take(rel as int), c@.skip(rel as int));
        assert(c@.take(rel as int) + c@.skip(rel as int) =~= c@);
    }
    lemma_taken_within(rest, max_bytes as int, 0);
}

proof fn lemma_scan_within(
    s: Seq<ChunkView>,
    max: int,
    acc: int,
    tail: Seq<u8>,
    direction: DirectionFilter,
    pattern: Option<Seq<u8>>,
)
    requires
        0 <= acc <= max,
        acc + byte_sum(s) <= usize::MAX,
    ensures
        acc + byte_sum(filtered_scan(s, max, acc, tail, direction, pattern).0) <= max,
    decreases s.len(),
{
    if s.len() > 0 && sat_add(acc, s[0].2.len() as int) <= max {
        lemma_byte_sum_front(s);
        let next = acc + s[0].2.len();
        let v = chunk_verdict(s[0], direction, pattern, tail);
        let nt = if direction.accepts(s[0].1) {
            v.1
        } else {
            tail
        };
        lemma_scan_within(s.skip(1), max, next, nt, direction, pattern);
        let rest = filtered_scan(s.skip(1), max, next, nt, direction, pattern);
        if v.0 {
            let out = seq![s[0]] + rest.0;
            assert(out.skip(1) =~= rest.0);
            lemma_byte_sum_front(out);
        }
    }
}

/// A filtered read never returns more bytes than it was allowed either: the
/// matching chunks hold at most `max_bytes` bytes in all.
pub proof fn lemma_filtered_read_within_max(
    c: RawDataCollector,
    start_index: usize,
    max_bytes: usize,
    direction: DirectionFilter,
    pattern: Option<Seq<u8>>,
)
    requires
        c.well_formed(),
    ensures
        byte_sum(
            filtered_scan(c.from_index(start_index), max_bytes as int, 0, Seq::empty(), direction, pattern).0,
        ) <= max_bytes,
{
    let rel = if start_index >= c.base_spec() {
        start_index - c.base_spec()
    } else {
        0
    };
    if rel <= c@.len() {
        lemma_byte_sum_append(c@.take(rel as int), c@.skip(rel as int));
        assert(c@.take(rel as int) + c@.skip(rel as int) =~= c@);
    }
    lemma_scan_within(c.from_index(start_index), max_bytes as int, 0, Seq::empty(), direction, pattern);
}

/// A call that changes a collector, as far as its counters see it.
pub enum CollectorStep {
    /// `push_chunk` of a chunk with this many bytes.
    Push(usize),
    /// `set_capacity` with this argument.
    SetCapacity(usize),
    /// `clear`.
    Clear,
}

/// What `push_chunk`, `set_capacity` and `clear` state of the collector
/// before (`a`) and after (`b`) the call.
pub open spec fn step_post(a: RawDataCollector, b: RawDataCollector, step: CollectorStep) -> bool {
    &&& b.well_formed()
    &&& match step {
        CollectorStep::Push(n) => {
            &&& b.base_spec() + b@.len() == a.base_spec() + a@.len() + 1
            &&& a.base_spec() <= b.base_spec()
            &&& a.dropped_spec() <= b.dropped_spec()
            &&& b.total_spec() == a.total_spec() + n
            &&& b.dropped_spec() + b.stored_spec() == a.dropped_spec() + a.stored_spec() + n
            &&& b.capacity_spec() == a.capacity_spec()
        },
        CollectorStep::SetCapacity(cap) => {
            &&& b.base_spec() + b@.len() == a.base_spec() + a@.len()
            &&& a.base_spec() <= b.base_spec()
            &&& a.dropped_spec() <= b.dropped_spec()
            &&& b.total_spec() == a.total_spec()
            &&& b.dropped_spec() + b.stored_spec() == a.dropped_spec() + a.stored_spec()
            &&& b.capacity_spec() == (if cap >= 1 { cap as nat } else { 1 })
        },
        CollectorStep::Clear => {
            &&& b@.len() == 0
            &&& b.base_spec() == 0
            &&& b.total_spec() == 0
            &&& b.dropped_spec() == 0
            &&& b.capacity_spec() == a.capacity_spec()
        },
    }
}

/// A run of calls: `states[i + 1]` is `states[i]` after `steps[i]`.
pub open spec fn is_run(states: Seq<RawDataCollector>, steps: Seq<CollectorStep>) -> bool {
    &&& states.len() == steps.len() + 1
    &&& forall|i: int| #![trigger steps[i]] 0 <= i < steps.len() ==> step_post(states[i], states[i + 1], steps[i])
}

/// Pushes since the start of a run or its last clear.
pub open spec fn pushes_since_clear(steps: Seq<CollectorStep>) -> nat
    decreases steps.len(),
{
    if steps.len() == 0 {
        0
    } else {
        match steps.last() {
            CollectorStep::Push(_) => pushes_since_clear(steps.drop_last()) + 1,
            CollectorStep::SetCapacity(_) => pushes_since_clear(steps.drop_last()),
            CollectorStep::Clear => 0,
        }
    }
}

/// Bytes pushed since the start of a run or its last clear.
pub open spec fn bytes_since_clear(steps: Seq<CollectorStep>) -> nat
    decreases steps.len(),
{
    if steps.len() == 0 {
        0
    } else {
        match steps.last() {
            CollectorStep::Push(n) => bytes_since_clear(steps.drop_last()) + n as nat,
            CollectorStep::SetCapacity(_) => bytes_since_clear(steps.drop_last()),
            CollectorStep::Clear => 0,
        }
    }
}

/// A collector as `new` or `with_capacity` makes it: empty, all counters zero.
pub open spec fn is_fresh(c: RawDataCollector) -> bool {
    &&& c.well_formed()
    &&& c@.len() == 0
    &&& c.base_spec() == 0
    &&& c.total_spec() == 0
    &&& c.dropped_spec() == 0
}

proof fn lemma_run_prefix(states: Seq<RawDataCollector>, steps: Seq<CollectorStep>)
    requires
        is_run(states, steps),
        steps.len() > 0,
    ensures
        is_run(states.drop_last(), steps.drop_last()),
{
    let s2 = states.drop_last();
    let t2 = steps.drop_last();
    assert forall|i: int| #![trigger t2[i]] 0 <= i < t2.len() implies step_post(s2[i], s2[i + 1], t2[i]) by {
        assert(t2[i] == steps[i]);
        assert(step_post(states[i], states[i + 1], steps[i]));
    }
}

/// Over any run of calls on a fresh collector: `base_index() + chunk_count()`
/// is the number of chunks pushed since construction or the last clear, the
/// total is the number of bytes pushed since then, every byte is stored or
/// dropped, and the stored bytes are the chunks' bytes within the capacity
/// (so a chunk longer than the capacity is dropped as soon as it is pushed).
/// A run is any sequence of `push_chunk`, `set_capacity` and `clear` calls;
/// reads take `&self` and change nothing. The only calls a run cannot hold are
/// pushes whose byte or index counters would overflow their integer types.
pub proof fn lemma_run_counters(states: Seq<RawDataCollector>, steps: Seq<CollectorStep>)
    requires
        is_run(states, steps),
        is_fresh(states[0]),
    ensures
        states.last().base_spec() + states.last()@.len() == pushes_since_clear(steps),
        states.last().total_spec() == bytes_since_clear(steps),
        states.last().total_spec() == states.last().stored_spec() + states.last().dropped_spec(),
        states.last().stored_spec() == byte_sum(states.last()@),
        states.last().stored_spec() <= states.last().capacity_spec(),
    decreases steps.len(),
{
    if steps.len() > 0 {
        lemma_run_prefix(states, steps);
        lemma_run_counters(states.drop_last(), steps.drop_last());
        let i = steps.len() - 1;
        assert(step_post(states[i], states[i + 1], steps[i]));
        assert(states.drop_last().last() == states[i]);
        assert(states.last() == states[i + 1]);
    }
    lemma_bytes_accounted(states.last());
}

/// Between a state of a run and a later one with no clear in between, the
/// base index and the dropped-byte count never go down (each `push_chunk` and
/// `set_capacity` raises the dropped count by exactly the bytes it evicts).
pub proof fn lemma_run_monotone(states: Seq<RawDataCollector>, steps: Seq<CollectorStep>, i: int, j: int)
    requires
        is_run(states, steps),
        0 <= i <= j <= steps.len(),
        forall|k: int| i <= k < j ==> !(#[trigger] steps[k] is Clear),
    ensures
        states[i].base_spec() <= states[j].base_spec(),
        states[i].dropped_spec() <= states[j].dropped_spec(),
    decreases j - i,
{
    if i < j {
        lemma_run_monotone(states, steps, i, j - 1);
        assert(step_post(states[j - 1], states[j], steps[j - 1]));
        assert(!(steps[j - 1] is Clear));
    }
}

} // verus!
