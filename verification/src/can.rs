//! CAN frame model, bitrate presets, subscription filters, the bounded frame
//! history and test-frame generators.

use std::collections::VecDeque;
use vstd::prelude::*;

use crate::bytes::{contains_run, contains_subslice, occurs_at};
use crate::logic::{bounded_push, drain_count, drain_start, history_valid, last_n};

pub mod can_core;

verus! {

/// Frame direction.
#[derive(Debug, Clone, Copy, PartialEq, Eq, Structural)]
pub enum CanDirection {
    Rx,
    Tx,
}

/// A CAN frame (11-bit standard or 29-bit extended id, up to 8 data bytes).
#[derive(Debug)]
pub struct CanFrame {
    pub timestamp: u64,
    pub id: u32,
    pub extended: bool,
    pub rtr: bool,
    pub dlc: u8,
    pub data: Vec<u8>,
    pub direction: CanDirection,
}

impl CanFrame {
    /// Field-wise equality, data compared by content.
    pub open spec fn same_as(self, other: CanFrame) -> bool {
        &&& self.timestamp == other.timestamp
        &&& self.id == other.id
        &&& self.extended == other.extended
        &&& self.rtr == other.rtr
        &&& self.dlc == other.dlc
        &&& self.data@ == other.data@
        &&& self.direction == other.direction
    }
}

impl Clone for CanFrame {
    fn clone(&self) -> (r: Self)
        ensures
            r.same_as(*self),
    {
        let data = self.data.clone();
        assert(data@ =~= self.data@);
        CanFrame {
            timestamp: self.timestamp,
            id: self.id,
            extended: self.extended,
            rtr: self.rtr,
            dlc: self.dlc,
            data,
            direction: self.direction,
        }
    }
}

/// Element-wise [`CanFrame::same_as`].
pub open spec fn same_frames(a: Seq<CanFrame>, b: Seq<CanFrame>) -> bool {
    a.len() == b.len() && forall|i: int| 0 <= i < a.len() ==> #[trigger] a[i].same_as(b[i])
}

/// Bitrate presets.
#[derive(Debug, Clone, Copy, PartialEq, Eq, Structural)]
pub enum CanBitrate {
    Bps100k,
    Bps125k,
    Bps250k,
    Bps500k,
    Bps1m,
}

impl CanBitrate {
    pub open spec fn bps_spec(self) -> u32 {
        match self {
            CanBitrate::Bps100k => 100_000,
            CanBitrate::Bps125k => 125_000,
            CanBitrate::Bps250k => 250_000,
            CanBitrate::Bps500k => 500_000,
            CanBitrate::Bps1m => 1_000_000,
        }
    }

    /// Lawicel (slcan) bitrate command.
    pub open spec fn slcan_cmd_spec(self) -> Seq<char> {
        match self {
            CanBitrate::Bps100k => seq!['S', '3'],
            CanBitrate::Bps125k => seq!['S', '4'],
            CanBitrate::Bps250k => seq!['S', '5'],
            CanBitrate::Bps500k => seq!['S', '6'],
            CanBitrate::Bps1m => seq!['S', '8'],
        }
    }

    /// Bits per second.
    pub fn bps(&self) -> (r: u32)
        ensures
            r == self.bps_spec(),
    {
        match self {
            CanBitrate::Bps100k => 100_000,
            CanBitrate::Bps125k => 125_000,
            CanBitrate::Bps250k => 250_000,
            CanBitrate::Bps500k => 500_000,
            CanBitrate::Bps1m => 1_000_000,
        }
    }

    /// slcan bitrate command ("S3" .. "S8").
    pub fn slcan_cmd(&self) -> (r: &'static str)
        ensures
            r@ == self.slcan_cmd_spec(),
    {
        match self {
            CanBitrate::Bps100k => {
                proof {
                    reveal_strlit("S3");
                }
                "S3"
            },
            CanBitrate::Bps125k => {
                proof {
                    reveal_strlit("S4");
                }
                "S4"
            },
            CanBitrate::Bps250k => {
                proof {
                    reveal_strlit("S5");
                }
                "S5"
            },
            CanBitrate::Bps500k => {
                proof {
                    reveal_strlit("S6");
                }
                "S6"
            },
            CanBitrate::Bps1m => {
                proof {
                    reveal_strlit("S8");
                }
                "S8"
            },
        }
    }
}

/// The Lawicel (slcan) bitrate table: command "S<n>" selects `slcan_rates()[n]` bit/s.
pub open spec fn slcan_rates() -> Seq<u32> {
    seq![10_000, 20_000, 50_000, 100_000, 125_000, 250_000, 500_000, 800_000, 1_000_000]
}

/// Decimal digit characters in value order.
pub open spec fn decimal_digits() -> Seq<char> {
    seq!['0', '1', '2', '3', '4', '5', '6', '7', '8', '9']
}

/// A bitrate's slcan command is "S" followed by the digit that the Lawicel
/// table assigns to the same number of bits per second.
pub proof fn lemma_slcan_cmd_matches_rate(r: CanBitrate)
    ensures
        exists|n: int|
            0 <= n < 9 && #[trigger] slcan_rates()[n] == r.bps_spec() && r.slcan_cmd_spec() == seq![
                'S',
                decimal_digits()[n],
            ],
{
    let n: int = match r {
        CanBitrate::Bps100k => 3,
        CanBitrate::Bps125k => 4,
        CanBitrate::Bps250k => 5,
        CanBitrate::Bps500k => 6,
        CanBitrate::Bps1m => 8,
    };
    assert(slcan_rates()[n] == r.bps_spec() && r.slcan_cmd_spec() == seq!['S', decimal_digits()[n]]);
}

/// A frame filter with nothing set passes every frame, and a filter that
/// sets only a one-byte data pattern passes exactly the frames whose data
/// contain that byte.
pub proof fn lemma_frame_filter_basics(f: CanFrameFilter, frame: CanFrame, b: u8)
    ensures
        f.is_empty_spec() ==> f.accepts(frame),
        ({
            &&& f.id is None
            &&& f.id_mask is None
            &&& f.id_min is None
            &&& f.id_max is None
            &&& f.extended is None
            &&& f.rtr is None
            &&& f.direction is None
            &&& f.data_pattern matches Some(p) && p@ == seq![b]
        }) ==> (f.accepts(frame) <==> exists|k: int| 0 <= k < frame.data@.len() && frame.data@[k] == b),
{
    let hay = frame.data@;
    if exists|k: int| occurs_at(hay, seq![b], k) {
        let k = choose|k: int| occurs_at(hay, seq![b], k);
        assert(hay.subrange(k, k + 1)[0] == hay[k]);
    }
    if exists|k: int| 0 <= k < hay.len() && hay[k] == b {
        let k = choose|k: int| 0 <= k < hay.len() && hay[k] == b;
        assert(hay.subrange(k, k + 1) =~= seq![b]);
        assert(occurs_at(hay, seq![b], k));
    }
}

/// An id range filter alone passes exactly the ids from `id_min` to
/// `id_max`, both included.
pub proof fn lemma_frame_filter_range(f: CanFrameFilter, frame: CanFrame)
    requires
        f.id is None,
        f.id_mask is None,
        f.id_min is Some,
        f.id_max is Some,
        f.extended is None,
        f.rtr is None,
        f.direction is None,
        f.data_pattern is None,
    ensures
        f.accepts(frame) <==> f.id_min.unwrap() <= frame.id <= f.id_max.unwrap(),
{
}

/// Acceptance filter settings (id / mask / frame format).
#[derive(Debug, Clone)]
pub struct CanFilter {
    pub id: u32,
    pub mask: u32,
    pub extended: bool,
}

/// Subscription filter: every condition that is set must hold.
#[derive(Debug, Clone, Default)]
pub struct CanFrameFilter {
    /// Exact id.
    pub id: Option<u32>,
    /// Mask match: `frame.id & mask == id.unwrap_or(0) & mask`.
    pub id_mask: Option<u32>,
    /// Inclusive id range.
    pub id_min: Option<u32>,
    pub id_max: Option<u32>,
    pub extended: Option<bool>,
    pub rtr: Option<bool>,
    pub direction: Option<CanDirection>,
    /// Contiguous data byte run.
    pub data_pattern: Option<Vec<u8>>,
}

impl CanFrameFilter {
    pub open spec fn accepts(&self, frame: CanFrame) -> bool {
        &&& (self.id matches Some(id) ==> frame.id == id)
        &&& (self.id_mask matches Some(mask) ==> (frame.id & mask) == (self.id.unwrap_or(0) & mask))
        &&& (self.id_min matches Some(min) ==> frame.id >= min)
        &&& (self.id_max matches Some(max) ==> frame.id <= max)
        &&& (self.extended matches Some(e) ==> frame.extended == e)
        &&& (self.rtr matches Some(r) ==> frame.rtr == r)
        &&& (self.direction matches Some(d) ==> frame.direction == d)
        &&& (self.data_pattern matches Some(p) ==> contains_run(frame.data@, p@))
    }

    pub open spec fn is_empty_spec(&self) -> bool {
        &&& self.id is None
        &&& self.id_mask is None
        &&& self.id_min is None
        &&& self.id_max is None
        &&& self.extended is None
        &&& self.rtr is None
        &&& self.direction is None
        &&& self.data_pattern is None
    }

    /// Whether `frame` passes every condition that is set.
    pub fn matches(&self, frame: &CanFrame) -> (r: bool)
        ensures
            r == self.accepts(*frame),
    {
        if let Some(id) = self.id {
            if frame.id != id {
                return false;
            }
        }
        if let Some(mask) = self.id_mask {
            let base = match self.id {
                Some(id) => id,
                None => 0,
            };
            if (frame.id & mask) != (base & mask) {
                return false;
            }
        }
        if let Some(min) = self.id_min {
            if frame.id < min {
                return false;
            }
        }
        if let Some(max) = self.id_max {
            if frame.id > max {
                return false;
            }
        }
        if let Some(ext) = self.extended {
            if frame.extended != ext {
                return false;
            }
        }
        if let Some(rtr) = self.rtr {
            if frame.rtr != rtr {
                return false;
            }
        }
        if let Some(dir) = self.direction {
            if frame.direction != dir {
                return false;
            }
        }
        if let Some(pattern) = &self.data_pattern {
            return contains_subslice(frame.data.as_slice(), pattern.as_slice());
        }
        true
    }

    /// Whether no condition is set (the filter matches every frame).
    pub fn is_empty(&self) -> (r: bool)
        ensures
            r == self.is_empty_spec(),
    {
        self.id.is_none() && self.id_mask.is_none() && self.id_min.is_none()
            && self.id_max.is_none() && self.extended.is_none() && self.rtr.is_none()
            && self.direction.is_none() && self.data_pattern.is_none()
    }
}

/// A filter with no condition set accepts every frame.
pub proof fn lemma_empty_filter_accepts_all(filter: CanFrameFilter, frame: CanFrame)
    requires
        filter.is_empty_spec(),
    ensures
        filter.accepts(frame),
{
}

/// Frame batch pushed to the front end (`seq` orders concurrent shards).
#[derive(Debug, Clone)]
pub struct CanFrameBatch {
    pub seq: u64,
    pub frames: Vec<CanFrame>,
}

/// candleLight USB device description.
#[derive(Debug, Clone)]
pub struct CandleDeviceInfo {
    pub bus: u8,
    pub address: u8,
    pub vid: u16,
    pub pid: u16,
    pub manufacturer: Option<String>,
    pub product: Option<String>,
    pub serial_number: Option<String>,
}

/// Per-id load statistics (frames, estimated bits, data bytes).
#[derive(Debug, Clone)]
pub struct CanIdLoadStats {
    pub id: u32,
    pub extended: bool,
    pub frame_count: u64,
    pub total_bits: u64,
    pub total_bytes: u64,
}

// ---------------------------------------------------------------------------
// Frame history
// ---------------------------------------------------------------------------

/// Bounded frame history: when full, a push evicts the oldest frame.
#[derive(Debug)]
pub struct CanBuffer {
    frames: VecDeque<CanFrame>,
    max_size: usize,
    version: u64,
}

impl CanBuffer {
    /// Buffered frames, oldest first.
    pub closed spec fn view(&self) -> Seq<CanFrame> {
        self.frames@
    }

    pub closed spec fn capacity_spec(&self) -> nat {
        self.max_size as nat
    }

    /// Number of pushes so far (wrapping).
    pub closed spec fn version_spec(&self) -> u64 {
        self.version
    }

    /// Holds after every operation; a push keeps it unless the version wraps.
    pub open spec fn well_formed(&self) -> bool {
        history_valid(self.view().len(), self.capacity_spec(), self.version_spec())
    }

    pub fn new(max_size: usize) -> (r: Self)
        ensures
            r.view() == Seq::<CanFrame>::empty(),
            r.capacity_spec() == max_size,
            r.version_spec() == 0,
            r.well_formed(),
    {
        CanBuffer {
            frames: VecDeque::with_capacity(if max_size < 8192 { max_size } else { 8192 }),
            max_size,
            version: 0,
        }
    }

    /// Appends a frame, evicting the oldest one when full.
    pub fn push(&mut self, frame: CanFrame)
        ensures
            final(self).view() == bounded_push(old(self).view(), frame, old(self).capacity_spec()),
            final(self).capacity_spec() == old(self).capacity_spec(),
            final(self).version_spec() == old(self).version_spec().wrapping_add(1),
            old(self).well_formed() && old(self).version_spec() < u64::MAX ==> final(self).well_formed(),
    {
        if self.frames.len() >= self.max_size {
            let _ = self.frames.pop_front();
        }
        self.frames.push_back(frame);
        self.version = self.version.wrapping_add(1);
    }

    pub fn version(&self) -> (v: u64)
        ensures
            v == self.version_spec(),
    {
        self.version
    }

    /// Copies of the most recent `count` frames, oldest first.
    pub fn get_recent(&self, count: usize) -> (r: Vec<CanFrame>)
        ensures
            same_frames(r@, last_n(self.view(), count as nat)),
    {
        let len = self.frames.len();
        let n = if count < len { count } else { len };
        let start = len - n;
        let mut out: Vec<CanFrame> = Vec::new();
        let mut i: usize = start;
        while i < len
            invariant
                len == self.frames@.len(),
                start <= i <= len,
                same_frames(out@, self.frames@.subrange(start as int, i as int)),
            decreases len - i,
        {
            let f = self.frames[i].clone();
            out.push(f);
            i = i + 1;
            assert(same_frames(out@, self.frames@.subrange(start as int, i as int))) by {
                assert forall|k: int| 0 <= k < out@.len() implies #[trigger] out@[k].same_as(
                    self.frames@.subrange(start as int, i as int)[k],
                ) by {
                    if k < out@.len() - 1 {
                        assert(out@[k] == old_out_at(out@, k));
                    }
                }
            }
        }
        assert(self.frames@.subrange(0, len as int) =~= self.frames@);
        out
    }

    /// Cursor read over absolute frame indices; see the logic buffer's `drain_from`.
    pub fn drain_from(&self, cursor: u64, max: usize) -> (r: (Vec<CanFrame>, u64, u64))
        requires
            self.well_formed(),
            cursor <= self.version_spec(),
        ensures
            ({
                let len = self.view().len();
                let start = drain_start(self.version_spec(), len, cursor);
                let n = drain_count(self.version_spec(), len, cursor, max);
                let oldest = self.version_spec() - len;
                &&& same_frames(r.0@, self.view().subrange(start - oldest, start - oldest + n))
                &&& r.1 == start + n
                &&& r.2 == start - cursor
            }),
    {
        let version = self.version;
        let len = self.frames.len();
        let oldest = version - len as u64;
        let start = if cursor > oldest { cursor } else { oldest };
        let dropped = start - cursor;
        let avail = version - start;
        let n: usize = if avail <= max as u64 { avail as usize } else { max };
        let skip = (start - oldest) as usize;
        let mut out: Vec<CanFrame> = Vec::new();
        let mut i: usize = skip;
        while i < skip + n
            invariant
                len == self.frames@.len(),
                skip + n <= len,
                skip <= i <= skip + n,
                same_frames(out@, self.frames@.subrange(skip as int, i as int)),
            decreases skip + n - i,
        {
            let f = self.frames[i].clone();
            out.push(f);
            i = i + 1;
            assert(same_frames(out@, self.frames@.subrange(skip as int, i as int))) by {
                assert forall|k: int| 0 <= k < out@.len() implies #[trigger] out@[k].same_as(
                    self.frames@.subrange(skip as int, i as int)[k],
                ) by {
                    if k < out@.len() - 1 {
                        assert(out@[k] == old_out_at(out@, k));
                    }
                }
            }
        }
        (out, start + n as u64, dropped)
    }

    /// Removes all frames (the version is kept).
    pub fn clear(&mut self)
        ensures
            final(self).view() == Seq::<CanFrame>::empty(),
            final(self).capacity_spec() == old(self).capacity_spec(),
            final(self).version_spec() == old(self).version_spec(),
            final(self).well_formed(),
    {
        self.frames.clear();
    }

    /// Sets the capacity (at least 1), keeping the most recent frames.
    pub fn set_max_size(&mut self, max_size: usize)
        ensures
            final(self).capacity_spec() == (if max_size >= 1 { max_size as nat } else { 1 }),
            final(self).view() == last_n(old(self).view(), final(self).capacity_spec()),
            final(self).version_spec() == old(self).version_spec(),
            old(self).well_formed() ==> final(self).well_formed(),
    {
        let m = if max_size >= 1 { max_size } else { 1 };
        self.max_size = m;
        let ghost orig = self.frames@;
        let ghost mut k: int = 0;
        while self.frames.len() > m
            invariant
                self.max_size == m,
                self.version == old(self).version,
                orig == old(self).frames@,
                0 <= k <= orig.len(),
                self.frames@ == orig.subrange(k, orig.len() as int),
                k == 0 || orig.len() - k >= m,
            decreases self.frames.len(),
        {
            let _ = self.frames.pop_front();
            proof {
                k = k + 1;
            }
            assert(self.frames@ =~= orig.subrange(k, orig.len() as int));
        }
        assert(self.frames@ =~= last_n(orig, m as nat));
    }

    pub fn len(&self) -> (n: usize)
        ensures
            n == self.view().len(),
    {
        self.frames.len()
    }

    pub fn is_empty(&self) -> (b: bool)
        ensures
            b == (self.view().len() == 0),
    {
        self.frames.len() == 0
    }
}

// ---------------------------------------------------------------------------
// Test-frame generators
// ---------------------------------------------------------------------------

/// Generators of frame sequences for exercising buffers, load statistics and filters.
pub struct CanFrameTestData;

/// Eight data bytes: `first`, then zeros.
pub open spec fn first_then_zeros(first: u8, len: nat) -> Seq<u8> {
    Seq::new(len, |k: int| if k == 0 { first } else { 0u8 })
}

fn bytes_first_then_zeros(first: u8, len: usize) -> (r: Vec<u8>)
    requires
        len > 0,
    ensures
        r@ == first_then_zeros(first, len as nat),
{
    let mut v: Vec<u8> = Vec::new();
    v.push(first);
    let mut k: usize = 1;
    while k < len
        invariant
            1 <= k <= len,
            v@ == first_then_zeros(first, k as nat),
        decreases len - k,
    {
        v.push(0);
        k = k + 1;
        assert(v@ =~= first_then_zeros(first, k as nat));
    }
    v
}

fn zeros(len: usize) -> (r: Vec<u8>)
    ensures
        r@ == Seq::new(len as nat, |k: int| 0u8),
{
    let mut v: Vec<u8> = Vec::new();
    let mut k: usize = 0;
    while k < len
        invariant
            k <= len,
            v@ == Seq::new(k as nat, |j: int| 0u8),
        decreases len - k,
    {
        v.push(0);
        k = k + 1;
        assert(v@ =~= Seq::new(k as nat, |j: int| 0u8));
    }
    v
}

fn prefix_copy(data: &Vec<u8>, n: usize) -> (r: Vec<u8>)
    requires
        n <= data.len(),
    ensures
        r@ == data@.subrange(0, n as int),
{
    let mut v: Vec<u8> = Vec::new();
    let mut k: usize = 0;
    while k < n
        invariant
            k <= n <= data.len(),
            v@ == data@.subrange(0, k as int),
        decreases n - k,
    {
        v.push(data[k]);
        k = k + 1;
        assert(v@ =~= data@.subrange(0, k as int));
    }
    v
}

/// Frame `i` of a generated sequence with `id`, `extended`, `dlc` and `data`,
/// timestamped `i` milliseconds after zero, direction Rx, not remote.
pub open spec fn generated_frame(frame: CanFrame, i: int, id: u32, extended: bool, dlc: u8, data: Seq<u8>) -> bool {
    &&& frame.timestamp == i * 1000
    &&& frame.id == id
    &&& frame.extended == extended
    &&& !frame.rtr
    &&& frame.dlc == dlc
    &&& frame.data@ == data
    &&& frame.direction == CanDirection::Rx
}

impl CanFrameTestData {
    /// `count` standard frames with ids `base_id, base_id + 1, ..`, 8 data bytes
    /// (the first is the frame index, truncated to a byte), 1 ms apart.
    pub fn standard_frames(base_id: u32, count: usize) -> (r: Vec<CanFrame>)
        requires
            base_id + count <= u32::MAX + 1,
            count * 1000 <= u64::MAX,
        ensures
            r@.len() == count,
            forall|i: int| 0 <= i < count ==> generated_frame(#[trigger] r@[i], i, (base_id + i) as u32, false, 8, first_then_zeros(i as u8, 8)),
    {
        Self::sequential_frames(base_id, count, false)
    }

    /// `count` extended frames, otherwise as [`Self::standard_frames`].
    pub fn extended_frames(base_id: u32, count: usize) -> (r: Vec<CanFrame>)
        requires
            base_id + count <= u32::MAX + 1,
            count * 1000 <= u64::MAX,
        ensures
            r@.len() == count,
            forall|i: int| 0 <= i < count ==> generated_frame(#[trigger] r@[i], i, (base_id + i) as u32, true, 8, first_then_zeros(i as u8, 8)),
    {
        Self::sequential_frames(base_id, count, true)
    }

    fn sequential_frames(base_id: u32, count: usize, extended: bool) -> (r: Vec<CanFrame>)
        requires
            base_id + count <= u32::MAX + 1,
            count * 1000 <= u64::MAX,
        ensures
            r@.len() == count,
            forall|i: int| 0 <= i < count ==> generated_frame(#[trigger] r@[i], i, (base_id + i) as u32, extended, 8, first_then_zeros(i as u8, 8)),
    {
        let mut out: Vec<CanFrame> = Vec::new();
        let mut i: usize = 0;
        while i < count
            invariant
                i <= count,
                base_id + count <= u32::MAX + 1,
                count * 1000 <= u64::MAX,
                out@.len() == i,
                forall|j: int| 0 <= j < i ==> generated_frame(#[trigger] out@[j], j, (base_id + j) as u32, extended, 8, first_then_zeros(j as u8, 8)),
            decreases count - i,
        {
            let data = bytes_first_then_zeros(i as u8, 8);
            assert(i * 1000 <= count * 1000) by (nonlinear_arith)
                requires i <= count;
            out.push(CanFrame {
                timestamp: i as u64 * 1000,
                id: base_id + i as u32,
                extended,
                rtr: false,
                dlc: 8,
                data,
                direction: CanDirection::Rx,
            });
            i = i + 1;
        }
        out
    }

    /// `count` copies of one frame (data truncated to 8 bytes), 1 ms apart.
    pub fn repeating(id: u32, data: Vec<u8>, extended: bool, count: usize) -> (r: Vec<CanFrame>)
        requires
            count * 1000 <= u64::MAX,
        ensures
            r@.len() == count,
            forall|i: int| 0 <= i < count ==> generated_frame(#[trigger] r@[i], i, id, extended,
                (if data@.len() < 8 { data@.len() } else { 8 }) as u8,
                data@.subrange(0, if data@.len() < 8 { data@.len() as int } else { 8 })),
    {
        let dlc: u8 = if data.len() < 8 { data.len() as u8 } else { 8 };
        let mut out: Vec<CanFrame> = Vec::new();
        let mut i: usize = 0;
        while i < count
            invariant
                i <= count,
                count * 1000 <= u64::MAX,
                dlc as int == (if data@.len() < 8 { data@.len() as int } else { 8 }),
                out@.len() == i,
                forall|j: int| 0 <= j < i ==> generated_frame(#[trigger] out@[j], j, id, extended, dlc, data@.subrange(0, dlc as int)),
            decreases count - i,
        {
            let d = prefix_copy(&data, dlc as usize);
            assert(i * 1000 <= count * 1000) by (nonlinear_arith)
                requires i <= count;
            out.push(CanFrame {
                timestamp: i as u64 * 1000,
                id,
                extended,
                rtr: false,
                dlc,
                data: d,
                direction: CanDirection::Rx,
            });
            i = i + 1;
        }
        out
    }

    /// `count` standard frames cycling through `ids`, each with `min(data_len, 8)`
    /// bytes whose first byte is the frame index (truncated), 1 ms apart.
    /// With frames to produce, `ids` and the data length must be non-empty
    /// (indexing panics otherwise).
    pub fn cycling(ids: &[u32], data_len: u8, count: usize) -> (r: Vec<CanFrame>)
        requires
            count == 0 || (ids@.len() > 0 && data_len > 0),
            count * 1000 <= u64::MAX,
        ensures
            r@.len() == count,
            forall|i: int| 0 <= i < count ==> generated_frame(#[trigger] r@[i], i, ids@[i % ids@.len() as int], false,
                if data_len < 8 { data_len } else { 8 },
                first_then_zeros(i as u8, (if data_len < 8 { data_len } else { 8 }) as nat)),
    {
        let dlc: u8 = if data_len < 8 { data_len } else { 8 };
        let mut out: Vec<CanFrame> = Vec::new();
        let mut i: usize = 0;
        while i < count
            invariant
                i <= count,
                count == 0 || (ids@.len() > 0 && data_len > 0),
                count * 1000 <= u64::MAX,
                dlc == (if data_len < 8 { data_len } else { 8 }),
                out@.len() == i,
                forall|j: int| 0 <= j < i ==> generated_frame(#[trigger] out@[j], j, ids@[j % ids@.len() as int], false, dlc, first_then_zeros(j as u8, dlc as nat)),
            decreases count - i,
        {
            let id = ids[i % ids.len()];
            let data = bytes_first_then_zeros(i as u8, dlc as usize);
            assert(i * 1000 <= count * 1000) by (nonlinear_arith)
                requires i <= count;
            out.push(CanFrame {
                timestamp: i as u64 * 1000,
                id,
                extended: false,
                rtr: false,
                dlc,
                data,
                direction: CanDirection::Rx,
            });
            i = i + 1;
        }
        out
    }

    /// A standard frame with `dlc` zero data bytes, both capped at 8.
    pub fn load_frame(id: u32, dlc: u8, timestamp_us: u64) -> (r: CanFrame)
        ensures
            r.timestamp == timestamp_us,
            r.id == id,
            !r.extended,
            !r.rtr,
            r.dlc == (if dlc < 8 { dlc } else { 8 }),
            r.data@ == Seq::new(r.dlc as nat, |k: int| 0u8),
            r.direction == CanDirection::Rx,
    {
        let len: u8 = if dlc < 8 { dlc } else { 8 };
        CanFrame {
            timestamp: timestamp_us,
            id,
            extended: false,
            rtr: false,
            dlc: len,
            data: zeros(len as usize),
            direction: CanDirection::Rx,
        }
    }

    /// A frame carrying `data` truncated to 8 bytes.
    pub fn with_data(id: u32, data: Vec<u8>, extended: bool) -> (r: CanFrame)
        ensures
            r.timestamp == 0,
            r.id == id,
            r.extended == extended,
            !r.rtr,
            r.dlc as int == (if data@.len() < 8 { data@.len() as int } else { 8 }),
            r.data@ == data@.subrange(0, r.dlc as int),
            r.direction == CanDirection::Rx,
    {
        let dlc: u8 = if data.len() < 8 { data.len() as u8 } else { 8 };
        let d = prefix_copy(&data, dlc as usize);
        CanFrame {
            timestamp: 0,
            id,
            extended,
            rtr: false,
            dlc,
            data: d,
            direction: CanDirection::Rx,
        }
    }
}

spec fn old_out_at(s: Seq<CanFrame>, k: int) -> CanFrame {
    s[k]
}

} // verus!
