//! ISO-TP (ISO 15765-2) transport layer: frame layouts, the consecutive-frame
//! receiver and the per-request state machine of a session. Sending frames,
//! waiting and answering callers are left to the session task, which performs
//! the actions these functions return.

use vstd::prelude::*;

use std::collections::HashMap;

use crate::can::{CanDirection, CanFrame};

verus! {

broadcast use vstd::std_specs::hash::group_hash_axioms;

/// PCI type of a single frame.
pub const PCI_SF: u8 = 0x00;
/// PCI type of a first frame.
pub const PCI_FF: u8 = 0x10;
/// PCI type of a consecutive frame.
pub const PCI_CF: u8 = 0x20;
/// PCI type of a flow-control frame.
pub const PCI_FC: u8 = 0x30;
/// Flow status: continue to send.
pub const FC_CTS: u8 = 0x00;
/// Flow status: wait.
pub const FC_WAIT: u8 = 0x01;
/// Flow status: overflow.
pub const FC_OVERFLOW: u8 = 0x02;
/// Payload bytes of a single frame (classic CAN).
pub const SF_MAX_DATA: usize = 7;
/// Payload bytes carried by a first frame.
pub const FF_DATA_LEN: usize = 6;
/// Payload bytes carried by a consecutive frame.
pub const CF_DATA_LEN: usize = 7;
/// Largest message length a first frame can announce (12 bits).
pub const FF_DL_MAX: usize = 0xFFF;

/// Transport-layer failures reported to the requester.
#[derive(Debug, Clone, Copy, PartialEq, Eq, Structural)]
pub enum IsoTpError {
    /// The request is longer than a first frame can announce.
    TooLong { len: usize },
    /// A consecutive frame arrived with an unexpected sequence number.
    SequenceMismatch { expected: u8, received: u8 },
    /// The peer answered flow control with OVERFLOW.
    FlowOverflow,
}

// ---------------------------------------------------------------------------
// Frame layouts
// ---------------------------------------------------------------------------

/// `n` copies of `b`.
pub open spec fn fill(n: nat, b: u8) -> Seq<u8> {
    Seq::new(n, |i: int| b)
}

/// Single frame: PCI byte with the length, the payload, then padding (zero
/// when none is configured) up to 8 bytes.
pub open spec fn single_frame_spec(data: Seq<u8>, padding: Option<u8>) -> Seq<u8> {
    let pad = match padding {
        Some(p) => p,
        None => 0u8,
    };
    seq![data.len() as u8] + data + fill((7 - data.len()) as nat, pad)
}

/// Payload bytes a consecutive frame carries from `offset`.
pub open spec fn cf_take(len: nat, offset: nat) -> nat {
    if len - offset < 7 {
        (len - offset) as nat
    } else {
        7
    }
}

/// Consecutive frame with sequence number `sn` carrying data from `offset`,
/// zero-filled to 8 bytes.
pub open spec fn consecutive_frame_spec(data: Seq<u8>, offset: nat, sn: u8) -> Seq<u8> {
    let take = cf_take(data.len(), offset);
    seq![(0x20u8 | (sn & 0x0Fu8)) as u8] + data.subrange(offset as int, (offset + take) as int) + fill(
        (7 - take) as nat,
        0,
    )
}

/// Flow control "continue to send" without block-size or separation limits.
pub open spec fn flow_control_cts_spec() -> Seq<u8> {
    seq![0x30u8, 0, 0, 0, 0, 0, 0, 0]
}

/// Separation time in microseconds encoded by an STmin byte: 0-127 ms,
/// 241-249 as 100-900 us, the reserved values as zero.
pub open spec fn st_min_micros_spec(st_min: u8) -> u64 {
    if st_min <= 127 {
        (st_min as u64 * 1000) as u64
    } else if 241 <= st_min <= 249 {
        ((st_min as u64 - 240) * 100) as u64
    } else {
        0
    }
}

/// STmin units: bytes 0x00-0x7F count milliseconds, 0xF1-0xF9 count
/// hundreds of microseconds, and every reserved byte means no separation.
pub proof fn lemma_st_min_units(ms: u8, k: u8, b: u8)
    ensures
        ms <= 0x7F ==> st_min_micros_spec(ms) == 1000 * ms,
        1 <= k <= 9 ==> st_min_micros_spec((0xF0 + k) as u8) == 100 * k,
        (0x80 <= b <= 0xF0 || 0xFA <= b) ==> st_min_micros_spec(b) == 0,
{
}

/// ISO 15765-2 frame layouts: each frame is 8 bytes and its first byte's
/// high nibble names the frame type (0 single, 1 first, 2 consecutive,
/// 3 flow control). A single frame holds the payload length in the low
/// nibble and the payload next; a first frame holds the 12-bit total length
/// in its low nibble and second byte, then the first 6 payload bytes; a
/// consecutive frame holds its sequence number modulo 16, then the next
/// payload bytes.
pub proof fn lemma_isotp_frame_layouts(data: Seq<u8>, padding: Option<u8>, offset: nat, sn: u8)
    ensures
        data.len() <= 7 ==> {
            let f = single_frame_spec(data, padding);
            &&& f.len() == 8
            &&& f[0] / 16 == 0
            &&& f[0] % 16 == data.len()
            &&& f.subrange(1, 1 + data.len() as int) == data
        },
        8 <= data.len() <= 0xFFF ==> {
            let f = first_frame_spec(data);
            &&& f.len() == 8
            &&& f[0] / 16 == 1
            &&& (f[0] % 16) * 256 + f[1] == data.len()
            &&& f.subrange(2, 8) == data.take(6)
        },
        offset < data.len() ==> {
            let f = consecutive_frame_spec(data, offset, sn);
            let n = cf_take(data.len(), offset);
            &&& f.len() == 8
            &&& f[0] / 16 == 2
            &&& f[0] % 16 == sn % 16
            &&& 1 <= n <= 7
            &&& f.subrange(1, 1 + n as int) == data.subrange(offset as int, (offset + n) as int)
        },
        flow_control_cts_spec().len() == 8 && flow_control_cts_spec()[0] / 16 == 3,
{
    if data.len() <= 7 {
        let f = single_frame_spec(data, padding);
        assert(f.subrange(1, 1 + data.len() as int) =~= data);
    }
    if 8 <= data.len() <= 0xFFF {
        let f = first_frame_spec(data);
        let hi = (data.len() / 256) as u8;
        assert(hi < 16);
        assert((0x10u8 | hi) / 16 == 1 && (0x10u8 | hi) % 16 == hi) by (bit_vector)
            requires
                hi < 16,
        ;
        assert(f.subrange(2, 8) =~= data.take(6));
    }
    if offset < data.len() {
        let f = consecutive_frame_spec(data, offset, sn);
        let n = cf_take(data.len(), offset);
        assert((0x20u8 | (sn & 0x0Fu8)) / 16 == 2 && (0x20u8 | (sn & 0x0Fu8)) % 16 == sn % 16) by (bit_vector);
        assert(f.subrange(1, 1 + n as int) =~= data.subrange(offset as int, (offset + n) as int));
    }
}

/// Builds a single frame for a payload of at most 7 bytes.
pub fn single_frame(data: &[u8], padding: Option<u8>) -> (r: Vec<u8>)
    requires
        data@.len() <= SF_MAX_DATA,
    ensures
        r@ == single_frame_spec(data@, padding),
{
    let n = data.len();
    let mut out: Vec<u8> = Vec::new();
    out.push(PCI_SF | n as u8);
    assert((0u8 | n as u8) == n as u8) by (bit_vector);
    out.extend_from_slice(data);
    let pad = match padding {
        Some(p) => p,
        None => 0u8,
    };
    while out.len() < 8
        invariant
            1 + n <= out@.len() <= 8,
            n <= 7,
            out@.subrange(0, 1 + n as int) == seq![n as u8] + data@,
            forall|k: int| 1 + n <= k < out@.len() ==> out@[k] == pad,
        decreases 8 - out.len(),
    {
        out.push(pad);
    }
    assert(out@ =~= single_frame_spec(data@, padding)) by {
        assert forall|k: int| 0 <= k < 1 + n implies out@[k] == (seq![n as u8] + data@)[k] by {
            assert(out@[k] == out@.subrange(0, 1 + n as int)[k]);
        }
    }
    out
}

/// Builds the consecutive frame with sequence number `sn` carrying data from `offset`.
pub fn consecutive_frame(data: &[u8], offset: usize, sn: u8) -> (r: Vec<u8>)
    requires
        offset <= data@.len(),
    ensures
        r@ == consecutive_frame_spec(data@, offset as nat, sn),
{
    let rest = data.len() - offset;
    let take = if rest < CF_DATA_LEN { rest } else { CF_DATA_LEN };
    let mut out: Vec<u8> = Vec::new();
    out.push(PCI_CF | (sn & 0x0F));
    let mut i: usize = 0;
    while i < take
        invariant
            i <= take,
            take <= 7,
            offset + take <= data.len(),
            out@ == seq![(0x20u8 | (sn & 0x0Fu8)) as u8] + data@.subrange(
                offset as int,
                offset + i,
            ),
        decreases take - i,
    {
        out.push(data[offset + i]);
        i = i + 1;
        assert(out@ =~= seq![(0x20u8 | (sn & 0x0Fu8)) as u8] + data@.subrange(
            offset as int,
            offset + i,
        ));
    }
    let ghost head = out@;
    while out.len() < 8
        invariant
            1 + take <= out@.len() <= 8,
            take <= 7,
            out@.subrange(0, 1 + take as int) == head,
            head.len() == 1 + take,
            forall|k: int| 1 + take <= k < out@.len() ==> out@[k] == 0,
        decreases 8 - out.len(),
    {
        out.push(0);
    }
    assert(out@ =~= consecutive_frame_spec(data@, offset as nat, sn)) by {
        assert forall|k: int| 0 <= k < 1 + take implies out@[k] == head[k] by {
            assert(out@[k] == out@.subrange(0, 1 + take as int)[k]);
        }
    }
    out
}

/// Flow-control frame: continue to send, no limits.
pub fn flow_control_cts() -> (r: Vec<u8>)
    ensures
        r@ == flow_control_cts_spec(),
{
    let r = vec![PCI_FC, FC_CTS, 0, 0, 0, 0, 0, 0];
    assert(r@ =~= flow_control_cts_spec());
    r
}

/// Separation time in microseconds for an STmin byte.
pub fn st_min_micros(st_min: u8) -> (r: u64)
    ensures
        r == st_min_micros_spec(st_min),
{
    if st_min <= 127 {
        st_min as u64 * 1000
    } else if 241 <= st_min && st_min <= 249 {
        (st_min as u64 - 240) * 100
    } else {
        0
    }
}

// ---------------------------------------------------------------------------
// Receiver
// ---------------------------------------------------------------------------

/// Reassembly state after a first frame.
#[derive(Debug)]
pub struct Receiver {
    /// Total length announced by the first frame.
    pub expected_len: usize,
    /// Bytes received so far.
    pub buffer: Vec<u8>,
    /// Sequence number expected next (0..=15, wrapping).
    pub next_sn: u8,
}

/// Buffer after appending a consecutive frame's payload (cut at the announced length).
pub open spec fn appended(buffer: Seq<u8>, expected: nat, data: Seq<u8>) -> Seq<u8> {
    let remaining = expected - buffer.len();
    let take = if data.len() < remaining {
        data.len()
    } else {
        remaining as nat
    };
    buffer + data.take(take as int)
}

impl Receiver {
    pub open spec fn well_formed(&self) -> bool {
        self.buffer@.len() <= self.expected_len && self.next_sn < 16
    }

    /// Receiver for a message of `expected_len` bytes; the first consecutive
    /// frame carries sequence number 1.
    pub fn new(expected_len: usize) -> (r: Self)
        ensures
            r.expected_len == expected_len,
            r.buffer@ == Seq::<u8>::empty(),
            r.next_sn == 1,
    {
        Receiver { expected_len, buffer: Vec::new(), next_sn: 1 }
    }

    /// Feeds a consecutive frame: a wrong sequence number is an error; otherwise
    /// its payload is appended (cut at the announced length) and the complete
    /// message is handed out once every byte has arrived.
    pub fn push_cf(&mut self, sn: u8, data: &[u8]) -> (r: Result<Option<Vec<u8>>, IsoTpError>)
        requires
            old(self).well_formed(),
        ensures
            final(self).well_formed(),
            final(self).expected_len == old(self).expected_len,
            sn != old(self).next_sn ==> {
                &&& r == Err::<Option<Vec<u8>>, IsoTpError>(
                    IsoTpError::SequenceMismatch { expected: old(self).next_sn, received: sn },
                )
                &&& final(self).buffer@ == old(self).buffer@
                &&& final(self).next_sn == old(self).next_sn
            },
            sn == old(self).next_sn ==> {
                let full = appended(old(self).buffer@, old(self).expected_len as nat, data@);
                &&& final(self).next_sn == (old(self).next_sn + 1) % 16
                &&& if full.len() >= old(self).expected_len {
                    &&& r matches Ok(Some(v)) && v@ == full
                    &&& final(self).buffer@ == Seq::<u8>::empty()
                } else {
                    &&& r matches Ok(None)
                    &&& final(self).buffer@ == full
                }
            },
    {
        if sn != self.next_sn {
            return Err(IsoTpError::SequenceMismatch { expected: self.next_sn, received: sn });
        }
        let cur = self.next_sn;
        self.next_sn = (cur + 1) & 0x0F;
        assert(((cur + 1) as u8 & 0x0Fu8) == (cur + 1) % 16) by (bit_vector)
            requires
                cur < 16,
        ;
        let remaining = self.expected_len - self.buffer.len();
        let take = if data.len() < remaining { data.len() } else { remaining };
        let ghost before = self.buffer@;
        let mut i: usize = 0;
        while i < take
            invariant
                i <= take,
                take <= data@.len(),
                before.len() + take <= self.expected_len,
                self.buffer@ == before + data@.take(i as int),
                self.expected_len == old(self).expected_len,
                self.next_sn == (cur + 1) % 16,
                before == old(self).buffer@,
                take == (if data@.len() < self.expected_len - before.len() {
                    data@.len()
                } else {
                    (self.expected_len - before.len()) as nat
                }),
            decreases take - i,
        {
            self.buffer.push(data[i]);
            i = i + 1;
            assert(self.buffer@ =~= before + data@.take(i as int));
        }
        if self.buffer.len() >= self.expected_len {
            let mut done: Vec<u8> = Vec::new();
            std::mem::swap(&mut done, &mut self.buffer);
            Ok(Some(done))
        } else {
            Ok(None)
        }
    }
}

// ---------------------------------------------------------------------------
// Request state machine
// ---------------------------------------------------------------------------

/// State of a request waiting on a receive id.
#[derive(Debug)]
pub enum PendingState {
    /// First frame sent; waiting for flow control before sending data from `offset`.
    WaitingForFc { data: Vec<u8>, offset: usize, next_sn: u8 },
    /// Request sent completely; waiting for the response.
    WaitingForResponse,
    /// Response announced by a first frame; collecting consecutive frames.
    Receiving { receiver: Receiver },
}

/// A request in flight: the id it was sent on and its state.
#[derive(Debug)]
pub struct Pending {
    pub tx_id: u32,
    pub state: PendingState,
}

/// What the session task must do after a received frame.
#[derive(Debug)]
pub enum FrameAction {
    /// Nothing to send or report.
    NoAction,
    /// The request waiting on `rx_id` is finished with `result` (already removed).
    Complete { rx_id: u32, result: Result<Vec<u8>, IsoTpError> },
    /// Send `frame` (flow control) on `tx_id`. If that fails the request fails
    /// (call [`IsoTpRequests::fail`]); otherwise `completed`, when present, is the
    /// whole response, already taken off the table.
    SendFlowControl { rx_id: u32, tx_id: u32, frame: Vec<u8>, completed: Option<Vec<u8>> },
    /// Send `frames` on `tx_id` in order, waiting `st_min_us` after each one
    /// except after the last when `finished`. If a send fails the request fails
    /// (call [`IsoTpRequests::fail`]).
    SendBlock { rx_id: u32, tx_id: u32, frames: Vec<Vec<u8>>, st_min_us: u64, finished: bool },
}

/// Mathematical form of a request state.
pub enum PendingView {
    WaitingForFc { data: Seq<u8>, offset: nat, next_sn: u8 },
    WaitingForResponse,
    Receiving { expected_len: nat, buffer: Seq<u8>, next_sn: u8 },
}

/// Mathematical form of a [`FrameAction`].
pub enum ActionView {
    NoAction,
    Complete { rx_id: u32, result: Result<Seq<u8>, IsoTpError> },
    SendFlowControl { rx_id: u32, tx_id: u32, frame: Seq<u8>, completed: Option<Seq<u8>> },
    SendBlock { rx_id: u32, tx_id: u32, frames: Seq<Seq<u8>>, st_min_us: u64, finished: bool },
}

impl PendingState {
    pub open spec fn view(&self) -> PendingView {
        match self {
            PendingState::WaitingForFc { data, offset, next_sn } => PendingView::WaitingForFc {
                data: data@,
                offset: *offset as nat,
                next_sn: *next_sn,
            },
            PendingState::WaitingForResponse => PendingView::WaitingForResponse,
            PendingState::Receiving { receiver } => PendingView::Receiving {
                expected_len: receiver.expected_len as nat,
                buffer: receiver.buffer@,
                next_sn: receiver.next_sn,
            },
        }
    }

    pub open spec fn well_formed(&self) -> bool {
        match self {
            PendingState::WaitingForFc { data, offset, next_sn } => *offset <= data@.len()
                && *next_sn < 16,
            PendingState::WaitingForResponse => true,
            PendingState::Receiving { receiver } => receiver.well_formed(),
        }
    }
}

impl Pending {
    pub open spec fn view(&self) -> (u32, PendingView) {
        (self.tx_id, self.state.view())
    }
}

/// Byte `i` of a frame, 0 when the frame is shorter.
pub open spec fn byte_or_zero(d: Seq<u8>, i: int) -> u8 {
    if i < d.len() {
        d[i]
    } else {
        0
    }
}

/// Message length announced by a first frame.
pub open spec fn ff_dl_spec(d: Seq<u8>) -> nat {
    ((d[0] & 0x0Fu8) as nat) * 256 + d[1] as nat
}

/// Consecutive frames in one flow-control block: all remaining data when the
/// block size is 0, otherwise at most `bs` frames.
pub open spec fn block_len(len: nat, offset: nat, bs: u8) -> nat {
    let needed: nat = if offset >= len {
        0
    } else {
        ((len - offset + 6) / 7) as nat
    };
    if bs == 0 || needed <= bs {
        needed
    } else {
        bs as nat
    }
}

/// The `n` consecutive frames sent from `offset` with first sequence number `sn`.
pub open spec fn block_frames_spec(data: Seq<u8>, offset: nat, sn: u8, n: nat) -> Seq<Seq<u8>> {
    Seq::new(
        n,
        |k: int| consecutive_frame_spec(data, (offset + 7 * k) as nat, ((sn + k) % 16) as u8),
    )
}

/// Data offset after sending `n` consecutive frames from `offset`.
pub open spec fn offset_after(len: nat, offset: nat, n: nat) -> nat {
    if offset + 7 * n >= len {
        len
    } else {
        offset + 7 * n
    }
}

/// Flow-control frame received for `id`.
pub open spec fn fc_step(m: Map<u32, (u32, PendingView)>, id: u32, d: Seq<u8>) -> (
    Map<u32, (u32, PendingView)>,
    ActionView,
) {
    if !m.contains_key(id) || !(m[id].1 is WaitingForFc) {
        (m, ActionView::NoAction)
    } else {
        let tx = m[id].0;
        let data = m[id].1->WaitingForFc_data;
        let offset = m[id].1->WaitingForFc_offset;
        let sn = m[id].1->WaitingForFc_next_sn;
        let fs = byte_or_zero(d, 1);
        let bs = byte_or_zero(d, 2);
        let st = byte_or_zero(d, 3);
        if fs == 2 {
            (
                m.remove(id),
                ActionView::Complete { rx_id: id, result: Err(IsoTpError::FlowOverflow) },
            )
        } else if fs == 1 {
            (m, ActionView::NoAction)
        } else {
            let n = block_len(data.len(), offset, bs);
            let off2 = offset_after(data.len(), offset, n);
            let finished = off2 >= data.len();
            let next = if finished {
                PendingView::WaitingForResponse
            } else {
                PendingView::WaitingForFc { data, offset: off2, next_sn: ((sn + n) % 16) as u8 }
            };
            (
                m.insert(id, (tx, next)),
                ActionView::SendBlock {
                    rx_id: id,
                    tx_id: tx,
                    frames: block_frames_spec(data, offset, sn, n),
                    st_min_us: st_min_micros_spec(st),
                    finished,
                },
            )
        }
    }
}

/// Single frame received for `id`: it answers the request waiting there.
pub open spec fn sf_step(m: Map<u32, (u32, PendingView)>, id: u32, d: Seq<u8>) -> (
    Map<u32, (u32, PendingView)>,
    ActionView,
) {
    let dl = (d[0] & 0x0Fu8) as nat;
    if dl == 0 || dl > 7 || !m.contains_key(id) {
        (m, ActionView::NoAction)
    } else {
        (m.remove(id), ActionView::Complete { rx_id: id, result: Ok(d.subrange(1, (1 + dl) as int)) })
    }
}

/// First frame received for `id`: flow control goes out and reassembly starts.
pub open spec fn ff_step(m: Map<u32, (u32, PendingView)>, id: u32, d: Seq<u8>) -> (
    Map<u32, (u32, PendingView)>,
    ActionView,
) {
    let dl = ff_dl_spec(d);
    if dl == 0 || dl > 0xFFF || !m.contains_key(id) {
        (m, ActionView::NoAction)
    } else {
        let tx = m[id].0;
        let take: nat = if dl < 6 {
            dl
        } else {
            6
        };
        let payload = d.subrange(2, (2 + take) as int);
        if payload.len() >= dl {
            (
                m.remove(id),
                ActionView::SendFlowControl {
                    rx_id: id,
                    tx_id: tx,
                    frame: flow_control_cts_spec(),
                    completed: Some(payload),
                },
            )
        } else {
            (
                m.insert(
                    id,
                    (tx, PendingView::Receiving { expected_len: dl, buffer: payload, next_sn: 1 }),
                ),
                ActionView::SendFlowControl {
                    rx_id: id,
                    tx_id: tx,
                    frame: flow_control_cts_spec(),
                    completed: None,
                },
            )
        }
    }
}

/// Consecutive frame received for `id`: fed to the receiver collecting there.
pub open spec fn cf_step(m: Map<u32, (u32, PendingView)>, id: u32, d: Seq<u8>) -> (
    Map<u32, (u32, PendingView)>,
    ActionView,
) {
    let sn = d[0] & 0x0Fu8;
    let end: int = if d.len() < 8 {
        d.len() as int
    } else {
        8
    };
    let payload = d.subrange(1, end);
    if !m.contains_key(id) || !(m[id].1 is Receiving) {
        (m, ActionView::NoAction)
    } else {
        let tx = m[id].0;
        let expected = m[id].1->Receiving_expected_len;
        let buffer = m[id].1->Receiving_buffer;
        let next_sn = m[id].1->Receiving_next_sn;
        if sn != next_sn {
            (
                m.remove(id),
                ActionView::Complete {
                    rx_id: id,
                    result: Err(IsoTpError::SequenceMismatch { expected: next_sn, received: sn }),
                },
            )
        } else {
            let full = appended(buffer, expected, payload);
            if full.len() >= expected {
                (m.remove(id), ActionView::Complete { rx_id: id, result: Ok(full) })
            } else {
                (
                    m.insert(
                        id,
                        (
                            tx,
                            PendingView::Receiving {
                                expected_len: expected,
                                buffer: full,
                                next_sn: ((next_sn + 1) % 16) as u8,
                            },
                        ),
                    ),
                    ActionView::NoAction,
                )
            }
        }
    }
}

/// Effect of a received frame on the request table and the resulting action:
/// sent frames and empty frames are ignored; the PCI type selects the handler.
pub open spec fn frame_step(m: Map<u32, (u32, PendingView)>, frame: CanFrame) -> (
    Map<u32, (u32, PendingView)>,
    ActionView,
) {
    let d = frame.data@;
    if frame.direction == CanDirection::Tx || d.len() == 0 {
        (m, ActionView::NoAction)
    } else {
        let pci = d[0] & 0xF0u8;
        if pci == 0x30 {
            fc_step(m, frame.id, d)
        } else if pci == 0x00 {
            sf_step(m, frame.id, d)
        } else if pci == 0x10 {
            ff_step(m, frame.id, d)
        } else if pci == 0x20 {
            cf_step(m, frame.id, d)
        } else {
            (m, ActionView::NoAction)
        }
    }
}

/// Received frames whose handling would index past their data: a single
/// frame shorter than its announced length, a first frame without its length
/// byte, or (with a request waiting on its id) without its payload.
pub open spec fn frame_out_of_bounds(m: Map<u32, (u32, PendingView)>, frame: CanFrame) -> bool {
    let d = frame.data@;
    &&& frame.direction == CanDirection::Rx
    &&& d.len() > 0
    &&& {
        let pci = d[0] & 0xF0u8;
        let sf_dl = (d[0] & 0x0Fu8) as nat;
        ||| pci == 0x00 && 1 <= sf_dl <= 7 && d.len() < 1 + sf_dl
        ||| pci == 0x10 && d.len() < 2
        ||| pci == 0x10 && d.len() >= 2 && 1 <= ff_dl_spec(d) && m.contains_key(frame.id) && d.len()
            < 2 + (if ff_dl_spec(d) < 6 {
            ff_dl_spec(d)
        } else {
            6
        })
    }
}

impl FrameAction {
    pub open spec fn view(&self) -> ActionView {
        match self {
            FrameAction::NoAction => ActionView::NoAction,
            FrameAction::Complete { rx_id, result } => ActionView::Complete {
                rx_id: *rx_id,
                result: match result {
                    Ok(v) => Ok(v@),
                    Err(e) => Err(*e),
                },
            },
            FrameAction::SendFlowControl { rx_id, tx_id, frame, completed } => {
                ActionView::SendFlowControl {
                    rx_id: *rx_id,
                    tx_id: *tx_id,
                    frame: frame@,
                    completed: match completed {
                        Some(v) => Some(v@),
                        None => None,
                    },
                }
            },
            FrameAction::SendBlock { rx_id, tx_id, frames, st_min_us, finished } => {
                ActionView::SendBlock {
                    rx_id: *rx_id,
                    tx_id: *tx_id,
                    frames: frames@.map_values(|f: Vec<u8>| f@),
                    st_min_us: *st_min_us,
                    finished: *finished,
                }
            },
        }
    }
}

/// First frame of a segmented request: the PCI nibble with the high four
/// length bits, the low length byte, then the first 6 payload bytes.
pub fn first_frame(data: &[u8]) -> (r: Vec<u8>)
    requires
        SF_MAX_DATA < data@.len() <= FF_DL_MAX,
    ensures
        r@ == first_frame_spec(data@),
{
    let n = data.len();
    let hi: u8 = (n / 256) as u8;
    let lo: u8 = (n % 256) as u8;
    let mut out: Vec<u8> = Vec::new();
    out.push(PCI_FF | hi);
    out.push(lo);
    let mut i: usize = 0;
    while i < FF_DATA_LEN
        invariant
            i <= FF_DATA_LEN,
            FF_DATA_LEN < data@.len(),
            out@ == seq![(0x10u8 | hi) as u8, lo] + data@.take(i as int),
        decreases FF_DATA_LEN - i,
    {
        out.push(data[i]);
        assert(data@.take(i as int).push(data@[i as int]) =~= data@.take(i + 1));
        i = i + 1;
    }
    out
}

/// Validates a request and builds the frame that opens it: requests longer
/// than 0xFFF bytes are refused, requests of at most 7 bytes go out as one
/// single frame, longer ones start with a first frame carrying 6 bytes.
pub fn plan_request(data: &[u8], padding: Option<u8>) -> (r: Result<Vec<u8>, IsoTpError>)
    ensures
        data@.len() > FF_DL_MAX ==> r == Err::<Vec<u8>, IsoTpError>(
            IsoTpError::TooLong { len: data@.len() as usize },
        ),
        data@.len() <= SF_MAX_DATA ==> (r matches Ok(f) && f@ == single_frame_spec(
            data@,
            padding,
        )),
        SF_MAX_DATA < data@.len() <= FF_DL_MAX ==> (r matches Ok(f) && f@ == first_frame_spec(
            data@,
        )),
{
    if data.len() > FF_DL_MAX {
        return Err(IsoTpError::TooLong { len: data.len() });
    }
    if data.len() <= SF_MAX_DATA {
        Ok(single_frame(data, padding))
    } else {
        Ok(first_frame(data))
    }
}

/// Table of requests in flight, keyed by the id their answer arrives on.
#[derive(Debug)]
pub struct IsoTpRequests {
    pending: HashMap<u32, Pending>,
}

impl IsoTpRequests {
    pub closed spec fn view(&self) -> Map<u32, (u32, PendingView)> {
        self.pending@.map_values(|p: Pending| p.view())
    }

    /// Every request state is consistent (offsets within data, receivers well formed).
    pub closed spec fn well_formed(&self) -> bool {
        forall|k: u32| #[trigger] self.pending@.contains_key(k) ==> self.pending@[k].state.well_formed()
    }

    pub fn new() -> (r: Self)
        ensures
            r.well_formed(),
            r@ == Map::<u32, (u32, PendingView)>::empty(),
    {
        let r = IsoTpRequests { pending: HashMap::new() };
        assert(r@ =~= Map::<u32, (u32, PendingView)>::empty());
        r
    }

    /// Records a request whose first frame went out on `tx_id`: short requests
    /// wait for the response, long ones for flow control (data from byte 6 on,
    /// sequence number 1). A request already waiting on `rx_id` is replaced.
    pub fn request_sent(&mut self, tx_id: u32, rx_id: u32, data: Vec<u8>)
        requires
            old(self).well_formed(),
            data@.len() <= FF_DL_MAX,
        ensures
            final(self).well_formed(),
            final(self)@ == old(self)@.insert(
                rx_id,
                (
                    tx_id,
                    if data@.len() <= SF_MAX_DATA {
                        PendingView::WaitingForResponse
                    } else {
                        PendingView::WaitingForFc { data: data@, offset: 6, next_sn: 1 }
                    },
                ),
            ),
    {
        let state = if data.len() <= SF_MAX_DATA {
            PendingState::WaitingForResponse
        } else {
            PendingState::WaitingForFc { data, offset: FF_DATA_LEN, next_sn: 1 }
        };
        let _ = self.pending.insert(rx_id, Pending { tx_id, state });
        assert(self@ =~= old(self)@.insert(rx_id, (tx_id, state.view())));
    }

    /// Drops the request waiting on `rx_id` (its send failed).
    pub fn fail(&mut self, rx_id: u32)
        requires
            old(self).well_formed(),
        ensures
            final(self).well_formed(),
            final(self)@ == old(self)@.remove(rx_id),
    {
        let _ = self.pending.remove(&rx_id);
        assert(self@ =~= old(self)@.remove(rx_id));
    }

    /// Whether a request waits on `rx_id`.
    pub fn is_pending(&self, rx_id: u32) -> (r: bool)
        ensures
            r == self@.contains_key(rx_id),
    {
        self.pending.contains_key(&rx_id)
    }

    pub fn len(&self) -> (r: usize)
        ensures
            r == self@.len(),
    {
        assert(self@.dom() =~= self.pending@.dom());
        self.pending.len()
    }

    /// Whether handling `frame` stays within its data (see [`frame_out_of_bounds`]).
    pub fn frame_in_bounds(&self, frame: &CanFrame) -> (r: bool)
        ensures
            r == !frame_out_of_bounds(self@, *frame),
    {
        let n = frame.data.len();
        if frame.direction == CanDirection::Tx || n == 0 {
            return true;
        }
        let b0 = frame.data[0];
        let pci = b0 & 0xF0;
        if pci == PCI_SF {
            let dl = (b0 & 0x0F) as usize;
            return !(1 <= dl && dl <= 7 && n < 1 + dl);
        }
        if pci == PCI_FF {
            if n < 2 {
                return false;
            }
            let dl = ((b0 & 0x0F) as usize) * 256 + frame.data[1] as usize;
            let take = if dl < FF_DATA_LEN { dl } else { FF_DATA_LEN };
            return !(1 <= dl && self.pending.contains_key(&frame.id) && n < 2 + take);
        }
        true
    }

    /// Handles a received frame: updates the request table and returns what the
    /// session task must do next.
    pub fn handle_frame(&mut self, frame: &CanFrame) -> (r: FrameAction)
        requires
            old(self).well_formed(),
            !frame_out_of_bounds(old(self)@, *frame),
        ensures
            final(self).well_formed(),
            (final(self)@, r.view()) == frame_step(old(self)@, *frame),
    {
        if frame.direction == CanDirection::Tx || frame.data.len() == 0 {
            return FrameAction::NoAction;
        }
        let pci = frame.data[0] & 0xF0;
        if pci == PCI_FC {
            self.handle_fc(frame)
        } else if pci == PCI_SF {
            self.handle_sf(frame)
        } else if pci == PCI_FF {
            self.handle_ff(frame)
        } else if pci == PCI_CF {
            self.handle_cf(frame)
        } else {
            FrameAction::NoAction
        }
    }

    /// Copies `d[start..end]`.
    fn copy_range(d: &Vec<u8>, start: usize, end: usize) -> (r: Vec<u8>)
        requires
            start <= end <= d@.len(),
        ensures
            r@ == d@.subrange(start as int, end as int),
    {
        let mut out: Vec<u8> = Vec::new();
        let mut i: usize = start;
        while i < end
            invariant
                start <= i <= end <= d@.len(),
                out@ == d@.subrange(start as int, i as int),
            decreases end - i,
        {
            out.push(d[i]);
            i = i + 1;
            assert(out@ =~= d@.subrange(start as int, i as int));
        }
        out
    }

    fn handle_sf(&mut self, frame: &CanFrame) -> (r: FrameAction)
        requires
            old(self).well_formed(),
            frame.data@.len() > 0,
            (frame.data@[0] & 0xF0u8) == 0x00,
            !frame_out_of_bounds(old(self)@, *frame),
            frame.direction == CanDirection::Rx,
        ensures
            final(self).well_formed(),
            (final(self)@, r.view()) == sf_step(old(self)@, frame.id, frame.data@),
    {
        let id = frame.id;
        let dl = (frame.data[0] & 0x0F) as usize;
        if dl == 0 || dl > SF_MAX_DATA {
            return FrameAction::NoAction;
        }
        let data = Self::copy_range(&frame.data, 1, 1 + dl);
        match self.pending.remove(&id) {
            None => {
                assert(self.pending@ =~= old(self).pending@);
                FrameAction::NoAction
            },
            Some(_) => {
                assert(self@ =~= old(self)@.remove(id));
                FrameAction::Complete { rx_id: id, result: Ok(data) }
            },
        }
    }

    fn handle_ff(&mut self, frame: &CanFrame) -> (r: FrameAction)
        requires
            old(self).well_formed(),
            frame.data@.len() > 0,
            (frame.data@[0] & 0xF0u8) == 0x10,
            !frame_out_of_bounds(old(self)@, *frame),
            frame.direction == CanDirection::Rx,
        ensures
            final(self).well_formed(),
            (final(self)@, r.view()) == ff_step(old(self)@, frame.id, frame.data@),
    {
        let id = frame.id;
        let dl = ((frame.data[0] & 0x0F) as usize) * 256 + frame.data[1] as usize;
        if dl == 0 || dl > FF_DL_MAX {
            return FrameAction::NoAction;
        }
        match self.pending.remove(&id) {
            None => {
                assert(self.pending@ =~= old(self).pending@);
                FrameAction::NoAction
            },
            Some(p) => {
                let tx_id = p.tx_id;
                let fc = flow_control_cts();
                let take = if dl < FF_DATA_LEN { dl } else { FF_DATA_LEN };
                let payload = Self::copy_range(&frame.data, 2, 2 + take);
                if payload.len() >= dl {
                    assert(self@ =~= old(self)@.remove(id));
                    FrameAction::SendFlowControl { rx_id: id, tx_id, frame: fc, completed: Some(payload) }
                } else {
                    let mut receiver = Receiver::new(dl);
                    receiver.buffer = payload;
                    let np = Pending { tx_id, state: PendingState::Receiving { receiver } };
                    let _ = self.pending.insert(id, np);
                    assert(self@ =~= old(self)@.insert(id, np.view()));
                    FrameAction::SendFlowControl { rx_id: id, tx_id, frame: fc, completed: None }
                }
            },
        }
    }

    fn handle_cf(&mut self, frame: &CanFrame) -> (r: FrameAction)
        requires
            old(self).well_formed(),
            frame.data@.len() > 0,
            (frame.data@[0] & 0xF0u8) == 0x20,
            frame.direction == CanDirection::Rx,
        ensures
            final(self).well_formed(),
            (final(self)@, r.view()) == cf_step(old(self)@, frame.id, frame.data@),
    {
        let id = frame.id;
        let sn = frame.data[0] & 0x0F;
        let n = frame.data.len();
        let end = if n < 8 { n } else { 8 };
        let payload = Self::copy_range(&frame.data, 1, end);
        match self.pending.remove(&id) {
            None => {
                assert(self.pending@ =~= old(self).pending@);
                FrameAction::NoAction
            },
            Some(p) => {
                let Pending { tx_id, state } = p;
                match state {
                    PendingState::Receiving { mut receiver } => {
                        match receiver.push_cf(sn, payload.as_slice()) {
                            Err(e) => {
                                assert(self@ =~= old(self)@.remove(id));
                                FrameAction::Complete { rx_id: id, result: Err(e) }
                            },
                            Ok(Some(done)) => {
                                assert(self@ =~= old(self)@.remove(id));
                                FrameAction::Complete { rx_id: id, result: Ok(done) }
                            },
                            Ok(None) => {
                                let np = Pending { tx_id, state: PendingState::Receiving { receiver } };
                                let _ = self.pending.insert(id, np);
                                assert(self@ =~= old(self)@.insert(id, np.view()));
                                FrameAction::NoAction
                            },
                        }
                    },
                    other => {
                        let np = Pending { tx_id, state: other };
                        let _ = self.pending.insert(id, np);
                        assert(self.pending@ =~= old(self).pending@);
                        FrameAction::NoAction
                    },
                }
            },
        }
    }

    fn handle_fc(&mut self, frame: &CanFrame) -> (r: FrameAction)
        requires
            old(self).well_formed(),
            frame.data@.len() > 0,
            (frame.data@[0] & 0xF0u8) == 0x30,
            frame.direction == CanDirection::Rx,
        ensures
            final(self).well_formed(),
            (final(self)@, r.view()) == fc_step(old(self)@, frame.id, frame.data@),
    {
        let id = frame.id;
        let n = frame.data.len();
        let fs = if n > 1 { frame.data[1] } else { 0 };
        let bs = if n > 2 { frame.data[2] } else { 0 };
        let st = if n > 3 { frame.data[3] } else { 0 };
        match self.pending.remove(&id) {
            None => {
                assert(self.pending@ =~= old(self).pending@);
                FrameAction::NoAction
            },
            Some(p) => {
                let Pending { tx_id, state } = p;
                match state {
                    PendingState::WaitingForFc { data, offset, next_sn } => {
                        if fs == FC_OVERFLOW {
                            assert(self@ =~= old(self)@.remove(id));
                            FrameAction::Complete { rx_id: id, result: Err(IsoTpError::FlowOverflow) }
                        } else if fs == FC_WAIT {
                            let np = Pending { tx_id, state: PendingState::WaitingForFc { data, offset, next_sn } };
                            let _ = self.pending.insert(id, np);
                            assert(self.pending@ =~= old(self).pending@);
                            FrameAction::NoAction
                        } else {
                            let (frames, off2, sn2, finished) = plan_block(&data, offset, next_sn, bs);
                            let st_min_us = st_min_micros(st);
                            let next = if finished {
                                PendingState::WaitingForResponse
                            } else {
                                PendingState::WaitingForFc { data, offset: off2, next_sn: sn2 }
                            };
                            let np = Pending { tx_id, state: next };
                            let _ = self.pending.insert(id, np);
                            assert(self@ =~= old(self)@.insert(id, np.view()));
                            FrameAction::SendBlock { rx_id: id, tx_id, frames, st_min_us, finished }
                        }
                    },
                    other => {
                        let np = Pending { tx_id, state: other };
                        let _ = self.pending.insert(id, np);
                        assert(self.pending@ =~= old(self).pending@);
                        FrameAction::NoAction
                    },
                }
            },
        }
    }
}

/// The consecutive frames of one flow-control block, the offset and sequence
/// number after it, and whether the data is exhausted.
pub fn plan_block(data: &Vec<u8>, offset: usize, next_sn: u8, bs: u8) -> (r: (Vec<Vec<u8>>, usize, u8, bool))
    requires
        offset <= data@.len(),
        next_sn < 16,
    ensures
        ({
            let n = block_len(data@.len(), offset as nat, bs);
            &&& r.0@.map_values(|f: Vec<u8>| f@) == block_frames_spec(data@, offset as nat, next_sn, n)
            &&& r.1 == offset_after(data@.len(), offset as nat, n)
            &&& r.2 == ((next_sn + n) % 16) as u8
            &&& r.3 == (r.1 >= data@.len())
            &&& r.1 <= data@.len()
            &&& r.2 < 16
        }),
{
    let len = data.len();
    let ghost n = block_len(len as nat, offset as nat, bs);
    let mut frames: Vec<Vec<u8>> = Vec::new();
    let mut off = offset;
    let mut sn = next_sn;
    let mut remaining = bs;
    let mut k: usize = 0;
    assert(frames@.map_values(|f: Vec<u8>| f@) =~= block_frames_spec(data@, offset as nat, next_sn, 0));
    while off < len
        invariant
            len == data@.len(),
            offset <= off <= len,
            off == offset + 7 * k,
            k < n || off >= len,
            k <= n,
            sn == ((next_sn + k) % 16) as u8,
            sn < 16,
            bs > 0 ==> remaining == bs - k,
            frames@.map_values(|f: Vec<u8>| f@) == block_frames_spec(data@, offset as nat, next_sn, k as nat),
            n == block_len(len as nat, offset as nat, bs),
        decreases len - off,
    {
        let rest = len - off;
        let take = if rest < CF_DATA_LEN { rest } else { CF_DATA_LEN };
        let f = consecutive_frame(data.as_slice(), off, sn);
        let ghost prev = frames@.map_values(|f: Vec<u8>| f@);
        let ghost fv = f@;
        frames.push(f);
        assert(frames@.map_values(|f: Vec<u8>| f@) =~= prev.push(fv));
        assert(prev.push(fv) =~= block_frames_spec(data@, offset as nat, next_sn, (k + 1) as nat));
        off = off + take;
        let cur = sn;
        sn = (cur + 1) & 0x0F;
        assert(((cur + 1) as u8 & 0x0Fu8) == (cur + 1) % 16) by (bit_vector)
            requires
                cur < 16,
        ;
        k = k + 1;
        if off >= len {
            return (frames, off, sn, true);
        }
        if bs > 0 {
            remaining = if remaining > 0 { remaining - 1 } else { 0 };
            if remaining == 0 {
                return (frames, off, sn, false);
            }
        }
    }
    (frames, off, sn, true)
}


// ---------------------------------------------------------------------------
// Segmentation properties
// ---------------------------------------------------------------------------

/// First frame in the standard layout: PCI nibble and 12-bit length, then the
/// first 6 payload bytes.
pub open spec fn first_frame_spec(data: Seq<u8>) -> Seq<u8> {
    seq![(0x10u8 | ((data.len() / 256) as u8)) as u8, (data.len() % 256) as u8] + data.take(6)
}

/// Receiver entry after `k` consecutive frames of `data` (first frame included).
pub open spec fn receiving_after(tx: u32, data: Seq<u8>, k: nat) -> (u32, PendingView) {
    (
        tx,
        PendingView::Receiving {
            expected_len: data.len(),
            buffer: data.take((6 + 7 * k) as int),
            next_sn: ((1 + k) % 16) as u8,
        },
    )
}

proof fn lemma_low_nibble(x: u8)
    requires
        x < 16,
    ensures
        (x & 0xF0u8) == 0,
        (x & 0x0Fu8) == x,
        ((0x10u8 | x) & 0xF0u8) == 0x10,
        ((0x10u8 | x) & 0x0Fu8) == x,
        ((0x20u8 | x) & 0xF0u8) == 0x20,
        ((0x20u8 | x) & 0x0Fu8) == x,
{
    assert((x & 0xF0u8) == 0) by (bit_vector)
        requires
            x < 16,
    ;
    assert((x & 0x0Fu8) == x) by (bit_vector)
        requires
            x < 16,
    ;
    assert(((0x10u8 | x) & 0xF0u8) == 0x10) by (bit_vector)
        requires
            x < 16,
    ;
    assert(((0x10u8 | x) & 0x0Fu8) == x) by (bit_vector)
        requires
            x < 16,
    ;
    assert(((0x20u8 | x) & 0xF0u8) == 0x20) by (bit_vector)
        requires
            x < 16,
    ;
    assert(((0x20u8 | x) & 0x0Fu8) == x) by (bit_vector)
        requires
            x < 16,
    ;
}

/// A single frame of 1 to 7 bytes, received while a request waits on its id,
/// completes that request with exactly those bytes, whatever the padding.
pub proof fn lemma_single_frame_roundtrip(
    m: Map<u32, (u32, PendingView)>,
    id: u32,
    data: Seq<u8>,
    padding: Option<u8>,
)
    requires
        1 <= data.len() <= 7,
        m.contains_key(id),
    ensures
        (single_frame_spec(data, padding)[0] & 0xF0u8) == 0x00,
        sf_step(m, id, single_frame_spec(data, padding)) == (
            m.remove(id),
            ActionView::Complete { rx_id: id, result: Ok(data) },
        ),
{
    let f = single_frame_spec(data, padding);
    lemma_low_nibble(data.len() as u8);
    assert(f[0] == data.len() as u8);
    assert(f.subrange(1, 1 + data.len() as int) =~= data);
}

/// A first frame announcing 8 to 4095 bytes, received while a request waits
/// on its id, answers with flow control and starts reassembly with its 6 bytes.
pub proof fn lemma_first_frame_starts_reassembly(
    m: Map<u32, (u32, PendingView)>,
    id: u32,
    data: Seq<u8>,
)
    requires
        7 < data.len() <= 0xFFF,
        m.contains_key(id),
    ensures
        (first_frame_spec(data)[0] & 0xF0u8) == 0x10,
        ff_dl_spec(first_frame_spec(data)) == data.len(),
        ff_step(m, id, first_frame_spec(data)) == (
            m.insert(id, receiving_after(m[id].0, data, 0)),
            ActionView::SendFlowControl {
                rx_id: id,
                tx_id: m[id].0,
                frame: flow_control_cts_spec(),
                completed: None,
            },
        ),
{
    let f = first_frame_spec(data);
    let hi = (data.len() / 256) as u8;
    lemma_low_nibble(hi);
    assert(f[0] == (0x10u8 | hi) as u8);
    assert(ff_dl_spec(f) == data.len());
    assert(f.subrange(2, 8) =~= data.take(6));
    assert(data.take((6 + 7 * 0) as int) =~= data.take(6));
}

/// Consecutive frame `k` of a segmented message (sequence number `k + 1`,
/// 7 data bytes from offset `6 + 7k`) advances the reassembly by its bytes;
/// the frame that brings the last byte completes the request with the whole
/// message.
pub proof fn lemma_consecutive_frame_step(
    m: Map<u32, (u32, PendingView)>,
    id: u32,
    tx: u32,
    data: Seq<u8>,
    k: nat,
)
    requires
        7 < data.len() <= 0xFFF,
        6 + 7 * k < data.len(),
    ensures
        ({
            let cf = consecutive_frame_spec(data, 6 + 7 * k, ((1 + k) % 16) as u8);
            let m0 = m.insert(id, receiving_after(tx, data, k));
            &&& (cf[0] & 0xF0u8) == 0x20
            &&& cf_step(m0, id, cf) == if 6 + 7 * (k + 1) >= data.len() {
                (
                    m0.remove(id),
                    ActionView::Complete { rx_id: id, result: Ok(data) },
                )
            } else {
                (m0.insert(id, receiving_after(tx, data, k + 1)), ActionView::NoAction)
            }
        }),
{
    let off: nat = 6 + 7 * k;
    let sn = ((1 + k) % 16) as u8;
    let cf = consecutive_frame_spec(data, off, sn);
    let m0 = m.insert(id, receiving_after(tx, data, k));
    lemma_low_nibble(sn);
    assert(cf[0] == (0x20u8 | (sn & 0x0Fu8)) as u8);
    let take = cf_take(data.len(), off);
    let payload = cf.subrange(1, 8);
    let buffer = data.take(off as int);
    assert(payload.take(take as int) =~= data.subrange(off as int, (off + take) as int));
    let full = appended(buffer, data.len(), payload);
    assert(full =~= data.take((off + take) as int));
    if off + 7 >= data.len() {
        assert(data.take((off + take) as int) =~= data);
    } else {
        assert(off + take == 6 + 7 * (k + 1));
    }
}


/// Consecutive frames received one after the other: the table after the last
/// one and the last action.
pub open spec fn cf_run(m: Map<u32, (u32, PendingView)>, id: u32, frames: Seq<Seq<u8>>) -> (
    Map<u32, (u32, PendingView)>,
    ActionView,
)
    decreases frames.len(),
{
    if frames.len() == 0 {
        (m, ActionView::NoAction)
    } else {
        let (m2, a) = cf_step(m, id, frames[0]);
        if frames.len() == 1 {
            (m2, a)
        } else {
            cf_run(m2, id, frames.skip(1))
        }
    }
}

proof fn lemma_cf_run_from(m: Map<u32, (u32, PendingView)>, id: u32, tx: u32, data: Seq<u8>, k: nat)
    requires
        7 < data.len() <= 0xFFF,
        6 + 7 * k < data.len(),
    ensures
        cf_run(
            m.insert(id, receiving_after(tx, data, k)),
            id,
            block_frames_spec(
                data,
                (6 + 7 * k) as nat,
                ((1 + k) % 16) as u8,
                ((data.len() - (6 + 7 * k) + 6) / 7) as nat,
            ),
        ) == (m.remove(id), ActionView::Complete { rx_id: id, result: Ok(data) }),
    decreases data.len() - (6 + 7 * k),
{
    let off: nat = (6 + 7 * k) as nat;
    let sn = ((1 + k) % 16) as u8;
    let n: nat = ((data.len() - off + 6) / 7) as nat;
    let frames = block_frames_spec(data, off, sn, n);
    let m0 = m.insert(id, receiving_after(tx, data, k));
    lemma_consecutive_frame_step(m, id, tx, data, k);
    assert(n >= 1);
    assert(frames[0] == consecutive_frame_spec(data, off, sn));
    if 6 + 7 * (k + 1) >= data.len() {
        assert(n == 1);
        assert(m0.remove(id) =~= m.remove(id));
    } else {
        assert(n > 1);
        lemma_cf_run_from(m, id, tx, data, k + 1);
        assert(m0.insert(id, receiving_after(tx, data, k + 1)) =~= m.insert(
            id,
            receiving_after(tx, data, k + 1),
        ));
        let sn2 = ((1 + (k + 1)) % 16) as u8;
        let n2: nat = ((data.len() - (off + 7) + 6) / 7) as nat;
        assert(n2 == n - 1);
        assert forall|j: int| 0 <= j < n - 1 implies #[trigger] frames.skip(1)[j] == block_frames_spec(
            data,
            (off + 7) as nat,
            sn2,
            n2,
        )[j] by {
            assert(((sn + (j + 1)) % 16) as u8 == ((sn2 + j) % 16) as u8);
            assert((off + 7 * (j + 1)) as nat == ((off + 7) + 7 * j) as nat);
        }
        assert(frames.skip(1) =~= block_frames_spec(data, (off + 7) as nat, sn2, n2));
    }
}

/// A message of 8 to 4095 bytes sent as its first frame and then all its
/// consecutive frames (sequence numbers from 1, 7 bytes each), received while
/// a request waits on its id, is answered with flow control and completes the
/// request with exactly the message.
pub proof fn lemma_segmented_message_roundtrip(m: Map<u32, (u32, PendingView)>, id: u32, data: Seq<u8>)
    requires
        7 < data.len() <= 0xFFF,
        m.contains_key(id),
    ensures
        ({
            let (m1, a1) = ff_step(m, id, first_frame_spec(data));
            &&& a1 is SendFlowControl
            &&& cf_run(m1, id, block_frames_spec(data, 6, 1, block_len(data.len(), 6, 0))) == (
                m.remove(id),
                ActionView::Complete { rx_id: id, result: Ok(data) },
            )
        }),
{
    lemma_first_frame_starts_reassembly(m, id, data);
    lemma_cf_run_from(m, id, m[id].0, data, 0);
    assert(block_len(data.len(), 6, 0) == ((data.len() - 6 + 6) / 7) as nat);
}

} // verus!
