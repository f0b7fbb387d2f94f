//! Sliding time window of CAN frame samples with running totals and per-id
//! statistics, the integer core of the bus-load statistics.

use vstd::prelude::*;

use std::collections::VecDeque;

use crate::can::{CanFrame, CanIdLoadStats};

verus! {

/// One frame in the window: time, estimated bits, id, format and data length.
#[derive(Debug, Clone, Copy, PartialEq, Eq, Structural)]
pub struct LoadSample {
    pub timestamp_us: u64,
    pub bits: u32,
    pub id: u32,
    pub extended: bool,
    pub dlc: u8,
}

/// Total estimated bits of the samples.
pub open spec fn bits_sum(s: Seq<LoadSample>) -> nat
    decreases s.len(),
{
    if s.len() == 0 {
        0
    } else {
        bits_sum(s.drop_last()) + s.last().bits as nat
    }
}

/// Total data bytes of the samples.
pub open spec fn bytes_sum(s: Seq<LoadSample>) -> nat
    decreases s.len(),
{
    if s.len() == 0 {
        0
    } else {
        bytes_sum(s.drop_last()) + s.last().dlc as nat
    }
}

/// Whether a sample belongs to id `id` in format `ext`.
pub open spec fn has_key(x: LoadSample, id: u32, ext: bool) -> bool {
    x.id == id && x.extended == ext
}

/// Samples of one id.
pub open spec fn id_count(s: Seq<LoadSample>, id: u32, ext: bool) -> nat
    decreases s.len(),
{
    if s.len() == 0 {
        0
    } else {
        id_count(s.drop_last(), id, ext) + if has_key(s.last(), id, ext) {
            1nat
        } else {
            0nat
        }
    }
}

/// Estimated bits of one id.
pub open spec fn id_bits(s: Seq<LoadSample>, id: u32, ext: bool) -> nat
    decreases s.len(),
{
    if s.len() == 0 {
        0
    } else {
        id_bits(s.drop_last(), id, ext) + if has_key(s.last(), id, ext) {
            s.last().bits as nat
        } else {
            0nat
        }
    }
}

/// Data bytes of one id.
pub open spec fn id_bytes(s: Seq<LoadSample>, id: u32, ext: bool) -> nat
    decreases s.len(),
{
    if s.len() == 0 {
        0
    } else {
        id_bytes(s.drop_last(), id, ext) + if has_key(s.last(), id, ext) {
            s.last().dlc as nat
        } else {
            0nat
        }
    }
}

/// Leading samples older than `cutoff`.
pub open spec fn expired_prefix(s: Seq<LoadSample>, cutoff: u64) -> nat
    decreases s.len(),
{
    if s.len() > 0 && s[0].timestamp_us < cutoff {
        1 + expired_prefix(s.skip(1), cutoff)
    } else {
        0
    }
}

/// Estimated frame bits: (base + 8*dlc) * 6 / 5, base 67 (extended) or 47.
pub open spec fn frame_bits_spec(extended: bool, dlc: u8) -> u32 {
    (((if extended { 67int } else { 47int }) + 8 * dlc) * 6 / 5) as u32
}

/// Frame cost in bits: a standard frame without data costs 56 bits, an
/// extended frame 24 bits more than a standard one with the same data, and
/// every five data bytes add 48 bits (8 bits each, plus one fifth for bit
/// stuffing).
pub proof fn lemma_frame_bits_shape(extended: bool, dlc: u8)
    ensures
        frame_bits_spec(false, 0) == 56,
        frame_bits_spec(true, dlc) == frame_bits_spec(false, dlc) + 24,
        dlc <= 250 ==> frame_bits_spec(extended, (dlc + 5) as u8) == frame_bits_spec(extended, dlc) + 48,
{
    let x = 47 + 8 * dlc as int;
    assert((x + 20) * 6 / 5 == x * 6 / 5 + 24);
    let y = (if extended { 67int } else { 47int }) + 8 * dlc as int;
    assert((y + 40) * 6 / 5 == y * 6 / 5 + 48);
}

/// The sample a frame contributes to the window.
pub open spec fn sample_of(frame: &CanFrame) -> LoadSample {
    LoadSample {
        timestamp_us: frame.timestamp,
        bits: frame_bits_spec(frame.extended, frame.dlc),
        id: frame.id,
        extended: frame.extended,
        dlc: frame.dlc,
    }
}

/// The samples that stay when the window ends at `now`.
pub open spec fn kept_after(s: Seq<LoadSample>, now: u64, window_us: u64) -> Seq<LoadSample> {
    s.skip(expired_prefix(s, cutoff_of(now, window_us)) as int)
}

/// Start of the window ending at `now`.
pub open spec fn cutoff_of(now: u64, window_us: u64) -> u64 {
    if now >= window_us {
        (now - window_us) as u64
    } else {
        0
    }
}

/// Per-id entries: one per id present in `s`, each holding that id's totals.
pub open spec fn stats_match(entries: Seq<CanIdLoadStats>, s: Seq<LoadSample>) -> bool {
    &&& forall|i: int, j: int|
        0 <= i < j < entries.len() ==> !(entries[i].id == entries[j].id && entries[i].extended
            == entries[j].extended)
    &&& forall|i: int|
        0 <= i < entries.len() ==> {
            let e = #[trigger] entries[i];
            &&& e.frame_count == id_count(s, e.id, e.extended)
            &&& e.total_bits == id_bits(s, e.id, e.extended)
            &&& e.total_bytes == id_bytes(s, e.id, e.extended)
            &&& id_count(s, e.id, e.extended) > 0
        }
    &&& forall|k: int| 0 <= k < s.len() ==> #[trigger] key_listed(entries, s[k])
}

/// Some entry holds the id of `x`.
pub open spec fn key_listed(entries: Seq<CanIdLoadStats>, x: LoadSample) -> bool {
    exists|i: int| 0 <= i < entries.len() && #[trigger] has_key(x, entries[i].id, entries[i].extended)
}


proof fn lemma_sums_front(s: Seq<LoadSample>, id: u32, ext: bool)
    requires
        s.len() > 0,
    ensures
        bits_sum(s) == s[0].bits + bits_sum(s.skip(1)),
        bytes_sum(s) == s[0].dlc + bytes_sum(s.skip(1)),
        id_count(s, id, ext) == (if has_key(s[0], id, ext) { 1nat } else { 0nat }) + id_count(
            s.skip(1),
            id,
            ext,
        ),
        id_bits(s, id, ext) == (if has_key(s[0], id, ext) { s[0].bits as nat } else { 0nat })
            + id_bits(s.skip(1), id, ext),
        id_bytes(s, id, ext) == (if has_key(s[0], id, ext) { s[0].dlc as nat } else { 0nat })
            + id_bytes(s.skip(1), id, ext),
    decreases s.len(),
{
    if s.len() == 1 {
        let e = Seq::<LoadSample>::empty();
        assert(s.skip(1) =~= e);
        assert(s.drop_last() =~= e);
        assert(bits_sum(e) == 0);
        assert(bytes_sum(e) == 0);
        assert(id_count(e, id, ext) == 0);
        assert(id_bits(e, id, ext) == 0);
        assert(id_bytes(e, id, ext) == 0);
    } else {
        lemma_sums_front(s.drop_last(), id, ext);
        assert(s.skip(1).drop_last() =~= s.drop_last().skip(1));
        assert(s.skip(1).last() == s.last());
        assert(s.drop_last()[0] == s[0]);
    }
}

/// Appending one sample adds it to the totals of its own id only.
proof fn lemma_sums_push(s: Seq<LoadSample>, x: LoadSample, id: u32, ext: bool)
    ensures
        bits_sum(s.push(x)) == bits_sum(s) + x.bits,
        bytes_sum(s.push(x)) == bytes_sum(s) + x.dlc,
        id_count(s.push(x), id, ext) == id_count(s, id, ext) + (if has_key(x, id, ext) {
            1nat
        } else {
            0nat
        }),
        id_bits(s.push(x), id, ext) == id_bits(s, id, ext) + (if has_key(x, id, ext) {
            x.bits as nat
        } else {
            0nat
        }),
        id_bytes(s.push(x), id, ext) == id_bytes(s, id, ext) + (if has_key(x, id, ext) {
            x.dlc as nat
        } else {
            0nat
        }),
{
    assert(s.push(x).drop_last() =~= s);
    assert(s.push(x).last() == x);
}

proof fn lemma_count_positive(s: Seq<LoadSample>, k: int)
    requires
        0 <= k < s.len(),
    ensures
        id_count(s, s[k].id, s[k].extended) > 0,
    decreases s.len(),
{
    if k < s.len() - 1 {
        lemma_count_positive(s.drop_last(), k);
        assert(s.drop_last()[k] == s[k]);
    }
}

/// Which ids left: those present in `orig` and absent from `cur`.
pub open spec fn ids_left(removed: Seq<(u32, bool)>, orig: Seq<LoadSample>, cur: Seq<LoadSample>) -> bool {
    forall|id: u32, ext: bool|
        #[trigger] removed.contains((id, ext)) <==> (id_count(orig, id, ext) > 0 && id_count(
            cur,
            id,
            ext,
        ) == 0)
}

proof fn lemma_pop_stats(
    entries: Seq<CanIdLoadStats>,
    s: Seq<LoadSample>,
    i: int,
    ne: CanIdLoadStats,
)
    requires
        stats_match(entries, s),
        s.len() > 0,
        0 <= i < entries.len(),
        has_key(s[0], entries[i].id, entries[i].extended),
        ne.id == entries[i].id,
        ne.extended == entries[i].extended,
        ne.frame_count == entries[i].frame_count - 1,
        ne.total_bits == entries[i].total_bits - s[0].bits,
        ne.total_bytes == entries[i].total_bytes - s[0].dlc,
    ensures
        ne.frame_count == id_count(s.skip(1), ne.id, ne.extended),
        ne.frame_count > 0 ==> stats_match(entries.update(i, ne), s.skip(1)),
        ne.frame_count == 0 ==> stats_match(entries.remove(i), s.skip(1)),
{
    let s2 = s.skip(1);
    let e = entries[i];
    lemma_sums_front(s, e.id, e.extended);
    if ne.frame_count > 0 {
        let r = entries.update(i, ne);
        assert forall|a: int| 0 <= a < r.len() implies {
            let e2 = #[trigger] r[a];
            &&& e2.frame_count == id_count(s2, e2.id, e2.extended)
            &&& e2.total_bits == id_bits(s2, e2.id, e2.extended)
            &&& e2.total_bytes == id_bytes(s2, e2.id, e2.extended)
            &&& id_count(s2, e2.id, e2.extended) > 0
        } by {
            if a != i {
                assert(r[a] == entries[a]);
                lemma_sums_front(s, entries[a].id, entries[a].extended);
            }
        }
        assert forall|k: int| 0 <= k < s2.len() implies #[trigger] key_listed(r, s2[k]) by {
            assert(s2[k] == s[k + 1]);
            assert(key_listed(entries, s[k + 1]));
            let w = choose|w: int|
                0 <= w < entries.len() && #[trigger] has_key(
                    s[k + 1],
                    entries[w].id,
                    entries[w].extended,
                );
            assert(r[w].id == entries[w].id && r[w].extended == entries[w].extended);
        }
    } else {
        let r = entries.remove(i);
        assert forall|a: int| 0 <= a < r.len() implies {
            let e2 = #[trigger] r[a];
            &&& e2.frame_count == id_count(s2, e2.id, e2.extended)
            &&& e2.total_bits == id_bits(s2, e2.id, e2.extended)
            &&& e2.total_bytes == id_bytes(s2, e2.id, e2.extended)
            &&& id_count(s2, e2.id, e2.extended) > 0
        } by {
            let src = if a < i { a } else { a + 1 };
            assert(r[a] == entries[src]);
            lemma_sums_front(s, entries[src].id, entries[src].extended);
        }
        assert forall|k: int| 0 <= k < s2.len() implies #[trigger] key_listed(r, s2[k]) by {
            assert(s2[k] == s[k + 1]);
            lemma_count_positive(s2, k);
            assert(key_listed(entries, s[k + 1]));
            let w = choose|w: int|
                0 <= w < entries.len() && #[trigger] has_key(
                    s[k + 1],
                    entries[w].id,
                    entries[w].extended,
                );
            if w != i {
                let b = if w < i { w } else { w - 1 };
                assert(r[b] == entries[w]);
            }
        }
        assert forall|a: int, b: int| 0 <= a < b < r.len() implies !(r[a].id == r[b].id
            && r[a].extended == r[b].extended) by {
            let sa = if a < i { a } else { a + 1 };
            let sb = if b < i { b } else { b + 1 };
            assert(r[a] == entries[sa] && r[b] == entries[sb]);
        }
    }
}

proof fn lemma_push_found(
    entries: Seq<CanIdLoadStats>,
    s: Seq<LoadSample>,
    x: LoadSample,
    i: int,
    ne: CanIdLoadStats,
)
    requires
        stats_match(entries, s),
        0 <= i < entries.len(),
        entries[i].id == x.id,
        entries[i].extended == x.extended,
        ne.id == x.id,
        ne.extended == x.extended,
        ne.frame_count == entries[i].frame_count + 1,
        ne.total_bits == entries[i].total_bits + x.bits,
        ne.total_bytes == entries[i].total_bytes + x.dlc,
    ensures
        stats_match(entries.update(i, ne), s.push(x)),
{
    let s2 = s.push(x);
    let r = entries.update(i, ne);
    assert forall|a: int| 0 <= a < r.len() implies {
        let e2 = #[trigger] r[a];
        &&& e2.frame_count == id_count(s2, e2.id, e2.extended)
        &&& e2.total_bits == id_bits(s2, e2.id, e2.extended)
        &&& e2.total_bytes == id_bytes(s2, e2.id, e2.extended)
        &&& id_count(s2, e2.id, e2.extended) > 0
    } by {
        if a != i {
            assert(r[a] == entries[a]);
        }
        lemma_sums_push(s, x, r[a].id, r[a].extended);
    }
    assert forall|k: int| 0 <= k < s2.len() implies #[trigger] key_listed(r, s2[k]) by {
        if k == s.len() {
            assert(has_key(s2[k], r[i].id, r[i].extended));
        } else {
            assert(s2[k] == s[k]);
            assert(key_listed(entries, s[k]));
            let w = choose|w: int|
                0 <= w < entries.len() && #[trigger] has_key(s[k], entries[w].id, entries[w].extended);
            assert(r[w].id == entries[w].id && r[w].extended == entries[w].extended);
        }
    }
}

proof fn lemma_push_new(entries: Seq<CanIdLoadStats>, s: Seq<LoadSample>, x: LoadSample, ne: CanIdLoadStats)
    requires
        stats_match(entries, s),
        forall|i: int|
            0 <= i < entries.len() ==> !(entries[i].id == x.id && entries[i].extended == x.extended),
        ne.id == x.id,
        ne.extended == x.extended,
        ne.frame_count == 1,
        ne.total_bits == x.bits,
        ne.total_bytes == x.dlc,
    ensures
        stats_match(entries.push(ne), s.push(x)),
{
    let s2 = s.push(x);
    let r = entries.push(ne);
    if id_count(s, x.id, x.extended) > 0 {
        lemma_count_key_present(s, x.id, x.extended);
        let k = choose|k: int| 0 <= k < s.len() && has_key(s[k], x.id, x.extended);
        assert(key_listed(entries, s[k]));
        let w = choose|w: int|
            0 <= w < entries.len() && #[trigger] has_key(s[k], entries[w].id, entries[w].extended);
        assert(false);
    }
    lemma_zero_count_sums(s, x.id, x.extended);
    assert forall|a: int| 0 <= a < r.len() implies {
        let e2 = #[trigger] r[a];
        &&& e2.frame_count == id_count(s2, e2.id, e2.extended)
        &&& e2.total_bits == id_bits(s2, e2.id, e2.extended)
        &&& e2.total_bytes == id_bytes(s2, e2.id, e2.extended)
        &&& id_count(s2, e2.id, e2.extended) > 0
    } by {
        if a < entries.len() {
            assert(r[a] == entries[a]);
        }
        lemma_sums_push(s, x, r[a].id, r[a].extended);
    }
    assert forall|k: int| 0 <= k < s2.len() implies #[trigger] key_listed(r, s2[k]) by {
        if k == s.len() {
            assert(has_key(s2[k], r[entries.len() as int].id, r[entries.len() as int].extended));
        } else {
            assert(s2[k] == s[k]);
            assert(key_listed(entries, s[k]));
            let w = choose|w: int|
                0 <= w < entries.len() && #[trigger] has_key(s[k], entries[w].id, entries[w].extended);
            assert(r[w] == entries[w]);
        }
    }
    assert forall|a: int, b: int| 0 <= a < b < r.len() implies !(r[a].id == r[b].id
        && r[a].extended == r[b].extended) by {
        if b == entries.len() {
            assert(r[a] == entries[a]);
        } else {
            assert(r[a] == entries[a] && r[b] == entries[b]);
        }
    }
}

proof fn lemma_removed_step(
    orig: Seq<LoadSample>,
    before: Seq<LoadSample>,
    prev: Seq<(u32, bool)>,
    r: Option<(u32, bool)>,
)
    requires
        ids_left(prev, orig, before),
        before.len() > 0,
        id_count(orig, before[0].id, before[0].extended) > 0,
        match r {
            Some(k) => k == (before[0].id, before[0].extended) && id_count(before.skip(1), k.0, k.1)
                == 0,
            None => id_count(before.skip(1), before[0].id, before[0].extended) > 0,
        },
    ensures
        ids_left(
            match r {
                Some(k) => prev.push(k),
                None => prev,
            },
            orig,
            before.skip(1),
        ),
{
    let new = match r {
        Some(k) => prev.push(k),
        None => prev,
    };
    lemma_count_positive(before, 0);
    assert forall|id: u32, ext: bool|
        #[trigger] new.contains((id, ext)) <==> (id_count(orig, id, ext) > 0 && id_count(
            before.skip(1),
            id,
            ext,
        ) == 0) by {
        lemma_sums_front(before, id, ext);
        assert(prev.contains((id, ext)) <==> (id_count(orig, id, ext) > 0 && id_count(
            before,
            id,
            ext,
        ) == 0));
        match r {
            Some(k) => {
                vstd::seq_lib::lemma_seq_contains_after_push(prev, k, (id, ext));
            },
            None => {},
        }
    }
}

/// Sliding window of frame samples with running totals and per-id statistics.
#[derive(Debug)]
pub struct CanLoadWindow {
    samples: VecDeque<LoadSample>,
    window_us: u64,
    total_bits: u64,
    total_bytes: u64,
    per_id: Vec<CanIdLoadStats>,
}

impl CanLoadWindow {
    /// Samples in the window, oldest first.
    pub closed spec fn view(&self) -> Seq<LoadSample> {
        self.samples@
    }

    pub closed spec fn window_spec(&self) -> u64 {
        self.window_us
    }

    /// Per-id statistics, one entry per id in the window.
    pub closed spec fn per_id_spec(&self) -> Seq<CanIdLoadStats> {
        self.per_id@
    }

    /// Totals and per-id entries agree with the samples; the window is at least 1 us.
    pub closed spec fn well_formed(&self) -> bool {
        &&& self.window_us >= 1
        &&& self.total_bits == bits_sum(self.samples@)
        &&& self.total_bytes == bytes_sum(self.samples@)
        &&& stats_match(self.per_id@, self.samples@)
    }

    /// Empty window of `window_us` microseconds (at least 1).
    pub fn new(window_us: u64) -> (r: Self)
        ensures
            r.well_formed(),
            r@ == Seq::<LoadSample>::empty(),
            r.window_spec() == (if window_us >= 1 { window_us } else { 1 }),
    {
        let r = CanLoadWindow {
            samples: VecDeque::new(),
            window_us: if window_us >= 1 { window_us } else { 1 },
            total_bits: 0,
            total_bytes: 0,
            per_id: Vec::new(),
        };
        assert(r.samples@ =~= Seq::<LoadSample>::empty());
        r
    }

    pub fn window_us(&self) -> (r: u64)
        ensures
            r == self.window_spec(),
    {
        self.window_us
    }

    /// Frames in the window.
    pub fn frame_count(&self) -> (r: usize)
        ensures
            r == self@.len(),
    {
        self.samples.len()
    }

    /// Estimated bits in the window.
    pub fn total_bits(&self) -> (r: u64)
        requires
            self.well_formed(),
        ensures
            r == bits_sum(self@),
    {
        self.total_bits
    }

    /// Data bytes in the window.
    pub fn total_bytes(&self) -> (r: u64)
        requires
            self.well_formed(),
        ensures
            r == bytes_sum(self@),
    {
        self.total_bytes
    }

    /// Per-id statistics (one entry per id in the window).
    pub fn per_id(&self) -> (r: &[CanIdLoadStats])
        ensures
            r@ == self.per_id_spec(),
    {
        self.per_id.as_slice()
    }

    /// The per-id statistics ordered by decreasing bit count.
    pub fn per_id_by_bits(&self) -> (r: Vec<CanIdLoadStats>)
        ensures
            r@.len() == self.per_id_spec().len(),
            forall|i: int, j: int| 0 <= i < j < r@.len() ==> r@[i].total_bits >= r@[j].total_bits,
            forall|x: CanIdLoadStats| r@.contains(x) <==> self.per_id_spec().contains(x),
    {
        let mut out: Vec<CanIdLoadStats> = Vec::new();
        let mut k: usize = 0;
        while k < self.per_id.len()
            invariant
                k <= self.per_id@.len(),
                out@.len() == k,
                forall|i: int, j: int| 0 <= i < j < out@.len() ==> out@[i].total_bits >= out@[j].total_bits,
                forall|x: CanIdLoadStats| out@.contains(x) <==> self.per_id@.take(k as int).contains(x),
            decreases self.per_id.len() - k,
        {
            let e = &self.per_id[k];
            let x = CanIdLoadStats {
                id: e.id,
                extended: e.extended,
                frame_count: e.frame_count,
                total_bits: e.total_bits,
                total_bytes: e.total_bytes,
            };
            let mut j: usize = 0;
            while j < out.len() && out[j].total_bits >= x.total_bits
                invariant
                    j <= out@.len(),
                    forall|m: int| 0 <= m < j ==> out@[m].total_bits >= x.total_bits,
                decreases out.len() - j,
            {
                j = j + 1;
            }
            let ghost o = out@;
            let ghost p0 = self.per_id@.take(k as int);
            let ghost p1 = self.per_id@.take(k + 1);
            out.insert(j, x);
            proof {
                assert(x == self.per_id@[k as int]);
                assert(p1 =~= p0.push(x));
                assert(out@ =~= o.insert(j as int, x));
                assert forall|a: int, b: int| 0 <= a < b < out@.len() implies out@[a].total_bits
                    >= out@[b].total_bits by {
                    if b < j {
                        assert(out@[a] == o[a] && out@[b] == o[b]);
                    } else if b == j {
                        assert(out@[a] == o[a]);
                    } else if a < j {
                        assert(out@[a] == o[a] && out@[b] == o[b - 1]);
                        if j < o.len() {
                            assert(o[j as int].total_bits < x.total_bits);
                        }
                    } else if a == j {
                        assert(out@[b] == o[b - 1]);
                        assert(o[j as int].total_bits < x.total_bits);
                        assert(o[j as int].total_bits >= o[b - 1].total_bits || j == b - 1);
                    } else {
                        assert(out@[a] == o[a - 1] && out@[b] == o[b - 1]);
                    }
                }
                assert forall|y: CanIdLoadStats| out@.contains(y) <==> p1.contains(y) by {
                    vstd::seq_lib::lemma_seq_contains_after_push(p0, x, y);
                    if out@.contains(y) {
                        let i = choose|i: int| 0 <= i < out@.len() && out@[i] == y;
                        if i < j {
                            assert(o[i] == y);
                            assert(o.contains(y));
                        } else if i > j {
                            assert(o[i - 1] == y);
                            assert(o.contains(y));
                        }
                    }
                    if o.contains(y) {
                        let i = choose|i: int| 0 <= i < o.len() && o[i] == y;
                        if i < j {
                            assert(out@[i] == y);
                        } else {
                            assert(out@[i + 1] == y);
                        }
                    }
                    if y == x {
                        assert(out@[j as int] == y);
                    }
                }
            }
            k = k + 1;
        }
        assert(self.per_id@.take(self.per_id@.len() as int) =~= self.per_id@);
        out
    }

    /// Index of the entry for (`id`, `ext`).
    fn find(&self, id: u32, ext: bool) -> (r: Option<usize>)
        ensures
            match r {
                Some(i) => i < self.per_id@.len() && self.per_id@[i as int].id == id
                    && self.per_id@[i as int].extended == ext,
                None => forall|i: int|
                    0 <= i < self.per_id@.len() ==> !(self.per_id@[i].id == id
                        && self.per_id@[i].extended == ext),
            },
    {
        let mut i: usize = 0;
        while i < self.per_id.len()
            invariant
                i <= self.per_id@.len(),
                forall|j: int|
                    0 <= j < i ==> !(self.per_id@[j].id == id && self.per_id@[j].extended == ext),
            decreases self.per_id.len() - i,
        {
            if self.per_id[i].id == id && self.per_id[i].extended == ext {
                return Some(i);
            }
            i = i + 1;
        }
        None
    }

    /// Drops the oldest sample (older than the window start).
    fn pop_oldest(&mut self) -> (removed: Option<(u32, bool)>)
        requires
            old(self).well_formed(),
            old(self)@.len() > 0,
        ensures
            final(self).well_formed(),
            final(self)@ == old(self)@.skip(1),
            final(self).window_spec() == old(self).window_spec(),
            match removed {
                Some(k) => k == (old(self)@[0].id, old(self)@[0].extended) && id_count(
                    final(self)@,
                    k.0,
                    k.1,
                ) == 0,
                None => id_count(final(self)@, old(self)@[0].id, old(self)@[0].extended) > 0,
            },
    {
        let ghost s = self.samples@;
        let x = self.samples.pop_front().unwrap();
        assert(self.samples@ =~= s.skip(1));
        proof {
            lemma_sums_front(s, x.id, x.extended);
            lemma_count_positive(s, 0);
        }
        self.total_bits = self.total_bits - x.bits as u64;
        self.total_bytes = self.total_bytes - x.dlc as u64;
        let i = match self.find(x.id, x.extended) {
            Some(i) => i,
            None => {
                proof {
                    assert(key_listed(self.per_id@, s[0]));
                    let w = choose|w: int|
                        0 <= w < self.per_id@.len() && #[trigger] has_key(
                            s[0],
                            self.per_id@[w].id,
                            self.per_id@[w].extended,
                        );
                    assert(false);
                }
                0
            },
        };
        let ghost entries = self.per_id@;
        let ne = CanIdLoadStats {
            id: x.id,
            extended: x.extended,
            frame_count: self.per_id[i].frame_count - 1,
            total_bits: self.per_id[i].total_bits - x.bits as u64,
            total_bytes: self.per_id[i].total_bytes - x.dlc as u64,
        };
        proof {
            lemma_pop_stats(entries, s, i as int, ne);
        }
        if ne.frame_count == 0 {
            let _ = self.per_id.remove(i);
            Some((x.id, x.extended))
        } else {
            self.per_id.set(i, ne);
            None
        }
    }

    /// Drops every leading sample older than `now - window` (saturating);
    /// returns the ids that no longer have samples in the window.
    pub fn evict_expired(&mut self, now_us: u64) -> (removed: Vec<(u32, bool)>)
        requires
            old(self).well_formed(),
        ensures
            final(self).well_formed(),
            final(self)@ == old(self)@.skip(
                expired_prefix(old(self)@, cutoff_of(now_us, old(self).window_spec())) as int,
            ),
            final(self).window_spec() == old(self).window_spec(),
            ids_left(removed@, old(self)@, final(self)@),
    {
        let cutoff = if now_us >= self.window_us {
            now_us - self.window_us
        } else {
            0
        };
        let ghost orig = self.samples@;
        let ghost mut k: int = 0;
        let mut removed: Vec<(u32, bool)> = Vec::new();
        assert(orig.skip(0) =~= orig);
        while self.samples.len() > 0 && self.samples[0].timestamp_us < cutoff
            invariant
                self.well_formed(),
                self.window_us == old(self).window_us,
                cutoff == cutoff_of(now_us, old(self).window_us),
                0 <= k <= orig.len(),
                orig == old(self)@,
                self@ == orig.skip(k),
                expired_prefix(orig, cutoff) == k + expired_prefix(self@, cutoff),
                ids_left(removed@, orig, self@),
            decreases self.samples.len(),
        {
            let ghost before = self@;
            let ghost prev = removed@;
            let r = self.pop_oldest();
            proof {
                assert(before.skip(1) =~= orig.skip(k + 1));
                assert(orig[k] == before[0]);
                lemma_count_positive(orig, k);
                lemma_removed_step(orig, before, prev, r);
                k = k + 1;
            }
            match r {
                Some(key) => {
                    removed.push(key);
                },
                None => {},
            }
        }
        proof {
            if self@.len() > 0 {
                assert(!(self@[0].timestamp_us < cutoff));
            }
            assert(expired_prefix(self@, cutoff) == 0);
        }
        removed
    }

    /// Appends a sample after dropping the samples that fall out of the window
    /// ending at its timestamp; returns the ids that left the window.
    pub fn push(&mut self, x: LoadSample) -> (removed: Vec<(u32, bool)>)
        requires
            old(self).well_formed(),
            bits_sum(kept_after(old(self)@, x.timestamp_us, old(self).window_spec())) + x.bits
                <= u64::MAX,
            bytes_sum(kept_after(old(self)@, x.timestamp_us, old(self).window_spec())) + x.dlc
                <= u64::MAX,
            id_count(kept_after(old(self)@, x.timestamp_us, old(self).window_spec()), x.id, x.extended)
                < u64::MAX,
        ensures
            final(self).well_formed(),
            final(self)@ == kept_after(old(self)@, x.timestamp_us, old(self).window_spec()).push(x),
            final(self).window_spec() == old(self).window_spec(),
            ids_left(removed@, old(self)@, kept_after(old(self)@, x.timestamp_us, old(self).window_spec())),
    {
        let removed = self.evict_expired(x.timestamp_us);
        let ghost s = self@;
        let ghost entries = self.per_id@;
        proof {
            lemma_id_le_total(s, x.id, x.extended);
            lemma_sums_push(s, x, x.id, x.extended);
        }
        let found = self.find(x.id, x.extended);
        self.samples.push_back(x);
        assert(self.samples@ =~= s.push(x));
        self.total_bits = self.total_bits + x.bits as u64;
        self.total_bytes = self.total_bytes + x.dlc as u64;
        match found {
            Some(i) => {
                let ne = CanIdLoadStats {
                    id: x.id,
                    extended: x.extended,
                    frame_count: self.per_id[i].frame_count + 1,
                    total_bits: self.per_id[i].total_bits + x.bits as u64,
                    total_bytes: self.per_id[i].total_bytes + x.dlc as u64,
                };
                proof {
                    lemma_push_found(entries, s, x, i as int, ne);
                }
                self.per_id.set(i, ne);
            },
            None => {
                let ne = CanIdLoadStats {
                    id: x.id,
                    extended: x.extended,
                    frame_count: 1,
                    total_bits: x.bits as u64,
                    total_bytes: x.dlc as u64,
                };
                proof {
                    lemma_push_new(entries, s, x, ne);
                }
                self.per_id.push(ne);
            },
        }
        removed
    }

    /// Estimated bits on the wire for a frame, including a 1.2 stuffing factor:
    /// (47 + 8*dlc) * 1.2 for a standard frame, (67 + 8*dlc) * 1.2 for an
    /// extended one, rounded down.
    pub fn frame_bits(frame: &CanFrame) -> (r: u32)
        ensures
            r == frame_bits_spec(frame.extended, frame.dlc),
    {
        let base: u32 = if frame.extended { 67 } else { 47 };
        let raw: u32 = base + 8 * (frame.dlc as u32);
        raw * 6 / 5
    }

    /// Records a frame: its timestamp, estimated bits, id, format and length.
    pub fn push_frame(&mut self, frame: &CanFrame) -> (removed: Vec<(u32, bool)>)
        requires
            old(self).well_formed(),
            bits_sum(kept_after(old(self)@, frame.timestamp, old(self).window_spec()))
                + frame_bits_spec(frame.extended, frame.dlc) <= u64::MAX,
            bytes_sum(kept_after(old(self)@, frame.timestamp, old(self).window_spec())) + frame.dlc
                <= u64::MAX,
            id_count(
                kept_after(old(self)@, frame.timestamp, old(self).window_spec()),
                frame.id,
                frame.extended,
            ) < u64::MAX,
        ensures
            final(self).well_formed(),
            final(self)@ == kept_after(old(self)@, frame.timestamp, old(self).window_spec()).push(
                sample_of(frame),
            ),
            final(self).window_spec() == old(self).window_spec(),
            ids_left(removed@, old(self)@, kept_after(old(self)@, frame.timestamp, old(self).window_spec())),
    {
        let bits = Self::frame_bits(frame);
        let x = LoadSample {
            timestamp_us: frame.timestamp,
            bits,
            id: frame.id,
            extended: frame.extended,
            dlc: frame.dlc,
        };
        self.push(x)
    }

    /// Changes the window (at least 1 us) and drops the samples that fall out
    /// of it, measured from the newest sample; returns the ids that left.
    pub fn set_window_us(&mut self, window_us: u64) -> (removed: Vec<(u32, bool)>)
        requires
            old(self).well_formed(),
        ensures
            final(self).well_formed(),
            final(self).window_spec() == (if window_us >= 1 { window_us } else { 1 }),
            old(self)@.len() == 0 ==> final(self)@ == old(self)@ && removed@.len() == 0,
            old(self)@.len() > 0 ==> final(self)@ == old(self)@.skip(
                expired_prefix(
                    old(self)@,
                    cutoff_of(old(self)@.last().timestamp_us, final(self).window_spec()),
                ) as int,
            ),
            old(self)@.len() > 0 ==> ids_left(removed@, old(self)@, final(self)@),
    {
        self.window_us = if window_us >= 1 { window_us } else { 1 };
        let n = self.samples.len();
        if n > 0 {
            let last = self.samples[n - 1].timestamp_us;
            self.evict_expired(last)
        } else {
            Vec::new()
        }
    }

    /// Empties the window (its length is kept).
    pub fn clear(&mut self)
        requires
            old(self).well_formed(),
        ensures
            final(self).well_formed(),
            final(self)@ == Seq::<LoadSample>::empty(),
            final(self).per_id_spec().len() == 0,
            final(self).window_spec() == old(self).window_spec(),
    {
        self.samples.clear();
        self.total_bits = 0;
        self.total_bytes = 0;
        self.per_id.clear();
        assert(self.samples@ =~= Seq::<LoadSample>::empty());
    }
}


proof fn lemma_id_le_total(s: Seq<LoadSample>, id: u32, ext: bool)
    ensures
        id_bits(s, id, ext) <= bits_sum(s),
        id_bytes(s, id, ext) <= bytes_sum(s),
        id_count(s, id, ext) <= s.len(),
    decreases s.len(),
{
    if s.len() > 0 {
        lemma_id_le_total(s.drop_last(), id, ext);
    }
}

proof fn lemma_count_key_present(s: Seq<LoadSample>, id: u32, ext: bool)
    requires
        id_count(s, id, ext) > 0,
    ensures
        exists|k: int| 0 <= k < s.len() && has_key(s[k], id, ext),
    decreases s.len(),
{
    if !has_key(s.last(), id, ext) {
        lemma_count_key_present(s.drop_last(), id, ext);
        let k = choose|k: int| 0 <= k < s.drop_last().len() && has_key(s.drop_last()[k], id, ext);
        assert(s[k] == s.drop_last()[k]);
    } else {
        assert(has_key(s[s.len() - 1], id, ext));
    }
}

proof fn lemma_zero_count_sums(s: Seq<LoadSample>, id: u32, ext: bool)
    requires
        id_count(s, id, ext) == 0,
    ensures
        id_bits(s, id, ext) == 0,
        id_bytes(s, id, ext) == 0,
    decreases s.len(),
{
    if s.len() > 0 {
        lemma_zero_count_sums(s.drop_last(), id, ext);
    }
}

/// Every id present among the window's samples has exactly one per-id entry,
/// holding that id's frame count, bits and bytes, and no entry is left for an
/// id without samples.
pub proof fn lemma_window_per_id(w: CanLoadWindow)
    requires
        w.well_formed(),
    ensures
        stats_match(w.per_id_spec(), w@),
{
}

} // verus!
