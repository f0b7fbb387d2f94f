//! Logic-analyzer samples, decoded protocol events, subscription filters and
//! their bounded history buffers.

use std::collections::VecDeque;
use vstd::prelude::*;

use crate::bytes::{contains_run, contains_subslice, occurs_at};
use crate::config::{Parity, StopBits};

verus! {

/// Multi-channel digital level snapshot: bit `i` of `channels` is channel `i`.
#[derive(Debug, Clone, Copy)]
pub struct LogicSample {
    pub timestamp: u64,
    pub channels: u32,
    pub channel_count: u8,
}

/// A batch of samples.
#[derive(Debug, Clone)]
pub struct LogicBatch {
    pub samples: Vec<LogicSample>,
}

/// I2C bus event.
#[derive(Debug, Clone, Copy)]
pub enum I2cEvent {
    Start,
    Stop,
    Address { addr: u8, read: bool, ack: bool },
    Data { byte: u8, ack: bool },
}

/// A decoded protocol event.
#[derive(Debug, Clone, Copy)]
pub enum DecodedEvent {
    Uart { timestamp: u64, byte: u8, parity_ok: bool },
    I2c { timestamp: u64, event: I2cEvent },
    Spi { timestamp: u64, mosi: u8, miso: u8 },
}

/// Sample filter: with a mask set, a sample matches when
/// `(channels & mask) == (value & mask)` (value defaults to 0).
#[derive(Debug, Clone, Default)]
pub struct LogicSampleFilter {
    pub channel_mask: Option<u32>,
    pub channel_value: Option<u32>,
}

/// Event filter: protocol name (ASCII case-insensitive) and a payload byte run.
#[derive(Debug, Clone, Default)]
pub struct DecodedEventFilter {
    pub kind: Option<String>,
    pub byte_pattern: Option<Vec<u8>>,
}

/// Protocol decoder configuration.
#[derive(Debug, Clone, PartialEq, Eq, Structural)]
pub enum LogicDecoderConfig {
    Uart { baud_rate: u32, data_bits: u8, parity: Parity, stop_bits: StopBits, channel: u8 },
    I2c { sda_channel: u8, scl_channel: u8 },
    Spi { sclk_channel: u8, mosi_channel: u8, miso_channel: u8, cs_channel: u8, mode: u8 },
}

/// Sample batch pushed to the front end (`seq` orders concurrent shards).
#[derive(Debug, Clone)]
pub struct LogicSampleBatch {
    pub seq: u64,
    pub samples: Vec<LogicSample>,
}

/// Event batch pushed to the front end (`seq` orders concurrent shards).
#[derive(Debug, Clone)]
pub struct DecodedEventBatch {
    pub seq: u64,
    pub events: Vec<DecodedEvent>,
}

// ---------------------------------------------------------------------------
// Filters
// ---------------------------------------------------------------------------

impl LogicSampleFilter {
    pub open spec fn accepts(&self, sample: LogicSample) -> bool {
        match self.channel_mask {
            Some(mask) => (sample.channels & mask) == (self.channel_value.unwrap_or(0) & mask),
            None => true,
        }
    }

    /// Whether `sample` passes this filter.
    pub fn matches(&self, sample: &LogicSample) -> (r: bool)
        ensures
            r == self.accepts(*sample),
    {
        if let Some(mask) = self.channel_mask {
            let value = match self.channel_value {
                Some(v) => v,
                None => 0,
            };
            if (sample.channels & mask) != (value & mask) {
                return false;
            }
        }
        true
    }
}

/// Lower-case of an ASCII letter; other chars unchanged.
pub open spec fn ascii_lower(c: char) -> char {
    if 'A' <= c <= 'Z' {
        ((c as u32) + 32) as char
    } else {
        c
    }
}

/// ASCII case-insensitive equality with an (ASCII) name.
pub open spec fn eq_ignore_ascii_case(s: Seq<char>, name: Seq<char>) -> bool {
    s.len() == name.len() && forall|i: int| 0 <= i < s.len() ==> ascii_lower(s[i]) == ascii_lower(
        name[i],
    )
}

/// Protocol name of an event.
pub open spec fn event_kind_name(e: DecodedEvent) -> Seq<char> {
    match e {
        DecodedEvent::Uart { .. } => seq!['u', 'a', 'r', 't'],
        DecodedEvent::I2c { .. } => seq!['i', '2', 'c'],
        DecodedEvent::Spi { .. } => seq!['s', 'p', 'i'],
    }
}

/// Payload bytes of an event (UART byte, I2C address/data, SPI MOSI + MISO).
pub open spec fn event_payload(e: DecodedEvent) -> Seq<u8> {
    match e {
        DecodedEvent::Uart { byte, .. } => seq![byte],
        DecodedEvent::I2c { event, .. } => match event {
            I2cEvent::Address { addr, .. } => seq![addr],
            I2cEvent::Data { byte, .. } => seq![byte],
            I2cEvent::Start | I2cEvent::Stop => Seq::empty(),
        },
        DecodedEvent::Spi { mosi, miso, .. } => seq![mosi, miso],
    }
}

fn ascii_lower_char(c: char) -> (r: char)
    ensures
        r == ascii_lower(c),
{
    if 'A' <= c && c <= 'Z' {
        let u = (c as u32) + 32;
        proof {
            vstd::utf8::char_u32_cast(c, c as u32);
        }
        assert(0x61 <= u <= 0x7A);
        char_from_ascii(u)
    } else {
        c
    }
}

fn char_from_ascii(u: u32) -> (r: char)
    requires
        u < 0x80,
    ensures
        r == u as char,
{
    let b = u as u8;
    b as char
}

/// ASCII case-insensitive comparison of `s` with `name`.
fn str_eq_ignore_ascii_case(s: &str, name: &str) -> (r: bool)
    ensures
        r == eq_ignore_ascii_case(s@, name@),
{
    let a: Vec<char> = collect_chars(s);
    let b: Vec<char> = collect_chars(name);
    if a.len() != b.len() {
        return false;
    }
    let mut i: usize = 0;
    while i < a.len()
        invariant
            a.len() == b.len(),
            a@ == s@,
            b@ == name@,
            i <= a.len(),
            forall|k: int| 0 <= k < i ==> ascii_lower(a@[k]) == ascii_lower(b@[k]),
        decreases a.len() - i,
    {
        if ascii_lower_char(a[i]) != ascii_lower_char(b[i]) {
            return false;
        }
        i = i + 1;
    }
    true
}

/// The characters of a string slice.
pub fn collect_chars(s: &str) -> (r: Vec<char>)
    ensures
        r@ == s@,
{
    let mut out: Vec<char> = Vec::new();
    let ghost full = s@;
    for c in it: s.chars()
        invariant
            it.seq() == full,
            out@ == full.take(it.index() as int),
    {
        let ghost i = it.index();
        out.push(c);
        assert(out@ =~= full.take(i + 1));
    }
    assert(full.take(full.len() as int) =~= full);
    out
}

fn event_kind_str(e: &DecodedEvent) -> (r: &'static str)
    ensures
        r@ == event_kind_name(*e),
{
    match e {
        DecodedEvent::Uart { .. } => {
            proof {
                reveal_strlit("uart");
            }
            "uart"
        },
        DecodedEvent::I2c { .. } => {
            proof {
                reveal_strlit("i2c");
            }
            "i2c"
        },
        DecodedEvent::Spi { .. } => {
            proof {
                reveal_strlit("spi");
            }
            "spi"
        },
    }
}

fn event_payload_bytes(e: &DecodedEvent) -> (r: Vec<u8>)
    ensures
        r@ == event_payload(*e),
{
    let mut v: Vec<u8> = Vec::new();
    match e {
        DecodedEvent::Uart { byte, .. } => {
            v.push(*byte);
        },
        DecodedEvent::I2c { event, .. } => match event {
            I2cEvent::Address { addr, .. } => {
                v.push(*addr);
            },
            I2cEvent::Data { byte, .. } => {
                v.push(*byte);
            },
            I2cEvent::Start | I2cEvent::Stop => {},
        },
        DecodedEvent::Spi { mosi, miso, .. } => {
            v.push(*mosi);
            v.push(*miso);
        },
    }
    assert(v@ =~= event_payload(*e));
    v
}

impl DecodedEventFilter {
    pub open spec fn accepts(&self, event: DecodedEvent) -> bool {
        &&& (match self.kind {
            Some(k) => eq_ignore_ascii_case(k@, event_kind_name(event)),
            None => true,
        })
        &&& (match self.byte_pattern {
            Some(p) => contains_run(event_payload(event), p@),
            None => true,
        })
    }

    /// Whether `event` passes this filter.
    pub fn matches(&self, event: &DecodedEvent) -> (r: bool)
        ensures
            r == self.accepts(*event),
    {
        if let Some(kind) = &self.kind {
            let name = event_kind_str(event);
            if !str_eq_ignore_ascii_case(kind.as_str(), name) {
                return false;
            }
        }
        if let Some(pattern) = &self.byte_pattern {
            if pattern.len() == 0 {
                assert(crate::bytes::occurs_at(event_payload(*event), pattern@, 0)) by {
                    assert(event_payload(*event).subrange(0, 0) =~= pattern@);
                }
                return true;
            }
            let payload = event_payload_bytes(event);
            if !contains_subslice(payload.as_slice(), pattern.as_slice()) {
                return false;
            }
        }
        true
    }
}

// ---------------------------------------------------------------------------
// Bounded histories
// ---------------------------------------------------------------------------

/// The last `count` items of `s` (all of them when `count` exceeds the length).
pub open spec fn last_n<T>(s: Seq<T>, count: nat) -> Seq<T> {
    if count >= s.len() {
        s
    } else {
        s.subrange(s.len() - count, s.len() as int)
    }
}

/// History after pushing `x` with capacity `max`: the oldest item is evicted
/// first when the history is full.
pub open spec fn bounded_push<T>(s: Seq<T>, x: T, max: nat) -> Seq<T> {
    if s.len() >= max && s.len() > 0 {
        s.drop_first().push(x)
    } else {
        s.push(x)
    }
}

/// What a history buffer keeps between operations: at most
/// `max(capacity, 1)` items, and no more items than its version has counted
/// pushes.
pub open spec fn history_valid(len: nat, capacity: nat, version: u64) -> bool {
    &&& len <= (if capacity >= 1 { capacity } else { 1 })
    &&& len <= version
}

/// Result of a cursor read over a history whose items have absolute indices
/// `[version - len, version)`: the readable start, the items and the new cursor.
pub open spec fn drain_start(version: u64, len: nat, cursor: u64) -> int {
    if cursor >= version - len {
        cursor as int
    } else {
        version - len
    }
}

pub open spec fn drain_count(version: u64, len: nat, cursor: u64, max: usize) -> int {
    let avail = version - drain_start(version, len, cursor);
    if avail <= max {
        avail
    } else {
        max as int
    }
}

/// A sample filter without a mask passes every sample; with a mask it
/// compares only the masked channels: a full mask passes exactly the samples
/// whose channels equal the value, and an empty mask passes every sample.
pub proof fn lemma_sample_filter_mask(f: LogicSampleFilter, sample: LogicSample)
    ensures
        f.channel_mask is None ==> f.accepts(sample),
        f.channel_mask == Some(0u32) ==> f.accepts(sample),
        f.channel_mask == Some(0xFFFF_FFFFu32) ==> (f.accepts(sample) <==> sample.channels == f.channel_value.unwrap_or(0)),
{
    let c = sample.channels;
    let v = f.channel_value.unwrap_or(0);
    assert(c & 0u32 == v & 0u32) by (bit_vector);
    assert((c & 0xFFFF_FFFFu32 == v & 0xFFFF_FFFFu32) <==> c == v) by (bit_vector);
}

proof fn lemma_contains_one(hay: Seq<u8>, b: u8)
    ensures
        contains_run(hay, seq![b]) <==> exists|k: int| 0 <= k < hay.len() && hay[k] == b,
{
    if contains_run(hay, seq![b]) {
        let k = choose|k: int| occurs_at(hay, seq![b], k);
        assert(hay.subrange(k, k + 1)[0] == hay[k]);
    }
    if exists|k: int| 0 <= k < hay.len() && hay[k] == b {
        let k = choose|k: int| 0 <= k < hay.len() && hay[k] == b;
        assert(hay.subrange(k, k + 1) =~= seq![b]);
        assert(occurs_at(hay, seq![b], k));
    }
}

/// A filter with a one-byte pattern and no protocol restriction accepts
/// exactly the events that carry that byte: a UART byte, an I2C address or
/// data byte, or either SPI byte; I2C start and stop conditions never match.
pub proof fn lemma_single_byte_pattern(f: DecodedEventFilter, e: DecodedEvent, b: u8)
    requires
        f.kind is None,
        f.byte_pattern matches Some(p) && p@ == seq![b],
    ensures
        f.accepts(e) <==> match e {
            DecodedEvent::Uart { byte, .. } => byte == b,
            DecodedEvent::I2c { event, .. } => match event {
                I2cEvent::Address { addr, .. } => addr == b,
                I2cEvent::Data { byte, .. } => byte == b,
                _ => false,
            },
            DecodedEvent::Spi { mosi, miso, .. } => mosi == b || miso == b,
        },
{
    let hay = event_payload(e);
    lemma_contains_one(hay, b);
    match e {
        DecodedEvent::Spi { mosi, miso, .. } => {
            if mosi == b {
                assert(hay[0] == b);
            }
            if miso == b {
                assert(hay[1] == b);
            }
        },
        DecodedEvent::Uart { byte, .. } => {
            if byte == b {
                assert(hay[0] == b);
            }
        },
        DecodedEvent::I2c { event, .. } => match event {
            I2cEvent::Address { addr, .. } => {
                if addr == b {
                    assert(hay[0] == b);
                }
            },
            I2cEvent::Data { byte, .. } => {
                if byte == b {
                    assert(hay[0] == b);
                }
            },
            _ => {},
        },
    }
}

/// An SPI event carries its MOSI byte followed by its MISO byte: the
/// two-byte pattern [mosi, miso] finds it, and with MOSI and MISO different
/// the reversed pattern does not.
pub proof fn lemma_spi_pattern_order(f: DecodedEventFilter, g: DecodedEventFilter, t: u64, mosi: u8, miso: u8)
    requires
        f.kind is None,
        f.byte_pattern matches Some(p) && p@ == seq![mosi, miso],
        g.kind is None,
        g.byte_pattern matches Some(q) && q@ == seq![miso, mosi],
    ensures
        f.accepts(DecodedEvent::Spi { timestamp: t, mosi, miso }),
        mosi != miso ==> !g.accepts(DecodedEvent::Spi { timestamp: t, mosi, miso }),
{
    let hay = seq![mosi, miso];
    assert(event_payload(DecodedEvent::Spi { timestamp: t, mosi, miso }) == hay);
    assert(hay.subrange(0, 2) =~= hay);
    assert(occurs_at(hay, seq![mosi, miso], 0));
    if mosi != miso && contains_run(hay, seq![miso, mosi]) {
        let k = choose|k: int| occurs_at(hay, seq![miso, mosi], k);
        assert(k == 0);
        assert(hay.subrange(0, 2)[0] == hay[0]);
    }
}

/// An empty pattern and no protocol restriction accept every event.
pub proof fn lemma_empty_pattern_accepts_all(f: DecodedEventFilter, e: DecodedEvent)
    requires
        f.kind is None,
        f.byte_pattern matches Some(p) && p@.len() == 0,
    ensures
        f.accepts(e),
{
    let p = f.byte_pattern.unwrap();
    assert(event_payload(e).subrange(0, 0) =~= p@);
    assert(occurs_at(event_payload(e), p@, 0));
}

/// A protocol filter with no pattern accepts exactly the events of the named
/// protocol, whatever the letter case of "uart", "i2c" or "spi".
pub proof fn lemma_kind_filter(f: DecodedEventFilter, e: DecodedEvent)
    requires
        f.byte_pattern is None,
        f.kind is Some,
    ensures
        ({
            let k = f.kind.unwrap()@;
            &&& (k == seq!['u', 'a', 'r', 't'] || k == seq!['U', 'A', 'R', 'T']) ==> (f.accepts(e) <==> e is Uart)
            &&& (k == seq!['i', '2', 'c'] || k == seq!['I', '2', 'C']) ==> (f.accepts(e) <==> e is I2c)
            &&& (k == seq!['s', 'p', 'i'] || k == seq!['S', 'P', 'I']) ==> (f.accepts(e) <==> e is Spi)
        }),
{
    let k = f.kind.unwrap()@;
    let n = event_kind_name(e);
    if k.len() == n.len() {
        if f.accepts(e) {
            assert(ascii_lower(k[0]) == ascii_lower(n[0]));
            assert(ascii_lower(k[1]) == ascii_lower(n[1]));
        }
    }
    if (k == seq!['u', 'a', 'r', 't'] || k == seq!['U', 'A', 'R', 'T']) && e is Uart {
        assert(eq_ignore_ascii_case(k, n));
    }
    if (k == seq!['i', '2', 'c'] || k == seq!['I', '2', 'C']) && e is I2c {
        assert(eq_ignore_ascii_case(k, n));
    }
    if (k == seq!['s', 'p', 'i'] || k == seq!['S', 'P', 'I']) && e is Spi {
        assert(eq_ignore_ascii_case(k, n));
    }
}

/// Ring buffer of logic samples for front-end subscriptions.
pub struct LogicBuffer {
    samples: VecDeque<LogicSample>,
    max_size: usize,
    version: u64,
}

impl LogicBuffer {
    /// Buffered samples, oldest first.
    pub closed spec fn view(&self) -> Seq<LogicSample> {
        self.samples@
    }

    pub closed spec fn capacity_spec(&self) -> nat {
        self.max_size as nat
    }

    /// Number of pushes so far (wrapping).
    pub closed spec fn version_spec(&self) -> u64 {
        self.version
    }

    /// Holds after every operation; a push keeps it unless the version wraps.
    pub open spec fn well_formed(&self) -> bool {
        history_valid(self.view().len(), self.capacity_spec(), self.version_spec())
    }

    pub fn new(max_size: usize) -> (r: Self)
        ensures
            r.view() == Seq::<LogicSample>::empty(),
            r.capacity_spec() == max_size,
            r.version_spec() == 0,
            r.well_formed(),
    {
        LogicBuffer {
            samples: VecDeque::with_capacity(if max_size < 16384 { max_size } else { 16384 }),
            max_size,
            version: 0,
        }
    }

    /// Appends a sample, evicting the oldest one when full.
    pub fn push(&mut self, sample: LogicSample)
        ensures
            final(self).view() == bounded_push(old(self).view(), sample, old(self).capacity_spec()),
            final(self).capacity_spec() == old(self).capacity_spec(),
            final(self).version_spec() == old(self).version_spec().wrapping_add(1),
            old(self).well_formed() && old(self).version_spec() < u64::MAX ==> final(self).well_formed(),
    {
        if self.samples.len() >= self.max_size {
            let _ = self.samples.pop_front();
        }
        self.samples.push_back(sample);
        self.version = self.version.wrapping_add(1);
    }

    /// Current version (number of pushes, wrapping).
    pub fn version(&self) -> (v: u64)
        ensures
            v == self.version_spec(),
    {
        self.version
    }

    /// The most recent `count` samples, oldest first.
    pub fn get_recent(&self, count: usize) -> (r: Vec<LogicSample>)
        ensures
            r@ == last_n(self.view(), count as nat),
    {
        let len = self.samples.len();
        let n = if count < len { count } else { len };
        let start = len - n;
        let mut out: Vec<LogicSample> = Vec::new();
        let mut i: usize = start;
        while i < len
            invariant
                len == self.samples@.len(),
                start <= i <= len,
                out@ == self.samples@.subrange(start as int, i as int),
            decreases len - i,
        {
            out.push(self.samples[i]);
            i = i + 1;
            assert(out@ =~= self.samples@.subrange(start as int, i as int));
        }
        assert(self.samples@.subrange(0, len as int) =~= self.samples@);
        out
    }

    /// Cursor read: items with absolute index in `[max(cursor, version - len), ..)`,
    /// at most `max` of them. Returns the items, the next cursor and how many
    /// items the cursor had already lost to eviction.
    pub fn drain_from(&self, cursor: u64, max: usize) -> (r: (Vec<LogicSample>, u64, u64))
        requires
            self.well_formed(),
            cursor <= self.version_spec(),
        ensures
            ({
                let len = self.view().len();
                let start = drain_start(self.version_spec(), len, cursor);
                let n = drain_count(self.version_spec(), len, cursor, max);
                let oldest = self.version_spec() - len;
                &&& r.0@ == self.view().subrange(start - oldest, start - oldest + n)
                &&& r.1 == start + n
                &&& r.2 == start - cursor
            }),
    {
        let version = self.version;
        let len = self.samples.len();
        let oldest = version - len as u64;
        let start = if cursor > oldest { cursor } else { oldest };
        let dropped = start - cursor;
        let avail = version - start;
        let n: usize = if avail <= max as u64 { avail as usize } else { max };
        let skip = (start - oldest) as usize;
        let mut out: Vec<LogicSample> = Vec::new();
        let mut i: usize = skip;
        while i < skip + n
            invariant
                len == self.samples@.len(),
                skip + n <= len,
                skip <= i <= skip + n,
                out@ == self.samples@.subrange(skip as int, i as int),
            decreases skip + n - i,
        {
            out.push(self.samples[i]);
            i = i + 1;
            assert(out@ =~= self.samples@.subrange(skip as int, i as int));
        }
        (out, start + n as u64, dropped)
    }

    /// Removes all samples (the version is kept).
    pub fn clear(&mut self)
        ensures
            final(self).view() == Seq::<LogicSample>::empty(),
            final(self).capacity_spec() == old(self).capacity_spec(),
            final(self).version_spec() == old(self).version_spec(),
            final(self).well_formed(),
    {
        self.samples.clear();
    }

    pub fn len(&self) -> (n: usize)
        ensures
            n == self.view().len(),
    {
        self.samples.len()
    }

    pub fn is_empty(&self) -> (b: bool)
        ensures
            b == (self.view().len() == 0),
    {
        self.samples.len() == 0
    }

    /// Sets the capacity, keeping the most recent samples.
    pub fn set_max_size(&mut self, max_size: usize)
        ensures
            final(self).view() == last_n(old(self).view(), max_size as nat),
            final(self).capacity_spec() == max_size,
            final(self).version_spec() == old(self).version_spec(),
            old(self).well_formed() ==> final(self).well_formed(),
    {
        self.max_size = max_size;
        let ghost orig = self.samples@;
        let ghost mut k: int = 0;
        while self.samples.len() > max_size
            invariant
                self.max_size == max_size,
                self.version == old(self).version,
                orig == old(self).samples@,
                0 <= k <= orig.len(),
                self.samples@ == orig.subrange(k, orig.len() as int),
                k == 0 || orig.len() - k >= max_size,
            decreases self.samples.len(),
        {
            let _ = self.samples.pop_front();
            proof {
                k = k + 1;
            }
            assert(self.samples@ =~= orig.subrange(k, orig.len() as int));
        }
        assert(self.samples@ =~= last_n(orig, max_size as nat));
    }
}

/// Ring buffer of decoded events (capacity at least 1 after `set_max_size`).
pub struct DecodedBuffer {
    events: VecDeque<DecodedEvent>,
    max_size: usize,
    version: u64,
}

impl DecodedBuffer {
    /// Buffered events, oldest first.
    pub closed spec fn view(&self) -> Seq<DecodedEvent> {
        self.events@
    }

    pub closed spec fn capacity_spec(&self) -> nat {
        self.max_size as nat
    }

    pub closed spec fn version_spec(&self) -> u64 {
        self.version
    }

    /// Holds after every operation; a push keeps it unless the version wraps.
    pub open spec fn well_formed(&self) -> bool {
        history_valid(self.view().len(), self.capacity_spec(), self.version_spec())
    }

    pub fn new(max_size: usize) -> (r: Self)
        ensures
            r.view() == Seq::<DecodedEvent>::empty(),
            r.capacity_spec() == max_size,
            r.version_spec() == 0,
            r.well_formed(),
    {
        DecodedBuffer {
            events: VecDeque::with_capacity(if max_size < 8192 { max_size } else { 8192 }),
            max_size,
            version: 0,
        }
    }

    /// Appends an event, evicting the oldest one when full.
    pub fn push(&mut self, event: DecodedEvent)
        ensures
            final(self).view() == bounded_push(old(self).view(), event, old(self).capacity_spec()),
            final(self).capacity_spec() == old(self).capacity_spec(),
            final(self).version_spec() == old(self).version_spec().wrapping_add(1),
            old(self).well_formed() && old(self).version_spec() < u64::MAX ==> final(self).well_formed(),
    {
        if self.events.len() >= self.max_size {
            let _ = self.events.pop_front();
        }
        self.events.push_back(event);
        self.version = self.version.wrapping_add(1);
    }

    pub fn version(&self) -> (v: u64)
        ensures
            v == self.version_spec(),
    {
        self.version
    }

    /// The most recent `count` events, oldest first.
    pub fn get_recent(&self, count: usize) -> (r: Vec<DecodedEvent>)
        ensures
            r@ == last_n(self.view(), count as nat),
    {
        let len = self.events.len();
        let n = if count < len { count } else { len };
        let start = len - n;
        let mut out: Vec<DecodedEvent> = Vec::new();
        let mut i: usize = start;
        while i < len
            invariant
                len == self.events@.len(),
                start <= i <= len,
                out@ == self.events@.subrange(start as int, i as int),
            decreases len - i,
        {
            out.push(self.events[i]);
            i = i + 1;
            assert(out@ =~= self.events@.subrange(start as int, i as int));
        }
        assert(self.events@.subrange(0, len as int) =~= self.events@);
        out
    }

    /// Cursor read (see [`LogicBuffer::drain_from`]).
    pub fn drain_from(&self, cursor: u64, max: usize) -> (r: (Vec<DecodedEvent>, u64, u64))
        requires
            self.well_formed(),
            cursor <= self.version_spec(),
        ensures
            ({
                let len = self.view().len();
                let start = drain_start(self.version_spec(), len, cursor);
                let n = drain_count(self.version_spec(), len, cursor, max);
                let oldest = self.version_spec() - len;
                &&& r.0@ == self.view().subrange(start - oldest, start - oldest + n)
                &&& r.1 == start + n
                &&& r.2 == start - cursor
            }),
    {
        let version = self.version;
        let len = self.events.len();
        let oldest = version - len as u64;
        let start = if cursor > oldest { cursor } else { oldest };
        let dropped = start - cursor;
        let avail = version - start;
        let n: usize = if avail <= max as u64 { avail as usize } else { max };
        let skip = (start - oldest) as usize;
        let mut out: Vec<DecodedEvent> = Vec::new();
        let mut i: usize = skip;
        while i < skip + n
            invariant
                len == self.events@.len(),
                skip + n <= len,
                skip <= i <= skip + n,
                out@ == self.events@.subrange(skip as int, i as int),
            decreases skip + n - i,
        {
            out.push(self.events[i]);
            i = i + 1;
            assert(out@ =~= self.events@.subrange(skip as int, i as int));
        }
        (out, start + n as u64, dropped)
    }

    /// Removes all events (the version is kept).
    pub fn clear(&mut self)
        ensures
            final(self).view() == Seq::<DecodedEvent>::empty(),
            final(self).capacity_spec() == old(self).capacity_spec(),
            final(self).version_spec() == old(self).version_spec(),
            final(self).well_formed(),
    {
        self.events.clear();
    }

    /// Sets the capacity (at least 1), keeping the most recent events.
    pub fn set_max_size(&mut self, max_size: usize)
        ensures
            final(self).capacity_spec() == (if max_size >= 1 { max_size as nat } else { 1 }),
            final(self).view() == last_n(old(self).view(), final(self).capacity_spec()),
            final(self).version_spec() == old(self).version_spec(),
            old(self).well_formed() ==> final(self).well_formed(),
    {
        let m = if max_size >= 1 { max_size } else { 1 };
        self.max_size = m;
        let ghost orig = self.events@;
        let ghost mut k: int = 0;
        while self.events.len() > m
            invariant
                self.max_size == m,
                self.version == old(self).version,
                orig == old(self).events@,
                0 <= k <= orig.len(),
                self.events@ == orig.subrange(k, orig.len() as int),
                k == 0 || orig.len() - k >= m,
            decreases self.events.len(),
        {
            let _ = self.events.pop_front();
            proof {
                k = k + 1;
            }
            assert(self.events@ =~= orig.subrange(k, orig.len() as int));
        }
        assert(self.events@ =~= last_n(orig, m as nat));
    }

    pub fn len(&self) -> (n: usize)
        ensures
            n == self.view().len(),
    {
        self.events.len()
    }

    pub fn is_empty(&self) -> (b: bool)
        ensures
            b == (self.view().len() == 0),
    {
        self.events.len() == 0
    }
}

} // verus!
