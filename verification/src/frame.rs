//! Transport-level records: raw byte blocks, connection state, port
//! descriptions and traffic counters, plus the wall-clock timestamp source.

use vstd::prelude::*;

use std::time::{SystemTime, UNIX_EPOCH};

verus! {

/// Raw byte block, not yet parsed by a protocol engine.
#[derive(Debug, Clone)]
pub struct RawData {
    pub timestamp: u64,
    pub data: Vec<u8>,
}

/// Connection state of a transport.
#[derive(Debug, Clone, Copy, PartialEq, Eq, Structural)]
pub enum ConnectionState {
    Disconnected,
    Connecting,
    Connected,
    Error,
}

/// Serial port description (all platforms).
#[derive(Debug, Clone)]
pub struct PortInfo {
    pub name: String,
    pub port_type: String,
    pub vid: Option<u16>,
    pub pid: Option<u16>,
    pub serial_number: Option<String>,
    pub manufacturer: Option<String>,
    pub product: Option<String>,
    pub description: Option<String>,
}

/// Traffic counters of a transport.
#[derive(Debug, Clone, Copy, PartialEq, Eq, Structural)]
pub struct TransportStats {
    pub rx_bytes: u64,
    pub tx_bytes: u64,
    pub rx_frames: u64,
    pub tx_frames: u64,
    /// Messages dropped by a lagging subscriber in the last 100 ms window.
    pub rx_dropped: u64,
}

impl Default for TransportStats {
    /// All counters zero.
    fn default() -> (r: Self)
        ensures
            r == (TransportStats { rx_bytes: 0, tx_bytes: 0, rx_frames: 0, tx_frames: 0, rx_dropped: 0 }),
    {
        TransportStats { rx_bytes: 0, tx_bytes: 0, rx_frames: 0, tx_frames: 0, rx_dropped: 0 }
    }
}

/// Calls `SystemTime::now().duration_since(UNIX_EPOCH)` and takes the
/// microseconds of the elapsed duration; `None` when the clock reads before
/// the epoch. Nothing is claimed of the value: it is the machine's clock.
#[verifier::external_body]
fn micros_since_epoch() -> (r: Option<u128>) {
    match SystemTime::now().duration_since(UNIX_EPOCH) {
        Ok(d) => Some(d.as_micros()),
        Err(_) => None,
    }
}

/// Wall-clock time in microseconds since the Unix epoch (truncated to 64 bits;
/// 0 when the clock reads before the epoch).
pub fn now_us() -> (r: u64) {
    match micros_since_epoch() {
        Some(m) => m as u64,
        None => 0,
    }
}

} // verus!
