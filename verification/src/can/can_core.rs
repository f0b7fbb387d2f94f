//! Device-side CAN acceptance settings and the direction / id-list frame filter.

use vstd::prelude::*;

pub use crate::can::{CanBitrate, CanBuffer, CanDirection, CanFrame, CanFrameBatch, CandleDeviceInfo};

verus! {

/// Hardware acceptance settings: enable flag and id masks per frame format.
#[derive(Debug, Clone)]
pub struct CanFilter {
    pub enabled: bool,
    pub id_mask_std: u16,
    pub id_mask_ext: u32,
}

impl CanFilter {
    /// Whether `frame` is kept. Each branch compares the masked id with
    /// itself, so every frame is kept whatever the settings.
    pub fn matches(&self, frame: &CanFrame) -> (r: bool)
        ensures
            r == true,
    {
        if !self.enabled {
            return true;
        }
        if frame.extended {
            (frame.id & self.id_mask_ext) == (frame.id & self.id_mask_ext)
        } else {
            let low = (frame.id & 0xFFFF) as u16;
            (low & self.id_mask_std) == (low & self.id_mask_std)
        }
    }
}

/// Direction and id-list frame filter.
#[derive(Debug, Clone)]
pub struct CanFrameFilter {
    pub rx_only: bool,
    pub tx_only: bool,
    /// Allowed ids (empty: no restriction).
    pub id_whitelist: Vec<u32>,
    /// Rejected ids.
    pub id_blacklist: Vec<u32>,
}

impl CanFrameFilter {
    pub open spec fn accepts(&self, frame: CanFrame) -> bool {
        &&& (self.rx_only ==> frame.direction == CanDirection::Rx)
        &&& (self.tx_only ==> frame.direction == CanDirection::Tx)
        &&& (self.id_whitelist@.len() > 0 ==> self.id_whitelist@.contains(frame.id))
        &&& !self.id_blacklist@.contains(frame.id)
    }

    /// Whether `frame` passes the direction, whitelist and blacklist checks.
    pub fn matches(&self, frame: &CanFrame) -> (r: bool)
        ensures
            r == self.accepts(*frame),
    {
        if self.rx_only && frame.direction != CanDirection::Rx {
            return false;
        }
        if self.tx_only && frame.direction != CanDirection::Tx {
            return false;
        }
        if self.id_whitelist.len() > 0 && !contains_id(&self.id_whitelist, frame.id) {
            return false;
        }
        if contains_id(&self.id_blacklist, frame.id) {
            return false;
        }
        true
    }
}

fn contains_id(ids: &Vec<u32>, id: u32) -> (r: bool)
    ensures
        r == ids@.contains(id),
{
    let mut i: usize = 0;
    while i < ids.len()
        invariant
            i <= ids.len(),
            forall|k: int| 0 <= k < i ==> ids@[k] != id,
        decreases ids.len() - i,
    {
        if ids[i] == id {
            assert(ids@[i as int] == id);
            return true;
        }
        i = i + 1;
    }
    false
}

} // verus!
