//! Protocol engine configuration carried by frame schemas and test-data links.

use vstd::prelude::*;

use crate::diagnostic::DiagnosticConfig;
use crate::logic::LogicDecoderConfig;

verus! {

/// Protocol configuration; `channels: None` means auto-detect.
#[derive(Debug, Clone, PartialEq, Eq, Structural)]
pub enum ProtocolConfig {
    JustFloat { channels: Option<usize> },
    FireWater { channels: Option<usize> },
    RawData,
    Slcan,
    CandleLight,
    LogicDecode { decoder: LogicDecoderConfig },
    /// Diagnostic layer (ISO-TP / UDS / OBD-II / J1939), served by its own pipeline.
    Diagnostic { config: DiagnosticConfig },
}

impl Default for ProtocolConfig {
    /// JustFloat with 4 channels.
    fn default() -> (r: Self)
        ensures
            r == (ProtocolConfig::JustFloat { channels: Some(4) }),
    {
        ProtocolConfig::JustFloat { channels: Some(4) }
    }
}

impl ProtocolConfig {
    pub open spec fn manual_channels_spec(&self) -> Option<usize> {
        match self {
            ProtocolConfig::JustFloat { channels } => *channels,
            ProtocolConfig::FireWater { channels } => *channels,
            _ => None,
        }
    }

    /// Manually set channel count (only the float protocols have channels).
    pub fn manual_channels(&self) -> (r: Option<usize>)
        ensures
            r == self.manual_channels_spec(),
    {
        match self {
            ProtocolConfig::JustFloat { channels } => *channels,
            ProtocolConfig::FireWater { channels } => *channels,
            _ => None,
        }
    }
}

} // verus!
