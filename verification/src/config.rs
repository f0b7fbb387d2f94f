//! Serial-line settings shared by the logic-analyzer UART decoder.

use vstd::prelude::*;

verus! {

/// UART parity.
#[derive(Debug, Clone, Copy, PartialEq, Eq, Structural)]
pub enum Parity {
    NoParity,
    Odd,
    Even,
}

/// UART stop bits.
#[derive(Debug, Clone, Copy, PartialEq, Eq, Structural)]
pub enum StopBits {
    One,
    Two,
}

} // verus!
