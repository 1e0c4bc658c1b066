//! Modes of the wire shuffle with bit-flips.
use vstd::prelude::*;

verus! {

/// How bit-flips join the wire shuffle.
#[derive(Debug, Clone, Copy, PartialEq, Eq, Structural)]
pub enum FlipMode {
    /// No bit-flips, just the wire shuffle.
    NoFlips,
    /// An explicit layer of flips after the shuffle.
    Separate,
    /// Swap-with-flip gadgets embedded in the shuffle.
    Embedded,
}

impl Default for FlipMode {
    fn default() -> (r: Self)
        ensures
            r == FlipMode::NoFlips,
    {
        FlipMode::NoFlips
    }
}

/// Where the shuffle with bit-flips is applied.
#[derive(Debug, Clone, Copy, PartialEq, Eq, Structural)]
pub enum FlipScope {
    /// Once, at the start.
    Global,
    /// Before each stage.
    PerStage,
}

impl Default for FlipScope {
    fn default() -> (r: Self)
        ensures
            r == FlipScope::Global,
    {
        FlipScope::Global
    }
}

} // verus!
