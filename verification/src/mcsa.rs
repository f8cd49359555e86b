//! Verdicts of motor-current signature analysis.

use vstd::prelude::*;

verus! {

/// Severity of a broken-rotor-bar signature, from the sideband-to-fundamental
/// level (dB).
#[derive(Debug, Clone, Copy, PartialEq, Eq, Structural)]
pub enum BarSeverity {
    /// Sideband `< -60 dB`: no significant rotor-bar signature.
    Healthy,
    /// `-60 ... -50 dB`: developing / possible defect, monitor.
    Developing,
    /// `-50 ... -45 dB`: broken bar likely.
    Broken,
    /// `>= -45 dB`: multiple broken bars / severe.
    Severe,
}

/// Dominant motor fault from a unified diagnosis.
#[derive(Debug, Clone, Copy, PartialEq, Eq, Structural)]
pub enum MotorFault {
    /// No fault signature above threshold.
    Healthy,
    /// Broken rotor bar(s).
    BrokenBar,
    /// Air-gap eccentricity.
    Eccentricity,
}

} // verus!
