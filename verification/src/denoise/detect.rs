//! The noise classes the detector distinguishes.

use vstd::prelude::*;

verus! {

/// The dominant character of the noise on a signal.
#[derive(Debug, Clone, Copy, PartialEq, Eq, Structural)]
pub enum NoiseType {
    /// Little to no noise detected relative to the signal.
    LowNoise,
    /// Broadband, roughly-white additive noise (flat spectrum, light tails).
    Gaussian,
    /// Impulsive noise: aperiodic spikes, dropouts, salt-and-pepper.
    Impulsive,
    /// Periodic interference: a strong tonal line such as mains hum.
    Periodic,
    /// Colored `1/f` noise (pink/brown): energy concentrated at low frequencies.
    Colored,
    /// Baseline wander / slow drift dominating the low-frequency band.
    Baseline,
}

} // verus!
