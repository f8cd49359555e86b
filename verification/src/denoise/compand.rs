//! The saturating maps of soft clipping.

use vstd::prelude::*;

verus! {

/// Which saturating map soft clipping applies. All three are odd, strictly
/// increasing, have unit slope at the origin and asymptote `+-limit`.
#[derive(Debug, Clone, Copy, PartialEq, Eq, Structural)]
pub enum SoftClipKind {
    /// `limit * tanh(x / limit)` - saturates exponentially fast.
    Tanh,
    /// `(2 limit / pi) * atan(pi x / (2 limit))` - gentlest roll-off.
    Atan,
    /// `x / (1 + |x| / limit)` - algebraic, roll-off like atan.
    Softsign,
}

} // verus!
