//! Sizing of the patch groups of collaborative (block-matching) filtering.

use vstd::prelude::*;
use super::next_pow2;
use crate::dyadic::is_pow2;

verus! {

/// Largest power of two `<= m` (and `0` for `m == 0`). The group-axis Haar
/// needs a power-of-two length, and rounding the matched set *down* keeps only
/// the closest matches.
pub fn prev_pow2(m: usize) -> (r: usize)
    requires
        m <= usize::MAX / 2 + 1,
    ensures
        m == 0 ==> r == 0,
        m >= 1 ==> is_pow2(r as nat) && r <= m && m < 2 * r,
{
    let np = next_pow2(m);
    if np == m {
        np
    } else {
        proof {
            if m >= 1 {
                let k = choose|k: nat| crate::dyadic::two_pow(k) == np;
                assert(k > 0);
                assert(crate::dyadic::two_pow((k - 1) as nat) == np / 2);
            }
        }
        np / 2
    }
}

} // verus!
