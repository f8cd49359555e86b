//! Border handling of non-local means: the mirror-extended signal whose
//! patches are contiguous slices.

use vstd::prelude::*;
use super::{mirror_index, mirror_spec};

verus! {

/// Mirror-extended copy of `signal`: `patch_half` reflected samples on each
/// side (`ext[t] = signal[mirror_index(t - patch_half, n)]`), so the patch of
/// half-width `patch_half` centred at sample `c` is the contiguous slice
/// `ext[c .. c + 2 patch_half + 1]`.
pub fn mirror_extend<T: Copy>(signal: &[T], patch_half: usize) -> (ext: Vec<T>)
    requires
        signal.len() >= 1 || patch_half == 0,
        signal.len() + 2 * patch_half <= isize::MAX,
        2 * signal.len() <= isize::MAX,
    ensures
        ext.len() == signal.len() + 2 * patch_half,
        forall|t: int|
            0 <= t < ext.len() ==> ext@[t] == signal@[mirror_spec(
                t - patch_half,
                signal.len() as int,
            )],
{
    let n = signal.len();
    let total = n + 2 * patch_half;
    let mut ext: Vec<T> = Vec::new();
    let mut t: usize = 0;
    while t < total
        invariant
            n == signal.len(),
            total == n + 2 * patch_half,
            n >= 1 || patch_half == 0,
            total <= isize::MAX,
            2 * n <= isize::MAX,
            t <= total,
            ext.len() == t,
            forall|j: int|
                0 <= j < t ==> ext@[j] == signal@[mirror_spec(j - patch_half, n as int)],
        decreases total - t,
    {
        let idx = mirror_index(t as isize - patch_half as isize, n);
        ext.push(signal[idx]);
        t = t + 1;
    }
    ext
}

} // verus!
