//! The mirrored sliding window the order-statistic filters read.

use vstd::prelude::*;
use super::{mirror_index, mirror_spec};

verus! {

/// The `2 h + 1` samples of `s` centred at `center`, each index reflected into
/// range by `mirror_spec`.
pub open spec fn mirrored_window<T>(s: Seq<T>, center: int, h: int) -> Seq<T> {
    Seq::new((2 * h + 1) as nat, |k: int| s[mirror_spec(center + k - h, s.len() as int)])
}

/// The `2 h + 1` samples centred at `center`, borders reflected:
/// `w[k] = signal[mirror_index(center + k - h, n)]`.
pub fn mirror_window<T: Copy>(signal: &[T], center: usize, half_window: usize) -> (w: Vec<T>)
    requires
        signal.len() >= 1,
        2 * signal.len() <= isize::MAX,
        center < signal.len(),
        2 * half_window + 1 <= isize::MAX - signal.len(),
    ensures
        w@ == mirrored_window(signal@, center as int, half_window as int),
        w.len() == 2 * half_window + 1,
        forall|k: int|
            0 <= k < w.len() ==> w@[k] == signal@[mirror_spec(
                center + k - half_window,
                signal.len() as int,
            )],
{
    let n = signal.len();
    let width = 2 * half_window + 1;
    let mut w: Vec<T> = Vec::new();
    let mut k: usize = 0;
    while k < width
        invariant
            n == signal.len(),
            n >= 1,
            2 * n <= isize::MAX,
            center < n,
            width == 2 * half_window + 1,
            width <= isize::MAX - n,
            k <= width,
            w.len() == k,
            forall|j: int|
                0 <= j < k ==> w@[j] == signal@[mirror_spec(center + j - half_window, n as int)],
        decreases width - k,
    {
        let i: isize = center as isize + k as isize - half_window as isize;
        let idx = mirror_index(i, n);
        w.push(signal[idx]);
        k = k + 1;
    }
    proof {
        assert(w@ =~= mirrored_window(signal@, center as int, half_window as int));
    }
    w
}

} // verus!
