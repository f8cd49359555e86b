//! Index helpers shared by the denoisers, and the taxonomy they are organised by.

pub mod collab;
pub mod compand;
pub mod detect;
pub mod multichannel;
pub mod nlm;
pub mod rank;
pub mod streaming;
pub mod transform;
pub mod vst_bench;

use vstd::prelude::*;
use crate::dyadic::{two_pow, is_pow2, lemma_two_pow_pos, lemma_two_pow_monotone};

verus! {

/// The family a denoiser belongs to.
#[derive(Debug, Clone, Copy, PartialEq, Eq, Structural)]
pub enum DenoiserFamily {
    /// Linear time-invariant convolution smoothers.
    Linear,
    /// Order-statistic / robust rank filters.
    Rank,
    /// Fourier- or wavelet-domain shrinkage.
    Transform,
    /// Penalized-least-squares / total-variation optimization.
    Variational,
    /// Model-based / adaptive filters.
    Adaptive,
}

/// Where index `i` lands once reflected into `0..n`: the sequence `0, 1, ...,
/// n-1, n-1, ..., 1, 0` repeated with period `2n` (symmetric, edge-repeated
/// mirror). Everything maps to `0` when `n <= 1`.
pub open spec fn mirror_spec(i: int, n: int) -> int {
    if n <= 1 {
        0
    } else {
        let m = i % (2 * n);
        if m >= n {
            2 * n - 1 - m
        } else {
            m
        }
    }
}

/// The mirror reflection, characterized without its formula (for `n >= 2`):
/// indices inside `0..n` stay put, indices in `n..2n` are reflected about the
/// right edge (`n + j` goes to `n - 1 - j`), indices just left of 0 are
/// reflected about the left edge (`-1 - j` lands where `j` does), and the
/// whole pattern repeats with period `2 n`.
pub proof fn law_mirror_reflects_at_both_edges(i: int, n: int)
    requires
        n >= 2,
    ensures
        0 <= i < n ==> mirror_spec(i, n) == i,
        n <= i < 2 * n ==> mirror_spec(i, n) == 2 * n - 1 - i,
        mirror_spec(-1 - i, n) == mirror_spec(i, n),
        mirror_spec(i + 2 * n, n) == mirror_spec(i, n),
        0 <= mirror_spec(i, n) < n,
{
    let p = 2 * n;
    vstd::arithmetic::div_mod::lemma_mod_bound(i, p);
    vstd::arithmetic::div_mod::lemma_mod_bound(-1 - i, p);
    if 0 <= i < p {
        vstd::arithmetic::div_mod::lemma_small_mod(i as nat, p as nat);
    }
    vstd::arithmetic::div_mod::lemma_mod_add_multiples_vanish(i, p);
    // (-1 - i) mod p == p - 1 - (i mod p)
    vstd::arithmetic::div_mod::lemma_fundamental_div_mod(i, p);
    let q = i / p;
    let r = i % p;
    assert(-1 - i == (-q - 1) * p + (p - 1 - r)) by (nonlinear_arith)
        requires
            i == p * q + r,
    ;
    vstd::arithmetic::div_mod::lemma_fundamental_div_mod_converse(-1 - i, p, -q - 1, p - 1 - r);
}

/// Reflect an out-of-range index back into `0..n` (symmetric / edge-repeated
/// mirror), so windowed filters can run over signal borders without shrinking.
pub fn mirror_index(i: isize, n: usize) -> (r: usize)
    requires
        2 * n <= isize::MAX,
    ensures
        r as int == mirror_spec(i as int, n as int),
        n >= 1 ==> r < n,
        n <= 1 ==> r == 0,
{
    if n <= 1 {
        return 0;
    }
    let period: usize = 2 * n;
    let m: usize = if i >= 0 {
        (i as usize) % period
    } else {
        // i = -(a + 1) with a >= 0, and i mod p == p - 1 - (a mod p).
        let a: usize = (-(i + 1)) as usize;
        let r: usize = a % period;
        proof {
            let ii = i as int;
            let p = period as int;
            let aa = a as int;
            assert(ii == -(aa + 1));
            assert(ii % p == p - 1 - aa % p) by {
                vstd::arithmetic::div_mod::lemma_fundamental_div_mod(aa, p);
                vstd::arithmetic::div_mod::lemma_mod_pos_bound(aa, p);
                let q = aa / p;
                assert(ii == (-q - 1) * p + (p - 1 - aa % p)) by (nonlinear_arith)
                    requires
                        aa == p * q + aa % p,
                        ii == -(aa + 1),
                ;
                vstd::arithmetic::div_mod::lemma_fundamental_div_mod_converse(
                    ii,
                    p,
                    -q - 1,
                    p - 1 - aa % p,
                );

            }
        }
        period - 1 - r
    };
    if m >= n {
        period - 1 - m
    } else {
        m
    }
}

/// The smallest power of two that is at least `max(n, 1)`.
pub open spec fn next_pow2_spec(n: nat, r: nat) -> bool {
    &&& is_pow2(r)
    &&& r >= n
    &&& r >= 1
    &&& (r == 1 || r / 2 < n)
}

/// Smallest power of two `>= n` (at least 1).
pub fn next_pow2(n: usize) -> (r: usize)
    requires
        n <= usize::MAX / 2 + 1,
    ensures
        next_pow2_spec(n as nat, r as nat),
{
    let mut p: usize = 1;
    let ghost mut k: nat = 0;
    while p < n
        invariant
            p == two_pow(k),
            p >= 1,
            n <= usize::MAX / 2 + 1,
            p == 1 || p / 2 < n,
        decreases usize::MAX - p,
    {
        p = 2 * p;
        proof {
            k = k + 1;
        }
    }
    proof {
        lemma_two_pow_pos(k);
    }
    p
}

/// The padded copy of `s`: the first `s.len()` items, then the mirror
/// reflection of the indices beyond, up to `target` items.
pub open spec fn reflect_pad_spec<T>(s: Seq<T>, target: nat) -> Seq<T> {
    Seq::new(target, |i: int| s[mirror_spec(i, s.len() as int)])
}

/// Right-pad a signal by symmetric reflection up to the next power of two, so the
/// power-of-two FFT and Haar transform can process arbitrary-length inputs with a
/// smooth boundary. Returns an unchanged copy when the length is already a power
/// of two.
pub fn pad_reflect_pow2<T: Copy>(signal: &[T]) -> (out: Vec<T>)
    requires
        signal.len() >= 1,
        2 * signal.len() <= isize::MAX,
    ensures
        next_pow2_spec(signal.len() as nat, out.len() as nat),
        out@ == reflect_pad_spec(signal@, out.len() as nat),
        out@.take(signal.len() as int) == signal@,
        forall|j: int|
            0 <= j < out.len() - signal.len() ==> #[trigger] out@[signal.len() + j] == signal@[signal.len()
                - 1 - j],
{
    let n = signal.len();
    let target = next_pow2(n);
    let mut out: Vec<T> = Vec::new();
    let mut i: usize = 0;
    while i < target
        invariant
            n == signal.len(),
            n >= 1,
            2 * n <= isize::MAX,
            next_pow2_spec(n as nat, target as nat),
            i <= target,
            out.len() == i,
            forall|j: int| 0 <= j < i ==> out@[j] == signal@[mirror_spec(j, n as int)],
        decreases target - i,
    {
        proof {
            assert(target < 2 * n) by {
                if target != 1 {
                    assert(target / 2 < n);
                }
            }
        }
        let idx = mirror_index(i as isize, n);
        out.push(signal[idx]);
        i = i + 1;
    }
    proof {
        assert forall|j: int| 0 <= j < n implies mirror_spec(j, n as int) == j by {
            if n > 1 {
                vstd::arithmetic::div_mod::lemma_small_mod(j as nat, (2 * n) as nat);
            }
        }
        assert(out@ =~= reflect_pad_spec(signal@, target as nat));
        assert(out@.take(n as int) =~= signal@);
        assert(target <= 2 * n) by {
            if target != 1 {
                assert(target / 2 < n);
            }
        }
        law_pad_reflects_the_end(signal@, target as nat);
    }
    out
}

/// Every padded sample beyond the input mirrors the input's end: item `n + j`
/// of the padded copy is `s[n - 1 - j]` (for targets up to `2 n`, as the next
/// power of two always is).
pub proof fn law_pad_reflects_the_end<T>(s: Seq<T>, target: nat)
    requires
        s.len() >= 1,
        s.len() <= target <= 2 * s.len(),
    ensures
        forall|j: int|
            0 <= j < target - s.len() ==> #[trigger] reflect_pad_spec(s, target)[s.len() + j]
                == s[s.len() - 1 - j],
{
    let n = s.len() as int;
    assert forall|j: int| 0 <= j < target - n implies #[trigger] reflect_pad_spec(s, target)[n
        + j] == s[n - 1 - j] by {
        if n > 1 {
            vstd::arithmetic::div_mod::lemma_small_mod((n + j) as nat, (2 * n) as nat);
            assert(mirror_spec(n + j, n) == n - 1 - j);
        }
    }
}


/// Padding leaves a signal whose length is already a power of two unchanged:
/// the padded length is the length itself and the samples are the input samples.
pub proof fn law_pad_keeps_power_of_two_lengths<T>(s: Seq<T>, r: nat)
    requires
        is_pow2(s.len()),
        next_pow2_spec(s.len(), r),
    ensures
        r == s.len(),
        reflect_pad_spec(s, r) == s,
{
    let n = s.len();
    let b = choose|k: nat| two_pow(k) == n;
    let a = choose|k: nat| two_pow(k) == r;
    lemma_two_pow_pos(b);
    if r != n {
        assert(r > n);
        if a <= b {
            lemma_two_pow_monotone(a, b);
        }
        assert(a > b);
        assert(two_pow(a) == 2 * two_pow((a - 1) as nat));
        lemma_two_pow_monotone(b, (a - 1) as nat);
        assert(false);
    }
    assert forall|j: int| 0 <= j < n implies mirror_spec(j, n as int) == j by {
        if n > 1 {
            vstd::arithmetic::div_mod::lemma_small_mod(j as nat, (2 * n) as nat);
        }
    }
    assert(reflect_pad_spec(s, r) =~= s);
}

} // verus!
