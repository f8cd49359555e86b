//! Transform-domain denoising: the shrinkage rules and wavelet bases, and the
//! shift bookkeeping of shift-invariant (cycle-spun) denoising.

use vstd::prelude::*;
use vstd::arithmetic::div_mod::{lemma_div_is_ordered, lemma_fundamental_div_mod_converse};
use crate::dyadic::{two_pow, is_pow2, lemma_two_pow_pos};
use crate::fft::{exact_log2, lemma_exact_log2};

verus! {

/// Which shrinkage rule wavelet thresholding applies to detail coefficients.
#[derive(Debug, Clone, Copy, PartialEq, Eq, Structural)]
pub enum ThresholdMode {
    /// Hard threshold: keep coefficients above the threshold, zero the rest.
    Hard,
    /// Soft threshold: shrink every coefficient toward zero by the threshold.
    Soft,
}

/// The orthogonal wavelet basis used by wavelet shrinkage.
///
/// Naming follows the tap count (Daubechies-`K` has `K` taps and `K/2` vanishing
/// moments).
#[derive(Debug, Clone, Copy, PartialEq, Eq, Structural)]
pub enum Wavelet {
    /// Haar: piecewise-constant basis, best for steps.
    Haar,
    /// Daubechies-4 (two vanishing moments).
    Db4,
    /// Daubechies-6 (three vanishing moments).
    Db6,
    /// Daubechies-8 (four vanishing moments).
    Db8,
}

impl Wavelet {
    /// The number of taps of the basis' analysis filters.
    pub open spec fn taps(self) -> nat {
        match self {
            Wavelet::Haar => 2,
            Wavelet::Db4 => 4,
            Wavelet::Db6 => 6,
            Wavelet::Db8 => 8,
        }
    }

    /// Number of vanishing moments of the wavelet (high-pass) filter.
    pub fn vanishing_moments(self) -> (r: usize)
        ensures
            2 * r == self.taps(),
            r == match self {
                Wavelet::Haar => 1usize,
                Wavelet::Db4 => 2,
                Wavelet::Db6 => 3,
                Wavelet::Db8 => 4,
            },
    {
        match self {
            Wavelet::Haar => 1,
            Wavelet::Db4 => 2,
            Wavelet::Db6 => 3,
            Wavelet::Db8 => 4,
        }
    }
}


// ---------------------------------------------------------------------------
// Depth of the multi-level wavelet decomposition.
// ---------------------------------------------------------------------------

/// The number of levels asked for on a padded signal of length `2^n_log`:
/// `levels == 0` selects `max(n_log - 2, 1)`, otherwise `levels` capped at
/// `n_log`.
pub open spec fn requested_levels(n_log: nat, levels: nat) -> nat {
    if levels == 0 {
        let d: nat = if n_log >= 2 { (n_log - 2) as nat } else { 0 };
        if d >= 1 { d } else { 1 }
    } else if levels <= n_log {
        levels
    } else {
        n_log
    }
}

/// How many analysis steps run on a signal of length `len`, at most `req`,
/// each halving the length and each needing at least `min_len` samples.
pub open spec fn dwt_depth(len: nat, req: nat, min_len: nat) -> nat
    decreases req,
{
    if req == 0 || len < min_len {
        0
    } else {
        1 + dwt_depth(len / 2, (req - 1) as nat, min_len)
    }
}

/// The decomposition never runs more steps than it was allowed.
proof fn lemma_dwt_depth_bounded(len: nat, req: nat, min_len: nat)
    ensures
        dwt_depth(len, req, min_len) <= req,
    decreases req,
{
    if req > 0 && len >= min_len {
        lemma_dwt_depth_bounded(len / 2, (req - 1) as nat, min_len);
    }
}

/// The decomposition runs while the running approximation is long enough:
/// before every step `i` it still holds `len / 2^i >= min_len` samples, and it
/// stops short of the requested `req` steps only when the approximation has
/// become shorter than `min_len`.
pub proof fn law_depth_runs_while_long_enough(len: nat, req: nat, min_len: nat)
    ensures
        dwt_depth(len, req, min_len) <= req,
        forall|i: nat|
            i < dwt_depth(len, req, min_len) ==> len / #[trigger] two_pow(i) >= min_len,
        dwt_depth(len, req, min_len) < req ==> len / two_pow(dwt_depth(len, req, min_len))
            < min_len,
    decreases req,
{
    lemma_dwt_depth_bounded(len, req, min_len);
    assert(two_pow(0) == 1);
    if req > 0 && len >= min_len {
        let d1 = dwt_depth(len / 2, (req - 1) as nat, min_len);
        law_depth_runs_while_long_enough(len / 2, (req - 1) as nat, min_len);
        assert(dwt_depth(len, req, min_len) == 1 + d1);
        assert forall|i: nat| i < dwt_depth(len, req, min_len) implies len / #[trigger] two_pow(i)
            >= min_len by {
            if i == 0 {
                assert(len / 1 == len);
            } else {
                let i1 = (i - 1) as nat;
                lemma_two_pow_pos(i1);
                assert(two_pow(i) == 2 * two_pow(i1));
                vstd::arithmetic::div_mod::lemma_div_denominator(len as int, 2, two_pow(i1) as int);
                assert(i1 < d1);
                assert((len / 2) / two_pow(i1) >= min_len);
            }
        }
        if dwt_depth(len, req, min_len) < req {
            lemma_two_pow_pos(d1);
            assert(two_pow(d1 + 1) == 2 * two_pow(d1));
            vstd::arithmetic::div_mod::lemma_div_denominator(len as int, 2, two_pow(d1) as int);
        }
    }
}

/// A requested depth is honoured: for `levels >= 1` the plan asks for exactly
/// `levels` steps when the signal has that many (`levels <= log2 n`), never
/// for more than `levels`, and the decomposition runs at most `levels` steps;
/// only `levels == 0` selects the automatic depth `max(log2 n - 2, 1)`.
pub proof fn law_requested_depth_is_honoured(n_log: nat, levels: nat, len: nat, min_len: nat)
    ensures
        levels >= 1 ==> requested_levels(n_log, levels) <= levels,
        1 <= levels <= n_log ==> requested_levels(n_log, levels) == levels,
        levels >= 1 ==> dwt_depth(len, requested_levels(n_log, levels), min_len) <= levels,
        levels == 0 && n_log >= 3 ==> requested_levels(n_log, levels) == n_log - 2,
        levels == 0 && n_log < 3 ==> requested_levels(n_log, levels) == 1,
{
    lemma_dwt_depth_bounded(len, requested_levels(n_log, levels), min_len);
}

/// The number of levels the multi-level DWT of a padded (power-of-two length)
/// signal performs with a `taps`-tap filter: the requested depth, cut short as
/// soon as the running approximation is shorter than the filter (or than 2).
pub fn dwt_level_count(padded_len: usize, levels: usize, taps: usize) -> (r: usize)
    requires
        is_pow2(padded_len as nat),
    ensures
        r == dwt_depth(
            padded_len as nat,
            requested_levels(exact_log2(padded_len as nat), levels as nat),
            if taps >= 2 { taps as nat } else { 2 },
        ),
        r <= requested_levels(exact_log2(padded_len as nat), levels as nat),
        forall|i: nat|
            i < r ==> padded_len as nat / #[trigger] two_pow(i) >= taps && padded_len as nat
                / two_pow(i) >= 2,
        r < requested_levels(exact_log2(padded_len as nat), levels as nat) ==> (padded_len as nat
            / two_pow(r as nat) < taps || padded_len as nat / two_pow(r as nat) < 2),
{
    proof {
        lemma_exact_log2(padded_len as nat);
        lemma_two_pow_pos(exact_log2(padded_len as nat));
        assert(two_pow(0) == 1);
        assert(padded_len * two_pow(0) == padded_len);
    }
    // log2 of the padded length
    let mut max_levels: usize = 0;
    let mut p: usize = padded_len;
    while p > 1
        invariant
            p >= 1,
            p * two_pow(max_levels as nat) == padded_len,
            two_pow(exact_log2(padded_len as nat)) == padded_len,
            max_levels <= padded_len,
            is_pow2(p as nat),
        decreases p,
    {
        proof {
            let k = choose|k: nat| two_pow(k) == p;
            assert(k > 0) by {
                if k == 0 {
                    assert(two_pow(0) == 1);
                }
            }
            assert(p == 2 * two_pow((k - 1) as nat));
            assert(p % 2 == 0);
            assert((p / 2) * two_pow((max_levels + 1) as nat) == padded_len) by (nonlinear_arith)
                requires
                    p * two_pow(max_levels as nat) == padded_len,
                    two_pow((max_levels + 1) as nat) == 2 * two_pow(max_levels as nat),
                    p % 2 == 0,
            ;
            lemma_two_pow_pos(max_levels as nat);
            crate::dyadic::lemma_two_pow_exceeds((max_levels + 1) as nat);
            assert(max_levels + 1 <= padded_len) by (nonlinear_arith)
                requires
                    (p / 2) * two_pow((max_levels + 1) as nat) == padded_len,
                    p / 2 >= 1,
                    two_pow((max_levels + 1) as nat) > max_levels + 1,
            {
            }
        }
        p = p / 2;
        max_levels = max_levels + 1;
    }
    proof {
        assert(two_pow(max_levels as nat) == padded_len);
        crate::dyadic::lemma_two_pow_injective(max_levels as nat, exact_log2(padded_len as nat));
    }
    let req: usize = if levels == 0 {
        let d = if max_levels >= 2 { max_levels - 2 } else { 0 };
        if d >= 1 { d } else { 1 }
    } else if levels <= max_levels {
        levels
    } else {
        max_levels
    };
    let min_len: usize = if taps >= 2 { taps } else { 2 };
    let mut len: usize = padded_len;
    let mut done: usize = 0;
    while done < req
        invariant
            req as nat == requested_levels(exact_log2(padded_len as nat), levels as nat),
            min_len as nat == (if taps >= 2 { taps as nat } else { 2 }),
            done <= req,
            dwt_depth(padded_len as nat, req as nat, min_len as nat) == done + dwt_depth(
                len as nat,
                (req - done) as nat,
                min_len as nat,
            ),
        decreases req - done,
    {
        if len < min_len {
            proof {
                law_depth_runs_while_long_enough(
                padded_len as nat,
                requested_levels(exact_log2(padded_len as nat), levels as nat),
                if taps >= 2 { taps as nat } else { 2 },
            );
            }
            return done;
        }
        len = len / 2;
        done = done + 1;
    }
    proof {
        law_depth_runs_while_long_enough(
            padded_len as nat,
            requested_levels(exact_log2(padded_len as nat), levels as nat),
            if taps >= 2 { taps as nat } else { 2 },
        );
    }
    done
}

// ---------------------------------------------------------------------------
// Cycle spinning: shift amounts and rotations.
// ---------------------------------------------------------------------------

/// The shift `floor(k * n / n_shifts)` of the `k`-th of `n_shifts` evenly spaced
/// rotations of an `n`-sample signal.
#[verifier::opaque]
pub open spec fn spin_shift(k: nat, n: nat, n_shifts: nat) -> nat {
    (k * n) / n_shifts
}

/// The shifts start at 0, stay below `n` (when `n > 0`) and never decrease.
pub proof fn lemma_spin_shift(k: nat, n: nat, n_shifts: nat)
    requires
        k < n_shifts,
    ensures
        spin_shift(0, n, n_shifts) == 0,
        spin_shift(k, n, n_shifts) < n || (n == 0 && spin_shift(k, n, n_shifts) == 0),
        k >= 1 ==> spin_shift((k - 1) as nat, n, n_shifts) <= spin_shift(k, n, n_shifts),
{
    reveal(spin_shift);
    assert(0 * n == 0);
    if n > 0 {
        assert(k * n < n_shifts * n) by (nonlinear_arith)
            requires
                k < n_shifts,
                n > 0,
        ;
        vstd::arithmetic::div_mod::lemma_fundamental_div_mod((k * n) as int, n_shifts as int);
        let q = ((k * n) as int) / (n_shifts as int);
        vstd::arithmetic::div_mod::lemma_mod_pos_bound((k * n) as int, n_shifts as int);
        assert(q < n) by (nonlinear_arith)
            requires
                n_shifts * q <= k * n,
                k * n < n_shifts * n,
                n_shifts > 0,
        ;
    } else {
        assert(k * n == 0) by (nonlinear_arith)
            requires
                n == 0,
        ;
    }
    if k >= 1 {
        assert(((k - 1) * n) <= k * n) by (nonlinear_arith)
            requires
                k >= 1,
        ;
        lemma_div_is_ordered(((k - 1) * n) as int, (k * n) as int, n_shifts as int);
    }
}

/// The shifts of the first `k` rotations with consecutive repeats removed.
pub open spec fn shift_list(k: nat, n: nat, n_shifts: nat) -> Seq<nat>
    decreases k,
{
    if k == 0 {
        Seq::empty()
    } else {
        let prev = shift_list((k - 1) as nat, n, n_shifts);
        let v = spin_shift((k - 1) as nat, n, n_shifts);
        if prev.len() > 0 && prev.last() == v {
            prev
        } else {
            prev.push(v)
        }
    }
}

/// The deduplicated list starts at 0 and ends with the last shift value.
proof fn lemma_shift_list_ends(k: nat, n: nat, n_shifts: nat)
    requires
        1 <= k <= n_shifts,
    ensures
        shift_list(k, n, n_shifts).len() >= 1,
        shift_list(k, n, n_shifts)[0] == 0,
        shift_list(k, n, n_shifts).last() == spin_shift((k - 1) as nat, n, n_shifts),
    decreases k,
{
    let k1 = (k - 1) as nat;
    lemma_spin_shift(k1, n, n_shifts);
    if k1 > 0 {
        lemma_shift_list_ends(k1, n, n_shifts);
    } else {
        assert(shift_list(0, n, n_shifts).len() == 0);
    }
}

/// The deduplicated list is strictly increasing and below `n` (or all zero).
proof fn lemma_shift_list_sorted(k: nat, n: nat, n_shifts: nat)
    requires
        k <= n_shifts,
    ensures
        forall|i: int, j: int|
            0 <= i < j < shift_list(k, n, n_shifts).len() ==> shift_list(k, n, n_shifts)[i]
                < shift_list(k, n, n_shifts)[j],
        forall|i: int|
            0 <= i < shift_list(k, n, n_shifts).len() ==> shift_list(k, n, n_shifts)[i] < n || (n
                == 0 && shift_list(k, n, n_shifts)[i] == 0),
    decreases k,
{
    if k > 0 {
        let k1 = (k - 1) as nat;
        lemma_shift_list_sorted(k1, n, n_shifts);
        lemma_spin_shift(k1, n, n_shifts);
        let prev = shift_list(k1, n, n_shifts);
        let v = spin_shift(k1, n, n_shifts);
        if prev.len() > 0 {
            lemma_shift_list_ends(k1, n, n_shifts);
        }
        if !(prev.len() > 0 && prev.last() == v) {
            let l = prev.push(v);
            assert forall|i: int, j: int| 0 <= i < j < l.len() implies l[i] < l[j] by {
                if j == prev.len() {
                    assert(prev.last() < v);
                    if i < prev.len() - 1 {
                        assert(prev[i] < prev[prev.len() - 1]);
                    }
                }
            }
        }
    }
}

/// Every entry of the deduplicated list is the shift of one of the first `k`
/// rotations, and every such shift is in the list.
proof fn lemma_shift_list_values(k: nat, n: nat, n_shifts: nat)
    requires
        k <= n_shifts,
    ensures
        forall|i: int|
            #![trigger shift_list(k, n, n_shifts)[i]]
            0 <= i < shift_list(k, n, n_shifts).len() ==> exists|kk: nat|
                kk < k && shift_list(k, n, n_shifts)[i] == #[trigger] spin_shift(kk, n, n_shifts),
        forall|kk: nat|
            kk < k ==> exists|i: int|
                0 <= i < shift_list(k, n, n_shifts).len() && shift_list(k, n, n_shifts)[i]
                    == #[trigger] spin_shift(kk, n, n_shifts),
    decreases k,
{
    if k > 0 {
        let k1 = (k - 1) as nat;
        lemma_shift_list_values(k1, n, n_shifts);
        let prev = shift_list(k1, n, n_shifts);
        let v = spin_shift(k1, n, n_shifts);
        let l = shift_list(k, n, n_shifts);
        if prev.len() > 0 && prev.last() == v {
            assert(l == prev);
            assert forall|kk: nat| kk < k implies exists|i: int|
                0 <= i < l.len() && l[i] == #[trigger] spin_shift(kk, n, n_shifts) by {
                if kk == k1 {
                    assert(l[l.len() - 1] == spin_shift(kk, n, n_shifts));
                }
            }
        } else {
            assert(l == prev.push(v));
            assert forall|i: int| #![trigger l[i]] 0 <= i < l.len() implies exists|kk: nat|
                kk < k && l[i] == #[trigger] spin_shift(kk, n, n_shifts) by {
                if i == prev.len() {
                    assert(l[i] == spin_shift(k1, n, n_shifts));
                } else {
                    assert(l[i] == prev[i]);
                }
            }
            assert forall|kk: nat| kk < k implies exists|i: int|
                0 <= i < l.len() && l[i] == #[trigger] spin_shift(kk, n, n_shifts) by {
                if kk == k1 {
                    assert(l[prev.len() as int] == spin_shift(kk, n, n_shifts));
                } else {
                    let i = choose|i: int|
                        0 <= i < prev.len() && prev[i] == #[trigger] spin_shift(kk, n, n_shifts);
                    assert(l[i] == prev[i]);
                }
            }
        }
    }
}

/// The shift plan of cycle spinning: the deduplicated shifts of all
/// `n_shifts` rotations start at 0, strictly increase, stay below `n` (all 0
/// when `n == 0`), every entry is the shift of some rotation, and every
/// rotation's shift is in the plan, so each distinct alignment is visited
/// exactly once.
pub proof fn law_shift_plan(n: nat, n_shifts: nat)
    requires
        n_shifts >= 1,
    ensures
        shift_list(n_shifts, n, n_shifts).len() >= 1,
        shift_list(n_shifts, n, n_shifts)[0] == 0,
        forall|i: int, j: int|
            0 <= i < j < shift_list(n_shifts, n, n_shifts).len() ==> shift_list(
                n_shifts,
                n,
                n_shifts,
            )[i] < shift_list(n_shifts, n, n_shifts)[j],
        forall|i: int|
            0 <= i < shift_list(n_shifts, n, n_shifts).len() ==> shift_list(n_shifts, n, n_shifts)[i]
                < n || (n == 0 && shift_list(n_shifts, n, n_shifts)[i] == 0),
        forall|i: int|
            #![trigger shift_list(n_shifts, n, n_shifts)[i]]
            0 <= i < shift_list(n_shifts, n, n_shifts).len() ==> exists|k: nat|
                k < n_shifts && shift_list(n_shifts, n, n_shifts)[i] == #[trigger] spin_shift(
                    k,
                    n,
                    n_shifts,
                ),
        forall|k: nat|
            k < n_shifts ==> exists|i: int|
                0 <= i < shift_list(n_shifts, n, n_shifts).len() && shift_list(n_shifts, n, n_shifts)[i]
                    == #[trigger] spin_shift(k, n, n_shifts),
{
    lemma_shift_list_ends(n_shifts, n, n_shifts);
    lemma_shift_list_sorted(n_shifts, n, n_shifts);
    lemma_shift_list_values(n_shifts, n, n_shifts);
}

/// The distinct shift amounts `floor(k n / n_shifts)`, `k < n_shifts`, in
/// increasing order: the rotations that cycle spinning averages over.
pub fn cycle_shifts(n: usize, n_shifts: usize) -> (shifts: Vec<usize>)
    requires
        n_shifts >= 1,
    ensures
        shifts.len() == shift_list(n_shifts as nat, n as nat, n_shifts as nat).len(),
        forall|i: int|
            0 <= i < shifts.len() ==> #[trigger] shifts@[i] as nat == shift_list(
                n_shifts as nat,
                n as nat,
                n_shifts as nat,
            )[i],
        shifts.len() >= 1,
        shifts@[0] == 0,
        forall|i: int, j: int| 0 <= i < j < shifts.len() ==> shifts@[i] < shifts@[j],
        forall|i: int| 0 <= i < shifts.len() ==> shifts@[i] < n || (n == 0 && shifts@[i] == 0),
{
    let mut shifts: Vec<usize> = Vec::new();
    let mut k: usize = 0;
    while k < n_shifts
        invariant
            n_shifts >= 1,
            k <= n_shifts,
            shifts.len() == shift_list(k as nat, n as nat, n_shifts as nat).len(),
            forall|i: int|
                0 <= i < shifts.len() ==> shifts@[i] as nat == #[trigger] shift_list(
                    k as nat,
                    n as nat,
                    n_shifts as nat,
                )[i],
        decreases n_shifts - k,
    {
        proof {
            assert((k as int) * (n as int) <= 0xffff_ffff_ffff_ffff_ffff_ffff_ffff_ffffint)
                by (nonlinear_arith)
                requires
                    k <= 0xffff_ffff_ffff_ffffint,
                    n <= 0xffff_ffff_ffff_ffffint,
            ;
        }
        let prod: u128 = k as u128 * n as u128;
        let v128: u128 = prod / (n_shifts as u128);
        proof {
            assert(v128 == spin_shift(k as nat, n as nat, n_shifts as nat)) by {
                reveal(spin_shift);
            }
            lemma_spin_shift(k as nat, n as nat, n_shifts as nat);
        }
        let v: usize = v128 as usize;
        let ghost prev = shift_list(k as nat, n as nat, n_shifts as nat);
        if shifts.len() == 0 || shifts[shifts.len() - 1] != v {
            shifts.push(v);
            proof {
                assert(shift_list((k + 1) as nat, n as nat, n_shifts as nat) == prev.push(
                    v as nat,
                ));
            }
        } else {
            proof {
                assert(shift_list((k + 1) as nat, n as nat, n_shifts as nat) == prev);
            }
        }
        k = k + 1;
    }
    proof {
        let l = shift_list(n_shifts as nat, n as nat, n_shifts as nat);
        lemma_shift_list_ends(n_shifts as nat, n as nat, n_shifts as nat);
        lemma_shift_list_sorted(n_shifts as nat, n as nat, n_shifts as nat);
        assert(shifts@[0] as nat == l[0]);
        assert forall|i: int, j: int| 0 <= i < j < shifts.len() implies shifts@[i] < shifts@[j] by {
            assert(shifts@[i] as nat == l[i]);
            assert(shifts@[j] as nat == l[j]);
        }
        assert forall|i: int| 0 <= i < shifts.len() implies shifts@[i] < n || (n == 0
            && shifts@[i] == 0) by {
            assert(shifts@[i] as nat == l[i]);
        }
    }
    shifts
}

/// `x` rotated left by `s`: item `i` is `x[(i + s) mod n]`.
pub open spec fn rotated_left<T>(x: Seq<T>, s: int) -> Seq<T> {
    Seq::new(x.len(), |i: int| x[(i + s) % (x.len() as int)])
}

/// `signal` rotated left by `s`: `out[i] = signal[(i + s) mod n]`.
pub fn rotate_left<T: Copy>(signal: &[T], s: usize) -> (out: Vec<T>)
    requires
        s <= signal.len(),
    ensures
        out@ == rotated_left(signal@, s as int),
{
    let n = signal.len();
    let mut out: Vec<T> = Vec::new();
    let mut i: usize = 0;
    while i < n
        invariant
            n == signal.len(),
            s <= n,
            i <= n,
            out.len() == i,
            forall|j: int| 0 <= j < i ==> out@[j] == signal@[(j + s) % (n as int)],
        decreases n - i,
    {
        let idx: usize = if s < n - i { i + s } else { i - (n - s) };
        proof {
            if i + s < n {
                lemma_fundamental_div_mod_converse((i + s) as int, n as int, 0, (i + s) as int);
            } else {
                lemma_fundamental_div_mod_converse((i + s) as int, n as int, 1, (i + s - n) as int);
            }
        }
        out.push(signal[idx]);
        i = i + 1;
    }
    assert(out@ =~= rotated_left(signal@, s as int));
    out
}

/// Reading a left rotation by `s` at `(j - s) mod n` gives back sample `j`:
/// rotating right undoes rotating left, which is how cycle spinning realigns
/// each shifted result before averaging.
pub proof fn law_rotation_undone<T>(x: Seq<T>, s: int)
    requires
        0 <= s <= x.len(),
        x.len() >= 1,
    ensures
        forall|j: int|
            0 <= j < x.len() ==> #[trigger] rotated_left(x, s)[(j + x.len() - s) % (
            x.len() as int)] == x[j],
{
    let n = x.len() as int;
    assert forall|j: int| 0 <= j < n implies #[trigger] rotated_left(x, s)[(j + n - s) % n]
        == x[j] by {
        let i = (j + n - s) % n;
        vstd::arithmetic::div_mod::lemma_mod_pos_bound(j + n - s, n);
        vstd::arithmetic::div_mod::lemma_fundamental_div_mod(j + n - s, n);
        let q = (j + n - s) / n;
        // i + s == j + n - q n, so (i + s) mod n == j
        assert(i + s == (1 - q) * n + j) by (nonlinear_arith)
            requires
                j + n - s == n * q + i,
        ;
        lemma_fundamental_div_mod_converse(i + s, n, 1 - q, j);
    }
}

} // verus!
