//! In-place radix-2 Cooley-Tukey FFT over any sample type that provides the
//! complex arithmetic of [`FftScalar`].
//!
//! The transforms are stated over the radix-2 decimation-in-time recursion
//! [`dit`]: the FFT of `x` is the combination of the FFTs of its even- and
//! odd-indexed samples. The in-place iterative algorithm (bit-reversal
//! permutation, then butterfly stages of doubling width) is proved to compute
//! exactly that recursion, operation for operation.

use vstd::prelude::*;
use vstd::arithmetic::div_mod::{
    lemma_fundamental_div_mod_converse,
    lemma_mod_breakdown,
    lemma_div_denominator,
    lemma_small_mod,
};
use crate::dyadic::{
    two_pow,
    is_pow2,
    lemma_two_pow_pos,
    lemma_two_pow_monotone,
    lemma_two_pow_add,
    lemma_two_pow_injective,
};

verus! {

/// The complex arithmetic the transform needs from its sample type.
///
/// Each operation is a function of its arguments only: the spec functions name
/// what the operation returns, and the transforms below are stated over them.
pub trait FftScalar: Copy + Sized {
    /// The real scalar type a real-valued input is made of.
    type Real: Copy;

    /// `self + other`.
    spec fn plus_spec(self, other: Self) -> Self;

    /// `self - other`.
    spec fn minus_spec(self, other: Self) -> Self;

    /// `self * other`.
    spec fn times_spec(self, other: Self) -> Self;

    /// The complex conjugate of `self`.
    spec fn conj_spec(self) -> Self;

    /// `self * (1 / n)`.
    spec fn scale_inv_spec(self, n: usize) -> Self;

    /// The multiplicative unit `1 + 0i`.
    spec fn one_spec() -> Self;

    /// The principal twiddle factor `exp(-2 pi i / len)`.
    spec fn root_spec(len: usize) -> Self;

    /// The twiddle factor `exp(-2 pi i / len)` computed by the portable
    /// (platform-independent) sine/cosine.
    spec fn root_portable_spec(len: usize) -> Self;

    /// The real number `x` as a complex number `x + 0i`.
    spec fn from_real_spec(x: Self::Real) -> Self;

    fn plus(self, other: Self) -> (r: Self)
        ensures
            r == self.plus_spec(other),
    ;

    fn minus(self, other: Self) -> (r: Self)
        ensures
            r == self.minus_spec(other),
    ;

    fn times(self, other: Self) -> (r: Self)
        ensures
            r == self.times_spec(other),
    ;

    fn conj(self) -> (r: Self)
        ensures
            r == self.conj_spec(),
    ;

    fn scale_inv(self, n: usize) -> (r: Self)
        ensures
            r == self.scale_inv_spec(n),
    ;

    fn one() -> (r: Self)
        ensures
            r == Self::one_spec(),
    ;

    fn root(len: usize) -> (r: Self)
        ensures
            r == Self::root_spec(len),
    ;

    fn root_portable(len: usize) -> (r: Self)
        ensures
            r == Self::root_portable_spec(len),
    ;

    fn from_real(x: Self::Real) -> (r: Self)
        ensures
            r == Self::from_real_spec(x),
    ;
}

// ---------------------------------------------------------------------------
// Bit reversal.
// ---------------------------------------------------------------------------

/// Bit reversal of the low `bits` bits of `x`, accumulated onto `acc`.
pub open spec fn rev_acc(x: nat, bits: nat, acc: nat) -> nat
    decreases bits,
{
    if bits == 0 {
        acc
    } else {
        rev_acc(x / 2, (bits - 1) as nat, 2 * acc + x % 2)
    }
}

/// The low `bits` bits of `x`, in reverse order.
pub open spec fn bit_rev(x: nat, bits: nat) -> nat {
    rev_acc(x, bits, 0)
}

/// The exponent of a power of two.
pub open spec fn exact_log2(n: nat) -> nat {
    choose|k: nat| two_pow(k) == n
}

pub proof fn lemma_exact_log2(n: nat)
    requires
        is_pow2(n),
    ensures
        two_pow(exact_log2(n)) == n,
{
}

proof fn lemma_rev_acc(x: nat, bits: nat, acc: nat)
    ensures
        rev_acc(x, bits, acc) == acc * two_pow(bits) + rev_acc(x, bits, 0),
    decreases bits,
{
    if bits > 0 {
        let b1 = (bits - 1) as nat;
        lemma_rev_acc(x / 2, b1, 2 * acc + x % 2);
        lemma_rev_acc(x / 2, b1, x % 2);
        let p = two_pow(b1);
        assert(rev_acc(x, bits, acc) == rev_acc(x / 2, b1, 2 * acc + x % 2));
        assert(rev_acc(x, bits, 0) == rev_acc(x / 2, b1, x % 2));
        assert(two_pow(bits) == 2 * p);
        assert((2 * acc + x % 2) * p == acc * (2 * p) + (x % 2) * p) by (nonlinear_arith);
    } else {
        assert(two_pow(0) == 1);
        assert(acc * 1 == acc);
    }
}

/// Peeling the lowest bit: it becomes the highest bit of the reversal.
proof fn lemma_rev_low(x: nat, b: nat)
    ensures
        bit_rev(x, b + 1) == (x % 2) * two_pow(b) + bit_rev(x / 2, b),
{
    assert(bit_rev(x, b + 1) == rev_acc(x / 2, b, x % 2));
    lemma_rev_acc(x / 2, b, x % 2);
}

/// The reversal of `b` bits is a `b`-bit number.
pub proof fn lemma_rev_bound(x: nat, b: nat)
    ensures
        bit_rev(x, b) < two_pow(b),
    decreases b,
{
    if b > 0 {
        let b1 = (b - 1) as nat;
        lemma_rev_bound(x / 2, b1);
        lemma_rev_low(x, b1);
        assert((x % 2) * two_pow(b1) <= two_pow(b1)) by (nonlinear_arith)
            requires
                x % 2 <= 1,
        ;
    }
}

/// Reversing `b + 1` bits of `2c` (resp. `2c + 1`) is reversing `b` bits of
/// `c` (plus the top bit).
pub proof fn lemma_rev_split(c: nat, b: nat)
    ensures
        bit_rev(2 * c, b + 1) == bit_rev(c, b),
        bit_rev(2 * c + 1, b + 1) == two_pow(b) + bit_rev(c, b),
{
    lemma_rev_low(2 * c, b);
    lemma_rev_low(2 * c + 1, b);
    assert((2 * c) / 2 == c);
    assert((2 * c) % 2 == 0);
    assert((2 * c + 1) / 2 == c);
    assert((2 * c + 1) % 2 == 1);
    assert(1 * two_pow(b) == two_pow(b));
    assert(0 * two_pow(b) == 0);
}

/// Peeling the highest bit: it becomes the lowest bit of the reversal.
proof fn lemma_rev_high(x: nat, b: nat)
    requires
        x < two_pow(b + 1),
    ensures
        bit_rev(x, b + 1) == 2 * bit_rev(x % two_pow(b), b) + x / two_pow(b),
    decreases b,
{
    lemma_two_pow_pos(b);
    if b == 0 {
        lemma_rev_low(x, 0);
        assert(x % 1 == 0);
        assert(x / 1 == x);
    } else {
        let b1 = (b - 1) as nat;
        let p = two_pow(b1);
        lemma_two_pow_pos(b1);
        assert(two_pow(b) == 2 * p);
        assert(two_pow(b + 1) == 2 * two_pow(b));
        lemma_rev_low(x, b);
        // x / 2 < 2^b
        assert(x / 2 < two_pow(b));
        lemma_rev_high(x / 2, b1);
        // bit_rev(x/2, b) == 2 * bit_rev((x/2) % p, b1) + (x/2) / p
        let y = x % two_pow(b);
        lemma_mod_breakdown(x as int, 2, p as int);
        // y == 2 * ((x / 2) % p) + x % 2
        let q = (x / 2) % p;
        vstd::arithmetic::div_mod::lemma_mod_pos_bound((x / 2) as int, p as int);
        lemma_fundamental_div_mod_converse(y as int, 2, q as int, (x % 2) as int);
        lemma_rev_low(y, b1);
        lemma_div_denominator(x as int, 2, p as int);
        assert((x % 2) * two_pow(b) == 2 * ((x % 2) * p)) by (nonlinear_arith)
            requires
                two_pow(b) == 2 * p,
        ;
    }
}

/// Bit reversal is an involution on `b`-bit numbers.
pub proof fn lemma_rev_involution(x: nat, b: nat)
    requires
        x < two_pow(b),
    ensures
        bit_rev(bit_rev(x, b), b) == x,
    decreases b,
{
    if b == 0 {
        assert(x == 0);
    } else {
        let b1 = (b - 1) as nat;
        let p = two_pow(b1);
        assert(two_pow(b) == 2 * p);
        lemma_rev_low(x, b1);
        let r = bit_rev(x / 2, b1);
        lemma_rev_bound(x / 2, b1);
        let y = bit_rev(x, b);
        lemma_rev_bound(x, b);
        lemma_rev_high(y, b1);
        // y == (x % 2) * p + r with r < p
        lemma_fundamental_div_mod_converse(y as int, p as int, (x % 2) as int, r as int);
        lemma_rev_involution(x / 2, b1);
    }
}

/// `x` with its first `n` items (`n` a power of two) in bit-reversed order.
pub open spec fn bit_reversed<T>(x: Seq<T>, n: nat) -> Seq<T> {
    Seq::new(
        x.len(),
        |i: int|
            if i < n {
                x[bit_rev(i as nat, exact_log2(n)) as int]
            } else {
                x[i]
            },
    )
}

/// Permute `buf[0..n]` into bit-reversed order: afterwards `buf[i]` holds what
/// was at `bit_rev(i)`. `n` must be a power of two.
pub fn bit_reverse<T: Copy>(buf: &mut Vec<T>, n: usize)
    requires
        is_pow2(n as nat),
        n <= old(buf).len(),
    ensures
        final(buf)@ == bit_reversed(old(buf)@, n as nat),
{
    let ghost m = exact_log2(n as nat);
    proof {
        lemma_exact_log2(n as nat);
    }
    proof {
        lemma_two_pow_pos(m);
    }
    // bits = log2(n)
    let mut bits: usize = 0;
    let mut p: usize = 1;
    while p < n
        invariant
            p == two_pow(bits as nat),
            p <= n,
            two_pow(m) == n,
            bits <= p,
        decreases n - p,
    {
        proof {
            // p < n and both powers of two: 2p <= n
            lemma_two_pow_pos(bits as nat);
            if bits as nat >= m {
                lemma_two_pow_monotone(m, bits as nat);
            }
            assert(bits < m);
            lemma_two_pow_monotone((bits + 1) as nat, m);
        }
        p = 2 * p;
        bits = bits + 1;
    }
    proof {
        lemma_two_pow_injective(bits as nat, m);
    }
    let ghost old_buf = buf@;
    let mut i: usize = 0;
    while i < n
        invariant
            two_pow(m) == n,
            bits == m,
            bits <= n,
            n <= old_buf.len(),
            buf.len() == old_buf.len(),
            i <= n,
            forall|k: int|
                0 <= k < n ==> buf@[k] == old_buf[
                    if k < i || bit_rev(k as nat, m) < i {
                        bit_rev(k as nat, m) as int
                    } else {
                        k
                    }
                ],
            forall|k: int| n <= k < old_buf.len() ==> buf@[k] == old_buf[k],
        decreases n - i,
    {
        // j = bit_rev(i, bits)
        let mut x: usize = i;
        let mut j: usize = 0;
        let mut t: usize = 0;
        while t < bits
            invariant
                t <= bits,
                rev_acc(x as nat, (bits - t) as nat, j as nat) == bit_rev(i as nat, bits as nat),
                j < two_pow(t as nat),
                two_pow(bits as nat) == n,
                bits <= n,
            decreases bits - t,
        {
            proof {
                lemma_two_pow_monotone((t + 1) as nat, bits as nat);
            }
            j = 2 * j + x % 2;
            x = x / 2;
            t = t + 1;
        }
        proof {
            lemma_rev_bound(i as nat, m);
            lemma_rev_involution(i as nat, m);
        }
        if i < j {
            let a = buf[i];
            let b = buf[j];
            buf.set(i, b);
            buf.set(j, a);
        }
        proof {
            assert forall|k: int| 0 <= k < n implies buf@[k] == old_buf[
                if k < i + 1 || bit_rev(k as nat, m) < i + 1 {
                    bit_rev(k as nat, m) as int
                } else {
                    k
                }
            ] by {
                lemma_rev_bound(k as nat, m);
                lemma_rev_involution(k as nat, m);
            }
        }
        i = i + 1;
    }
    proof {
        assert forall|k: int| 0 <= k < n implies #[trigger] bit_rev(k as nat, m) < n by {
            lemma_rev_bound(k as nat, m);
        }
        assert(buf@ =~= bit_reversed(old_buf, n as nat));
    }
}

/// The bit-reversal permutation undoes itself: permuting twice gives back the
/// input sequence.
pub proof fn law_bit_reverse_involution<T>(x: Seq<T>, n: nat)
    requires
        is_pow2(n),
        n <= x.len(),
    ensures
        bit_reversed(bit_reversed(x, n), n) == x,
{
    let m = exact_log2(n);
    lemma_exact_log2(n);
    let y = bit_reversed(x, n);
    assert forall|i: int| 0 <= i < x.len() implies #[trigger] bit_reversed(y, n)[i] == x[i] by {
        if i < n {
            lemma_rev_bound(i as nat, m);
            lemma_rev_involution(i as nat, m);
        }
    }
    assert(bit_reversed(y, n) =~= x);
}


// ---------------------------------------------------------------------------
// The radix-2 recursion.
// ---------------------------------------------------------------------------

/// The twiddle factor of a butterfly stage of width `len`.
pub open spec fn twiddle<C: FftScalar>(len: nat, portable: bool) -> C {
    if portable {
        C::root_portable_spec(len as usize)
    } else {
        C::root_spec(len as usize)
    }
}

/// `w^k`, accumulated as `((1 * w) * w) ...` in the order the butterflies do.
pub open spec fn wpow<C: FftScalar>(w: C, k: nat) -> C
    decreases k,
{
    if k == 0 {
        C::one_spec()
    } else {
        wpow(w, (k - 1) as nat).times_spec(w)
    }
}

/// The butterfly combination of the transforms `e` (even samples) and `o` (odd
/// samples): `X[k] = E[k] + w^k O[k]`, `X[k + h] = E[k] - w^k O[k]`.
pub open spec fn combine<C: FftScalar>(e: Seq<C>, o: Seq<C>, w: C) -> Seq<C> {
    let h = e.len();
    Seq::new(
        2 * h,
        |k: int|
            if k < h {
                e[k].plus_spec(wpow(w, k as nat).times_spec(o[k]))
            } else {
                e[k - h].minus_spec(wpow(w, (k - h) as nat).times_spec(o[k - h]))
            },
    )
}

/// The radix-2 decimation-in-time transform of the `len` samples
/// `x[off + j * 2^k]`, `j < len`.
pub open spec fn dit<C: FftScalar>(x: Seq<C>, k: nat, off: int, len: nat, portable: bool) -> Seq<C>
    decreases len,
{
    if len <= 1 {
        Seq::new(len, |j: int| x[off])
    } else {
        combine(
            dit(x, k + 1, off, len / 2, portable),
            dit(x, k + 1, off + two_pow(k), len / 2, portable),
            twiddle::<C>(len, portable),
        )
    }
}

/// The forward transform of `x` (twiddles from the standard or the portable
/// sine/cosine): the radix-2 recursion. Over exact arithmetic it is the
/// discrete Fourier transform (`dft::law_fft_is_dft`).
pub open spec fn fft_spec<C: FftScalar>(x: Seq<C>, portable: bool) -> Seq<C> {
    dit(x, 0, 0, x.len(), portable)
}

/// The inverse transform: conjugate, forward transform, conjugate, divide by
/// `n`; the identity on fewer than two samples.
pub open spec fn ifft_spec<C: FftScalar>(x: Seq<C>, portable: bool) -> Seq<C> {
    if x.len() <= 1 {
        x
    } else {
        let y = fft_spec(x.map_values(|c: C| c.conj_spec()), portable);
        Seq::new(x.len(), |k: int| y[k].conj_spec().scale_inv_spec(x.len() as usize))
    }
}

/// A transform of a power-of-two number of samples has that many samples.
pub proof fn lemma_dit_len<C: FftScalar>(x: Seq<C>, k: nat, off: int, j: nat, portable: bool)
    ensures
        dit(x, k, off, two_pow(j), portable).len() == two_pow(j),
    decreases j,
{
    if j > 0 {
        let j1 = (j - 1) as nat;
        lemma_two_pow_pos(j1);
        assert(two_pow(j) / 2 == two_pow(j1));
        lemma_dit_len(x, k + 1, off, j1, portable);
        lemma_dit_len(x, k + 1, off + two_pow(k), j1, portable);
    }
}

/// What position `p` holds once the butterflies of width `2^s` are done: the
/// transform of the block of width `2^s` that `p` lies in, whose samples are
/// those with offset `bit_rev(block)` and stride `2^(m - s)`.
pub open spec fn stage_val<C: FftScalar>(x: Seq<C>, m: nat, s: nat, p: int, portable: bool) -> C {
    let l = two_pow(s) as int;
    dit(x, (m - s) as nat, bit_rev((p / l) as nat, (m - s) as nat) as int, two_pow(s), portable)[p
        % l]
}

/// One butterfly of the stage of width `2^(s+1)` turns the values of stage `s`
/// at `c * len + i` and `c * len + half + i` into those of stage `s + 1`.
proof fn lemma_butterfly<C: FftScalar>(
    x: Seq<C>,
    m: nat,
    s: nat,
    c: nat,
    i: nat,
    portable: bool,
)
    requires
        s < m,
        i < two_pow(s),
        (c + 1) * two_pow(s + 1) <= two_pow(m),
    ensures
        ({
            let half = two_pow(s) as int;
            let base = (c * two_pow(s + 1)) as int;
            let i = i as int;
            let w = wpow(twiddle::<C>(two_pow(s + 1), portable), i as nat);
            let even = stage_val(x, m, s, base + i, portable);
            let odd = stage_val(x, m, s, base + half + i, portable);
            &&& stage_val(x, m, s + 1, base + i, portable) == even.plus_spec(w.times_spec(odd))
            &&& stage_val(x, m, s + 1, base + half + i, portable) == even.minus_spec(
                w.times_spec(odd),
            )
        }),
{
    let half = two_pow(s);
    let len = two_pow(s + 1);
    let base = c * len;
    let k = (m - s - 1) as nat;
    lemma_two_pow_pos(s);
    assert(len == 2 * half);
    assert(base == (2 * c) * half) by (nonlinear_arith)
        requires
            base == c * len,
            len == 2 * half,
    ;
    // positions in the new stage
    lemma_fundamental_div_mod_converse((base + i) as int, len as int, c as int, i as int);
    lemma_fundamental_div_mod_converse(
        (base + half + i) as int,
        len as int,
        c as int,
        (half + i) as int,
    );
    // positions in the old stage
    lemma_fundamental_div_mod_converse(
        (base + i) as int,
        half as int,
        (2 * c) as int,
        i as int,
    );
    assert((2 * c + 1) * half == base + half) by (nonlinear_arith)
        requires
            base == (2 * c) * half,
    ;
    lemma_fundamental_div_mod_converse(
        (base + half + i) as int,
        half as int,
        (2 * c + 1) as int,
        i as int,
    );
    lemma_rev_split(c, k);
    assert((m - s) as nat == k + 1);
    assert((m - (s + 1)) as nat == k);
    let o = bit_rev(c, k) as int;
    assert(len / 2 == half);
    lemma_dit_len(x, k + 1, o, s, portable);
    lemma_dit_len(x, k + 1, o + two_pow(k), s, portable);
    let e = dit(x, k + 1, o, half, portable);
    let od = dit(x, k + 1, o + two_pow(k), half, portable);
    assert(dit(x, k, o, len, portable) == combine(e, od, twiddle::<C>(len, portable)));
    assert(bit_rev((2 * c) as nat, k + 1) as int == o);
    assert(bit_rev((2 * c + 1) as nat, k + 1) as int == o + two_pow(k));
}

/// The butterfly stages after the bit-reversal permutation.
fn fft_stages<C: FftScalar>(buf: &mut Vec<C>, portable: bool, Ghost(x): Ghost<Seq<C>>, Ghost(m): Ghost<nat>)
    requires
        two_pow(m) == old(buf).len(),
        forall|p: int|
            0 <= p < old(buf).len() ==> old(buf)@[p] == stage_val(x, m, 0, p, portable),
    ensures
        final(buf).len() == old(buf).len(),
        forall|p: int|
            0 <= p < final(buf).len() ==> final(buf)@[p] == stage_val(x, m, m, p, portable),
{
    let n = buf.len();
    let mut half: usize = 1;
    let ghost mut s: nat = 0;
    while half < n
        invariant
            n == buf.len(),
            two_pow(m) == n,
            half == two_pow(s),
            s <= m,
            forall|p: int| 0 <= p < n ==> buf@[p] == stage_val(x, m, s, p, portable),
        decreases n - half,
    {
        proof {
            if s >= m {
                lemma_two_pow_monotone(m, s);
            }
            lemma_two_pow_monotone(s + 1, m);
            lemma_two_pow_add(s + 1, (m - s - 1) as nat);
            lemma_two_pow_pos(s);
        }
        let len: usize = 2 * half;
        let ghost q: nat = two_pow((m - s - 1) as nat);
        assert(n == len * q);
        let wlen = if portable {
            C::root_portable(len)
        } else {
            C::root(len)
        };
        assert(wlen == twiddle::<C>(len as nat, portable));
        let mut start: usize = 0;
        let ghost mut c: nat = 0;
        while start < n
            invariant
                n == buf.len(),
                two_pow(m) == n,
                half == two_pow(s),
                len == two_pow(s + 1),
                len == 2 * half,
                half >= 1,
                s < m,
                n == len * q,
                start == c * len,
                start <= n,
                wlen == twiddle::<C>(len as nat, portable),
                forall|p: int|
                    0 <= p < n ==> buf@[p] == if p < start {
                        stage_val(x, m, s + 1, p, portable)
                    } else {
                        stage_val(x, m, s, p, portable)
                    },
            decreases n - start,
        {
            proof {
                assert(c < q) by (nonlinear_arith)
                    requires
                        c * len < len * q,
                        len > 0,
                ;
                assert((c + 1) * len <= len * q) by (nonlinear_arith)
                    requires
                        c + 1 <= q,
                        len > 0,
                ;
                assert(start + len <= n) by (nonlinear_arith)
                    requires
                        start == c * len,
                        (c + 1) * len <= len * q,
                        n == len * q,
                ;
            }
            let mut w = C::one();
            let mut i: usize = 0;
            while i < half
                invariant
                    n == buf.len(),
                    two_pow(m) == n,
                    half == two_pow(s),
                    len == two_pow(s + 1),
                    len == 2 * half,
                    s < m,
                    start == c * len,
                    (c + 1) * len <= n,
                    start + len <= n,
                    half >= 1,
                    i <= half,
                    wlen == twiddle::<C>(len as nat, portable),
                    w == wpow(wlen, i as nat),
                    forall|p: int|
                        0 <= p < n ==> buf@[p] == if p < start || (start <= p < start + i) || (
                        start + half <= p < start + half + i) {
                            stage_val(x, m, s + 1, p, portable)
                        } else {
                            stage_val(x, m, s, p, portable)
                        },
                decreases half - i,
            {
                let even = buf[start + i];
                let odd = buf[start + i + half];
                let t = w.times(odd);
                let hi = even.plus(t);
                let lo = even.minus(t);
                proof {
                    lemma_butterfly(x, m, s, c, i as nat, portable);
                }
                buf.set(start + i, hi);
                buf.set(start + i + half, lo);
                w = w.times(wlen);
                i = i + 1;
            }
            proof {
                assert(start + len == (c + 1) * len) by (nonlinear_arith)
                    requires
                        start == c * len,
                ;
            }
            start = start + len;
            proof {
                c = c + 1;
            }
        }
        half = len;
        proof {
            s = s + 1;
        }
    }
    proof {
        if s < m {
            lemma_two_pow_monotone(s + 1, m);
            lemma_two_pow_monotone(s, s + 1);
        }
    }
}

/// The forward transform, with the standard or the portable twiddles.
fn fft_core<C: FftScalar>(buf: &mut Vec<C>, portable: bool)
    requires
        is_pow2(old(buf).len() as nat),
    ensures
        final(buf)@ == fft_spec(old(buf)@, portable),
{
    let n = buf.len();
    let ghost x = buf@;
    if n <= 1 {
        proof {
            lemma_exact_log2(n as nat);
            lemma_two_pow_pos(exact_log2(n as nat));
            assert(fft_spec(x, portable) =~= x);
        }
        return;
    }
    let ghost m = exact_log2(n as nat);
    proof {
        lemma_exact_log2(n as nat);
    }
    bit_reverse(buf, n);
    proof {
        assert forall|p: int| 0 <= p < n implies buf@[p] == stage_val(x, m, 0, p, portable) by {
            assert(buf@[p] == bit_reversed(x, n as nat)[p]);
            assert(two_pow(0) == 1);
            assert(p / 1 == p);
            assert(p % 1 == 0);
        }
    }
    fft_stages(buf, portable, Ghost(x), Ghost(m));
    proof {
        lemma_dit_len(x, 0, 0, m, portable);
        assert forall|p: int| 0 <= p < n implies buf@[p] == fft_spec(x, portable)[p] by {
            lemma_small_mod(p as nat, n as nat);
            assert(p / (n as int) == 0) by {
                lemma_fundamental_div_mod_converse(p, n as int, 0, p);
            }
            assert(bit_rev(0, 0) == 0);
        }
        assert(buf@ =~= fft_spec(x, portable));
    }
}


/// Conjugate every sample.
fn conj_all<C: FftScalar>(buf: &mut Vec<C>)
    ensures
        final(buf)@ == old(buf)@.map_values(|c: C| c.conj_spec()),
{
    let ghost x = buf@;
    let n = buf.len();
    let mut i: usize = 0;
    while i < n
        invariant
            n == buf.len(),
            n == x.len(),
            i <= n,
            forall|k: int| 0 <= k < i ==> buf@[k] == x[k].conj_spec(),
            forall|k: int| i <= k < n ==> buf@[k] == x[k],
        decreases n - i,
    {
        let v = buf[i].conj();
        buf.set(i, v);
        i = i + 1;
    }
    assert(buf@ =~= x.map_values(|c: C| c.conj_spec()));
}

/// Conjugate every sample and divide it by `n`.
fn conj_scale_all<C: FftScalar>(buf: &mut Vec<C>, n: usize)
    ensures
        final(buf)@ == Seq::new(
            old(buf)@.len(),
            |k: int| old(buf)@[k].conj_spec().scale_inv_spec(n),
        ),
{
    let ghost x = buf@;
    let len = buf.len();
    let mut i: usize = 0;
    while i < len
        invariant
            len == buf.len(),
            len == x.len(),
            i <= len,
            forall|k: int| 0 <= k < i ==> buf@[k] == x[k].conj_spec().scale_inv_spec(n),
            forall|k: int| i <= k < len ==> buf@[k] == x[k],
        decreases len - i,
    {
        let v = buf[i].conj().scale_inv(n);
        buf.set(i, v);
        i = i + 1;
    }
    assert(buf@ =~= Seq::new(x.len(), |k: int| x[k].conj_spec().scale_inv_spec(n)));
}

fn ifft_core<C: FftScalar>(buf: &mut Vec<C>, portable: bool)
    requires
        is_pow2(old(buf).len() as nat),
    ensures
        final(buf)@ == ifft_spec(old(buf)@, portable),
{
    let n = buf.len();
    if n <= 1 {
        return;
    }
    let ghost x = buf@;
    conj_all(buf);
    let ghost cx = buf@;
    fft_core(buf, portable);
    proof {
        lemma_exact_log2(n as nat);
        lemma_dit_len(cx, 0, 0, exact_log2(n as nat), portable);
    }
    conj_scale_all(buf, n);
    proof {
        assert(buf@ =~= ifft_spec(x, portable));
    }
}

/// In-place radix-2 Cooley-Tukey forward FFT. The length must be a power of
/// two; the output is in standard (not bit-reversed) order.
pub fn fft<C: FftScalar>(buf: &mut Vec<C>)
    requires
        is_pow2(old(buf).len() as nat),
    ensures
        final(buf)@ == fft_spec(old(buf)@, false),
{
    fft_core(buf, false);
}

/// In-place radix-2 Cooley-Tukey inverse FFT: conjugate, forward FFT,
/// conjugate, divide by `n`. The length must be a power of two.
pub fn ifft<C: FftScalar>(buf: &mut Vec<C>)
    requires
        is_pow2(old(buf).len() as nat),
    ensures
        final(buf)@ == ifft_spec(old(buf)@, false),
{
    ifft_core(buf, false);
}

/// The forward FFT of [`fft`] with its twiddle factors taken from the
/// portable sine/cosine, so that the spectrum is bit-identical across
/// platforms.
pub fn fft_portable<C: FftScalar>(buf: &mut Vec<C>)
    requires
        is_pow2(old(buf).len() as nat),
    ensures
        final(buf)@ == fft_spec(old(buf)@, true),
{
    fft_core(buf, true);
}

/// The inverse of [`fft_portable`]: conjugate, portable FFT, conjugate, divide
/// by `n`.
pub fn ifft_portable<C: FftScalar>(buf: &mut Vec<C>)
    requires
        is_pow2(old(buf).len() as nat),
    ensures
        final(buf)@ == ifft_spec(old(buf)@, true),
{
    ifft_core(buf, true);
}

/// Forward FFT of a real-valued signal: the positive-frequency half-spectrum
/// (bins `0 ..= n/2`, DC to Nyquist). The length must be a power of two.
pub fn fft_real<C: FftScalar>(signal: &[C::Real]) -> (out: Vec<C>)
    requires
        is_pow2(signal.len() as nat),
    ensures
        out@ == fft_spec(
            signal@.map_values(|r: C::Real| C::from_real_spec(r)),
            false,
        ).take(signal.len() / 2 + 1),
{
    let n = signal.len();
    let mut buf: Vec<C> = Vec::new();
    let mut i: usize = 0;
    while i < n
        invariant
            n == signal.len(),
            i <= n,
            buf.len() == i,
            forall|k: int| 0 <= k < i ==> buf@[k] == C::from_real_spec(signal@[k]),
        decreases n - i,
    {
        buf.push(C::from_real(signal[i]));
        i = i + 1;
    }
    let ghost x = buf@;
    assert(x =~= signal@.map_values(|r: C::Real| C::from_real_spec(r)));
    fft(&mut buf);
    proof {
        lemma_exact_log2(n as nat);
        lemma_dit_len(x, 0, 0, exact_log2(n as nat), false);
        lemma_two_pow_pos(exact_log2(n as nat));
        assert(n / 2 + 1 <= n);
    }
    buf.truncate(n / 2 + 1);
    proof {
        assert(buf@ =~= fft_spec(x, false).take(n / 2 + 1));
    }
    buf
}


// ---------------------------------------------------------------------------
// Laws.
// ---------------------------------------------------------------------------

proof fn lemma_dit_portable_agrees<C: FftScalar>(x: Seq<C>, k: nat, off: int, len: nat)
    requires
        forall|l: usize| #[trigger] C::root_portable_spec(l) == C::root_spec(l),
    ensures
        dit(x, k, off, len, true) == dit(x, k, off, len, false),
    decreases len,
{
    if len > 1 {
        lemma_dit_portable_agrees(x, k + 1, off, len / 2);
        lemma_dit_portable_agrees(x, k + 1, off + two_pow(k), len / 2);
        assert(twiddle::<C>(len, true) == twiddle::<C>(len, false));
    }
}

/// The portable transforms differ from the standard ones only in where their
/// twiddle factors come from: with the same twiddles they compute the same
/// spectrum, operation for operation.
pub proof fn law_portable_matches_standard<C: FftScalar>(x: Seq<C>)
    requires
        forall|l: usize| #[trigger] C::root_portable_spec(l) == C::root_spec(l),
    ensures
        fft_spec(x, true) == fft_spec(x, false),
        ifft_spec(x, true) == ifft_spec(x, false),
{
    lemma_dit_portable_agrees(x, 0, 0, x.len());
    let cx = x.map_values(|c: C| c.conj_spec());
    lemma_dit_portable_agrees(cx, 0, 0, cx.len());
}

/// A single sample is its own transform, forward and inverse.
pub proof fn law_single_sample_is_fixed<C: FftScalar>(x: Seq<C>, portable: bool)
    requires
        x.len() == 1,
    ensures
        fft_spec(x, portable) == x,
        ifft_spec(x, portable) == x,
{
    assert(fft_spec(x, portable) =~= x);
}

/// The transform keeps the number of samples.
pub proof fn law_fft_keeps_length<C: FftScalar>(x: Seq<C>, portable: bool)
    requires
        is_pow2(x.len()),
    ensures
        fft_spec(x, portable).len() == x.len(),
        ifft_spec(x, portable).len() == x.len(),
{
    lemma_exact_log2(x.len());
    lemma_dit_len(x, 0, 0, exact_log2(x.len()), portable);
}

} // verus!
