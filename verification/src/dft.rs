//! What the radix-2 recursion computes when the scalar operations are exact:
//! over a commutative ring whose twiddle factors are roots of unity, the
//! transform of `fft` is the discrete Fourier transform
//! `X[k] = sum_j x[j] w^(j k)`.

use vstd::prelude::*;
use crate::dyadic::{two_pow, is_pow2, lemma_two_pow_pos};
use crate::fft::{FftScalar, wpow, dit, fft_spec, ifft_spec, lemma_dit_len, exact_log2, lemma_exact_log2};

verus! {

/// The additive unit, `1 - 1`.
pub open spec fn zero<C: FftScalar>() -> C {
    C::one_spec().minus_spec(C::one_spec())
}

/// `-1`, that is `0 - 1`.
pub open spec fn neg_one<C: FftScalar>() -> C {
    zero::<C>().minus_spec(C::one_spec())
}

/// Addition is associative.
#[verifier::opaque]
pub open spec fn plus_assoc<C: FftScalar>() -> bool {
    forall|a: C, b: C, c: C| #[trigger] a.plus_spec(b).plus_spec(c) == a.plus_spec(b.plus_spec(c))
}

/// Addition is commutative.
#[verifier::opaque]
pub open spec fn plus_comm<C: FftScalar>() -> bool {
    forall|a: C, b: C| #[trigger] a.plus_spec(b) == b.plus_spec(a)
}

/// `0` is the additive unit.
#[verifier::opaque]
pub open spec fn plus_zero<C: FftScalar>() -> bool {
    forall|a: C| #[trigger] a.plus_spec(zero::<C>()) == a
}

/// `a - b` is `a + (-1) b`.
#[verifier::opaque]
pub open spec fn minus_def<C: FftScalar>() -> bool {
    forall|a: C, b: C| #[trigger] a.minus_spec(b) == a.plus_spec(neg_one::<C>().times_spec(b))
}

/// Multiplication is associative.
#[verifier::opaque]
pub open spec fn times_assoc<C: FftScalar>() -> bool {
    forall|a: C, b: C, c: C|
        #[trigger] a.times_spec(b).times_spec(c) == a.times_spec(b.times_spec(c))
}

/// Multiplication is commutative.
#[verifier::opaque]
pub open spec fn times_comm<C: FftScalar>() -> bool {
    forall|a: C, b: C| #[trigger] a.times_spec(b) == b.times_spec(a)
}

/// `1` is the multiplicative unit.
#[verifier::opaque]
pub open spec fn times_one<C: FftScalar>() -> bool {
    forall|a: C| #[trigger] C::one_spec().times_spec(a) == a
}

/// Multiplication distributes over addition, and `a 0 = 0`.
#[verifier::opaque]
pub open spec fn distributive<C: FftScalar>() -> bool {
    &&& forall|a: C, b: C, c: C|
        #[trigger] a.times_spec(b.plus_spec(c)) == a.times_spec(b).plus_spec(a.times_spec(c))
    &&& forall|a: C| #[trigger] a.times_spec(zero::<C>()) == zero::<C>()
}

/// The scalar operations form a commutative ring: addition and
/// multiplication are associative and commutative with units `0` and `1`,
/// multiplication distributes over addition, and `a - b` is `a + (-1) b`.
pub open spec fn ring_laws<C: FftScalar>() -> bool {
    &&& plus_assoc::<C>()
    &&& plus_comm::<C>()
    &&& plus_zero::<C>()
    &&& minus_def::<C>()
    &&& times_assoc::<C>()
    &&& times_comm::<C>()
    &&& times_one::<C>()
    &&& distributive::<C>()
}

/// The twiddle factors are roots of unity as the recursion needs them: for
/// every length `l = 2 h`, `root(l)^2 = root(h)` and `root(l)^h = -1`; and
/// `(-1)^2 = 1`.
#[verifier::opaque]
pub open spec fn root_laws<C: FftScalar>() -> bool {
    &&& neg_one::<C>().times_spec(neg_one::<C>()) == C::one_spec()
    &&& forall|l: nat, h: nat|
        #![trigger C::root_spec(l as usize), C::root_spec(h as usize)]
        h >= 1 && l == 2 * h && l <= usize::MAX ==> wpow(C::root_spec(l as usize), 2)
            == C::root_spec(h as usize)
    &&& forall|l: nat, h: nat|
        #![trigger wpow(C::root_spec(l as usize), h)]
        h >= 1 && l == 2 * h && l <= usize::MAX ==> wpow(C::root_spec(l as usize), h)
            == neg_one::<C>()
}

/// `f(0) + f(1) + ... + f(t - 1)`, added left to right from `0`.
pub open spec fn sum_to<C: FftScalar>(f: spec_fn(nat) -> C, t: nat) -> C
    decreases t,
{
    if t == 0 {
        zero::<C>()
    } else {
        sum_to(f, (t - 1) as nat).plus_spec(f((t - 1) as nat))
    }
}

/// The `k`-th coefficient of the discrete Fourier transform of `x` with the
/// root `w`: `sum_j x[j] w^(j k)`.
pub open spec fn dft_coeff<C: FftScalar>(x: Seq<C>, w: C, k: nat) -> C {
    sum_to(|j: nat| x[j as int].times_spec(wpow(w, j * k)), x.len())
}

/// `a 1 = a`.
proof fn lemma_times_one<C: FftScalar>(a: C)
    requires
        ring_laws::<C>(),
    ensures
        a.times_spec(C::one_spec()) == a,
{
    reveal(times_comm);
    reveal(times_one);
    assert(a.times_spec(C::one_spec()) == C::one_spec().times_spec(a));
}

/// `w^(a + b) = w^a w^b`.
proof fn lemma_wpow_add<C: FftScalar>(w: C, a: nat, b: nat)
    requires
        ring_laws::<C>(),
    ensures
        wpow(w, a + b) == wpow(w, a).times_spec(wpow(w, b)),
    decreases b,
{
    reveal(times_assoc);
    if b == 0 {
        lemma_times_one(wpow(w, a));
        assert(a + b == a);
    } else {
        let b1 = (b - 1) as nat;
        lemma_wpow_add(w, a, b1);
        assert((a + b - 1) as nat == a + b1);
        assert(wpow(w, a + b) == wpow(w, a + b1).times_spec(w));
        assert(wpow(w, a).times_spec(wpow(w, b1)).times_spec(w) == wpow(w, a).times_spec(
            wpow(w, b1).times_spec(w),
        ));
    }
}

/// `w^(a b) = (w^a)^b`.
proof fn lemma_wpow_mul<C: FftScalar>(w: C, a: nat, b: nat)
    requires
        ring_laws::<C>(),
    ensures
        wpow(w, a * b) == wpow(wpow(w, a), b),
    decreases b,
{
    if b == 0 {
        assert(a * b == 0) by (nonlinear_arith)
            requires
                b == 0,
        ;
    } else {
        let b1 = (b - 1) as nat;
        lemma_wpow_mul(w, a, b1);
        assert(a * b == a * b1 + a) by (nonlinear_arith)
            requires
                b1 == b - 1,
        ;
        lemma_wpow_add(w, a * b1, a);
    }
}

/// `1^b = 1`.
proof fn lemma_wpow_of_one<C: FftScalar>(b: nat)
    requires
        ring_laws::<C>(),
    ensures
        wpow(C::one_spec(), b) == C::one_spec(),
    decreases b,
{
    if b > 0 {
        lemma_wpow_of_one::<C>((b - 1) as nat);
        lemma_times_one(C::one_spec());
    }
}

/// Sums of pointwise equal terms are equal.
proof fn lemma_sum_ext<C: FftScalar>(f: spec_fn(nat) -> C, g: spec_fn(nat) -> C, t: nat)
    requires
        forall|j: nat| j < t ==> #[trigger] f(j) == g(j),
    ensures
        sum_to(f, t) == sum_to(g, t),
    decreases t,
{
    if t > 0 {
        lemma_sum_ext(f, g, (t - 1) as nat);
        assert(f((t - 1) as nat) == g((t - 1) as nat));
    }
}

/// A common factor comes out of a sum: `sum_j c f(j) = c sum_j f(j)`.
proof fn lemma_sum_scale<C: FftScalar>(c: C, f: spec_fn(nat) -> C, g: spec_fn(nat) -> C, t: nat)
    requires
        ring_laws::<C>(),
        forall|j: nat| j < t ==> #[trigger] g(j) == c.times_spec(f(j)),
    ensures
        sum_to(g, t) == c.times_spec(sum_to(f, t)),
    decreases t,
{
    reveal(distributive);
    if t > 0 {
        let t1 = (t - 1) as nat;
        lemma_sum_scale(c, f, g, t1);
        assert(g(t1) == c.times_spec(f(t1)));
        assert(c.times_spec(sum_to(f, t1).plus_spec(f(t1))) == c.times_spec(sum_to(f, t1)).plus_spec(
            c.times_spec(f(t1)),
        ));
    }
}

/// `((p + q) + a) + b = (p + a) + (q + b)`.
proof fn lemma_rearrange<C: FftScalar>(p: C, q: C, a: C, b: C)
    requires
        ring_laws::<C>(),
    ensures
        p.plus_spec(q).plus_spec(a).plus_spec(b) == p.plus_spec(a).plus_spec(q.plus_spec(b)),
{
    reveal(plus_assoc);
    reveal(plus_comm);
    assert(p.plus_spec(q).plus_spec(a) == p.plus_spec(q.plus_spec(a)));
    assert(q.plus_spec(a) == a.plus_spec(q));
    assert(p.plus_spec(a.plus_spec(q)) == p.plus_spec(a).plus_spec(q));
    assert(p.plus_spec(a).plus_spec(q).plus_spec(b) == p.plus_spec(a).plus_spec(q.plus_spec(b)));
}

/// A sum over `2 h` terms splits into its even and its odd terms.
proof fn lemma_sum_split<C: FftScalar>(
    f: spec_fn(nat) -> C,
    e: spec_fn(nat) -> C,
    o: spec_fn(nat) -> C,
    h: nat,
)
    requires
        ring_laws::<C>(),
        forall|j: nat| j < h ==> #[trigger] e(j) == f(2 * j),
        forall|j: nat| j < h ==> #[trigger] o(j) == f(2 * j + 1),
    ensures
        sum_to(f, 2 * h) == sum_to(e, h).plus_spec(sum_to(o, h)),
    decreases h,
{
    reveal(plus_zero);
    if h == 0 {
        assert(zero::<C>().plus_spec(zero::<C>()) == zero::<C>());
    } else {
        let h1 = (h - 1) as nat;
        lemma_sum_split(f, e, o, h1);
        assert(e(h1) == f(2 * h1));
        assert(o(h1) == f(2 * h1 + 1));
        assert(sum_to(f, 2 * h) == sum_to(f, (2 * h1 + 1) as nat).plus_spec(f(2 * h1 + 1)));
        assert(sum_to(f, (2 * h1 + 1) as nat) == sum_to(f, 2 * h1).plus_spec(f(2 * h1)));
        lemma_rearrange(sum_to(e, h1), sum_to(o, h1), f(2 * h1), f(2 * h1 + 1));
    }
}

/// The root-of-unity facts for one length `l = 2 h`.
proof fn lemma_root_facts<C: FftScalar>(l: nat, h: nat)
    requires
        root_laws::<C>(),
        h >= 1,
        l == 2 * h,
        l <= usize::MAX,
    ensures
        wpow(C::root_spec(l as usize), 2) == C::root_spec(h as usize),
        wpow(C::root_spec(l as usize), h) == neg_one::<C>(),
        neg_one::<C>().times_spec(neg_one::<C>()) == C::one_spec(),
{
    reveal(root_laws);
    let a = C::root_spec(l as usize);
    let b = C::root_spec(h as usize);
    let c = wpow(C::root_spec(l as usize), h);
}

/// With `w^2 = v`, `w^h = -1` and `(-1)^2 = 1`: `v^h = 1`.
proof fn lemma_half_root_period<C: FftScalar>(w: C, v: C, h: nat)
    requires
        ring_laws::<C>(),
        neg_one::<C>().times_spec(neg_one::<C>()) == C::one_spec(),
        wpow(w, 2) == v,
        wpow(w, h) == neg_one::<C>(),
    ensures
        wpow(v, h) == C::one_spec(),
{
    reveal(times_one);
    let m1 = neg_one::<C>();
    lemma_wpow_mul(w, 2, h);
    assert(2 * h == h * 2) by (nonlinear_arith);
    lemma_wpow_mul(w, h, 2);
    assert(wpow(w, 2 * h) == wpow(m1, 2));
    assert(wpow(m1, 1) == wpow(m1, 0).times_spec(m1));
    assert(wpow(m1, 1) == m1);
    assert(wpow(m1, 2) == wpow(m1, 1).times_spec(m1));
}

/// `w^((2 j) k) = v^(j kk)` where `v = w^2`, `v^h = 1` and `kk` is `k` reduced
/// below `h`.
proof fn lemma_even_power<C: FftScalar>(w: C, v: C, h: nat, j: nat, k: nat, kk: nat)
    requires
        ring_laws::<C>(),
        wpow(w, 2) == v,
        wpow(v, h) == C::one_spec(),
        (k < h && kk == k) || (k >= h && kk == k - h),
    ensures
        wpow(w, (2 * j) * k) == wpow(v, j * kk),
{
    assert((2 * j) * k == 2 * (j * k)) by (nonlinear_arith);
    lemma_wpow_mul(w, 2, j * k);
    if k >= h {
        assert(j * k == j * kk + j * h) by (nonlinear_arith)
            requires
                kk == k - h,
        ;
        lemma_wpow_add(v, j * kk, j * h);
        assert(j * h == h * j) by (nonlinear_arith);
        lemma_wpow_mul(v, h, j);
        lemma_wpow_of_one::<C>(j);
        lemma_times_one(wpow(v, j * kk));
    }
}

/// The terms `x[off + j st] w^(j k)` of the transform of the samples at `off`,
/// `off + st`, `off + 2 st`, ...
pub open spec fn dft_terms<C: FftScalar>(x: Seq<C>, off: int, st: nat, w: C, k: nat) -> spec_fn(
    nat,
) -> C {
    |j: nat| x[off + j * st].times_spec(wpow(w, j * k))
}

/// `x (c y) = c (x y)`.
proof fn lemma_mul_swap<C: FftScalar>(x: C, c: C, y: C)
    requires
        ring_laws::<C>(),
    ensures
        x.times_spec(c.times_spec(y)) == c.times_spec(x.times_spec(y)),
{
    reveal(times_assoc);
    reveal(times_comm);
    assert(x.times_spec(c).times_spec(y) == x.times_spec(c.times_spec(y)));
    assert(x.times_spec(c) == c.times_spec(x));
    assert(c.times_spec(x).times_spec(y) == c.times_spec(x.times_spec(y)));
}

/// The recursion on `2^e` samples at `off`, stride `2^s`, is the discrete
/// Fourier transform of those samples with the root `root(2^e)`.
#[verifier::spinoff_prover]
#[verifier::rlimit(40)]
proof fn lemma_dit_is_dft<C: FftScalar>(x: Seq<C>, s: nat, off: int, e: nat, k: nat)
    requires
        ring_laws::<C>(),
        root_laws::<C>(),
        k < two_pow(e),
        two_pow(e) <= usize::MAX,
    ensures
        dit(x, s, off, two_pow(e), false)[k as int] == sum_to(
            dft_terms(x, off, two_pow(s), C::root_spec(two_pow(e) as usize), k),
            two_pow(e),
        ),
    decreases e,
{
    let len = two_pow(e);
    let st = two_pow(s);
    let w = C::root_spec(len as usize);
    let f = dft_terms(x, off, st, w, k);
    if e == 0 {
        reveal(plus_comm);
        reveal(plus_zero);
        assert(k == 0);
        assert(f(0) == x[off].times_spec(wpow(w, 0))) by {
            assert(off + 0 * st == off);
            assert(0 * k == 0);
        }
        lemma_times_one(x[off]);
        assert(zero::<C>().plus_spec(x[off]) == x[off].plus_spec(zero::<C>()));
        assert(len == 1);
        assert(sum_to(f, 0) == zero::<C>());
        assert(sum_to(f, 1) == sum_to(f, 0).plus_spec(f(0)));
    } else {
        let e1 = (e - 1) as nat;
        let h = two_pow(e1);
        lemma_two_pow_pos(e1);
        lemma_two_pow_pos(s);
        assert(len == 2 * h);
        assert(len / 2 == h);
        let st2 = two_pow(s + 1);
        assert(st2 == 2 * st);
        let wh = C::root_spec(h as usize);
        let m1 = neg_one::<C>();
        lemma_root_facts::<C>(len, h);
        lemma_half_root_period(w, wh, h);
        let ev = dit(x, s + 1, off, h, false);
        let od = dit(x, s + 1, off + st, h, false);
        lemma_dit_len(x, s + 1, off, e1, false);
        lemma_dit_len(x, s + 1, off + st, e1, false);
        assert(dit(x, s, off, len, false) == crate::fft::combine(ev, od, w));
        let kk: nat = if k < h { k } else { (k - h) as nat };
        let fe = dft_terms(x, off, st2, wh, kk);
        let fo = dft_terms(x, off + st, st2, wh, kk);
        lemma_dit_is_dft(x, s + 1, off, e1, kk);
        lemma_dit_is_dft(x, s + 1, off + st, e1, kk);
        let ef = |j: nat| f(2 * j);
        let of = |j: nat| f(2 * j + 1);
        lemma_sum_split(f, ef, of, h);
        let c = wpow(w, kk);
        let cc = if k < h { c } else { c.times_spec(m1) };
        assert(wpow(w, k) == cc) by {
            if k >= h {
                assert(k == kk + h);
                lemma_wpow_add(w, kk, h);
            }
        }
        assert forall|j: nat| j < h implies #[trigger] ef(j) == fe(j) by {
            assert(off + (2 * j) * st == off + j * st2) by (nonlinear_arith)
                requires
                    st2 == 2 * st,
            ;
            lemma_even_power(w, wh, h, j, k, kk);
        }
        lemma_sum_ext(ef, fe, h);
        assert forall|j: nat| j < h implies #[trigger] of(j) == cc.times_spec(fo(j)) by {
            assert(off + (2 * j + 1) * st == (off + st) + j * st2) by (nonlinear_arith)
                requires
                    st2 == 2 * st,
            ;
            assert((2 * j + 1) * k == k + (2 * j) * k) by (nonlinear_arith);
            lemma_wpow_add(w, k, (2 * j) * k);
            lemma_even_power(w, wh, h, j, k, kk);
            lemma_mul_swap(x[off + (2 * j + 1) * st], cc, wpow(wh, j * kk));
        }
        lemma_sum_scale(cc, fo, of, h);
        if k >= h {
            reveal(minus_def);
            reveal(times_assoc);
            reveal(times_comm);
            let o = od[kk as int];
            assert(m1.times_spec(c.times_spec(o)) == m1.times_spec(c).times_spec(o));
            assert(m1.times_spec(c) == c.times_spec(m1));
        }
    }
}

/// Over exact arithmetic (a commutative ring whose twiddle factors are roots
/// of unity), the forward transform is the discrete Fourier transform:
/// `fft(x)[k] = sum_j x[j] w^(j k)` with `w = root(n)`.
pub proof fn law_fft_is_dft<C: FftScalar>(x: Seq<C>, k: nat)
    requires
        ring_laws::<C>(),
        root_laws::<C>(),
        is_pow2(x.len()),
        x.len() <= usize::MAX,
        k < x.len(),
    ensures
        fft_spec(x, false)[k as int] == dft_coeff(x, C::root_spec(x.len() as usize), k),
{
    let n = x.len();
    lemma_exact_log2(n);
    let e = exact_log2(n);
    lemma_dit_is_dft(x, 0, 0, e, k);
    let w = C::root_spec(n as usize);
    let f = dft_terms(x, 0, two_pow(0), w, k);
    let g = |j: nat| x[j as int].times_spec(wpow(w, j * k));
    assert forall|j: nat| j < n implies #[trigger] f(j) == g(j) by {
        assert(0 + j * 1 == j);
    }
    lemma_sum_ext(f, g, n);
}

/// Over exact arithmetic, the inverse transform of `y` is the conjugate of
/// the discrete Fourier transform of `conj(y)`, divided by `n`:
/// `ifft(y)[k] = conj(sum_j conj(y[j]) w^(j k)) / n`.
pub proof fn law_ifft_is_conjugated_dft<C: FftScalar>(y: Seq<C>, k: nat)
    requires
        ring_laws::<C>(),
        root_laws::<C>(),
        is_pow2(y.len()),
        2 <= y.len() <= usize::MAX,
        k < y.len(),
    ensures
        ifft_spec(y, false)[k as int] == dft_coeff(
            y.map_values(|c: C| c.conj_spec()),
            C::root_spec(y.len() as usize),
            k,
        ).conj_spec().scale_inv_spec(y.len() as usize),
{
    let cy = y.map_values(|c: C| c.conj_spec());
    law_fft_is_dft(cy, k);
}

} // verus!
