//! Powers of two: the spec functions and lemmas that the radix-2 transforms and
//! the padding helpers are stated over.

use vstd::prelude::*;

verus! {

/// `2^k`.
pub open spec fn two_pow(k: nat) -> nat
    decreases k,
{
    if k == 0 {
        1
    } else {
        2 * two_pow((k - 1) as nat)
    }
}

/// `n` is a power of two (`1, 2, 4, ...`).
pub open spec fn is_pow2(n: nat) -> bool {
    exists|k: nat| two_pow(k) == n
}

/// Powers of two are positive.
pub proof fn lemma_two_pow_pos(k: nat)
    ensures
        two_pow(k) >= 1,
    decreases k,
{
    if k > 0 {
        lemma_two_pow_pos((k - 1) as nat);
    }
}

/// Powers of two grow with the exponent.
pub proof fn lemma_two_pow_monotone(a: nat, b: nat)
    requires
        a <= b,
    ensures
        1 <= two_pow(a) <= two_pow(b),
    decreases b,
{
    if b > a {
        lemma_two_pow_monotone(a, (b - 1) as nat);
    } else {
        lemma_two_pow_pos(a);
    }
}

/// `2^(a + b) == 2^a * 2^b`.
pub proof fn lemma_two_pow_add(a: nat, b: nat)
    ensures
        two_pow(a + b) == two_pow(a) * two_pow(b),
    decreases a,
{
    if a > 0 {
        let a1 = (a - 1) as nat;
        lemma_two_pow_add(a1, b);
        let x = two_pow(a1);
        let y = two_pow(b);
        let z = two_pow(a1 + b);
        assert(two_pow(a) == 2 * x);
        assert(a + b == (a1 + b) + 1);
        assert(two_pow(a + b) == 2 * z);
        assert(z == x * y);
        assert(2 * z == (2 * x) * y) by (nonlinear_arith)
            requires
                z == x * y,
        ;
    } else {
        assert(two_pow(0) == 1);
        assert(a + b == b);
        assert(1 * two_pow(b) == two_pow(b));
    }
}

/// The exponent of a power of two is unique.
pub proof fn lemma_two_pow_injective(a: nat, b: nat)
    requires
        two_pow(a) == two_pow(b),
    ensures
        a == b,
{
    if a < b {
        lemma_two_pow_monotone(a + 1, b);
    } else if b < a {
        lemma_two_pow_monotone(b + 1, a);
    }
}

/// `2^k` exceeds `k`.
pub proof fn lemma_two_pow_exceeds(k: nat)
    ensures
        two_pow(k) > k,
    decreases k,
{
    if k > 0 {
        lemma_two_pow_exceeds((k - 1) as nat);
    }
}

} // verus!
