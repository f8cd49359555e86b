//! Complex helpers of the Butterworth filter design.

use vstd::prelude::*;
use crate::fft::FftScalar;

verus! {

/// `((1 * v0) * v1) * ... `: the product of `vs`, multiplied left to right.
pub open spec fn product<C: FftScalar>(vs: Seq<C>) -> C
    decreases vs.len(),
{
    if vs.len() == 0 {
        C::one_spec()
    } else {
        product(vs.drop_last()).times_spec(vs.last())
    }
}

/// The product is built one factor at a time, each entering unchanged: the
/// empty product is 1, and the product of `s` followed by `v` is the product
/// of `s` times `v`.
pub proof fn law_product_appends_factor<C: FftScalar>(s: Seq<C>, v: C)
    ensures
        product(Seq::<C>::empty()) == C::one_spec(),
        product(s.push(v)) == product(s).times_spec(v),
{
    assert(s.push(v).drop_last() =~= s);
}

/// The product of the complex numbers `vs`, accumulated left to right from 1.
pub fn prod<C: FftScalar>(vs: &[C]) -> (r: C)
    ensures
        r == product(vs@),
{
    let mut acc = C::one();
    let mut i: usize = 0;
    while i < vs.len()
        invariant
            i <= vs.len(),
            acc == product(vs@.take(i as int)),
        decreases vs.len() - i,
    {
        proof {
            assert(vs@.take(i as int + 1).drop_last() =~= vs@.take(i as int));
        }
        acc = acc.times(vs[i]);
        i = i + 1;
    }
    assert(vs@.take(vs.len() as int) =~= vs@);
    acc
}

} // verus!
