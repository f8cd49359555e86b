//! The decision rule of the vector median (the earliest window position with
//! the smallest distance sum) and the deterministic sample generator of the
//! multichannel fixtures.

use vstd::prelude::*;

verus! {

/// `a` is the earliest position with the smallest key among the present ones.
pub open spec fn is_first_min(keys: Seq<Option<i64>>, a: int) -> bool {
    &&& 0 <= a < keys.len()
    &&& keys[a] is Some
    &&& forall|b: int| 0 <= b < keys.len() && keys[b] is Some ==> keys[a]->0 <= keys[b]->0
    &&& forall|b: int| 0 <= b < a && keys[b] is Some ==> keys[a]->0 < keys[b]->0
}

/// The window position the vector median picks: among the candidates that are
/// present (`None` marks a candidate left out, e.g. one with a non-finite
/// coordinate), the earliest one whose key (its distance sum, in the total
/// order of its value) is smallest; `None` when no candidate is present.
pub fn first_min_position(keys: &[Option<i64>]) -> (r: Option<usize>)
    ensures
        r is None <==> (forall|b: int| 0 <= b < keys@.len() ==> keys@[b] is None),
        r matches Some(a) ==> is_first_min(keys@, a as int),
{
    let mut best: Option<usize> = None;
    let mut i: usize = 0;
    while i < keys.len()
        invariant
            i <= keys.len(),
            best is None <==> (forall|b: int| 0 <= b < i ==> keys@[b] is None),
            best matches Some(a) ==> {
                &&& a < i
                &&& is_first_min(keys@.take(i as int), a as int)
            },
        decreases keys.len() - i,
    {
        if let Some(k) = keys[i] {
            match best {
                None => {
                    best = Some(i);
                },
                Some(a) => {
                    if let Some(ka) = keys[a] {
                        if k < ka {
                            best = Some(i);
                        }
                    }
                },
            }
        }
        proof {
            let t = keys@.take(i as int + 1);
            if let Some(a) = best {
                assert forall|b: int| 0 <= b < t.len() && t[b] is Some implies t[a as int]->0
                    <= t[b]->0 by {
                    if b < i {
                        assert(t[b] == keys@.take(i as int)[b]);
                    }
                }
                assert forall|b: int| 0 <= b < a && t[b] is Some implies t[a as int]->0
                    < t[b]->0 by {
                    assert(t[b] == keys@.take(i as int)[b]);
                }
            }
        }
        i = i + 1;
    }
    proof {
        assert(keys@.take(keys.len() as int) =~= keys@);
    }
    best
}

/// The linear-congruential step `s -> (a s + c) mod 2^64` (Knuth's MMIX
/// constants).
pub open spec fn lcg_next(s: u64) -> u64 {
    ((s as nat * 6364136223846793005nat + 1442695040888963407nat) % 0x1_0000_0000_0000_0000nat) as u64
}

/// Deterministic 64-bit linear congruential generator.
pub struct GateRng(pub u64);

impl GateRng {
    /// A generator whose state is `seed`.
    pub fn new(seed: u64) -> (r: Self)
        ensures
            r.0 == seed,
    {
        Self(seed)
    }

    /// Advance the state by one step and return the new state.
    pub fn next_u64(&mut self) -> (r: u64)
        ensures
            r == lcg_next(old(self).0),
            final(self).0 == r,
    {
        let s = self.0;
        let p = s.wrapping_mul(6364136223846793005);
        let r = p.wrapping_add(1442695040888963407);
        proof {
            let m: int = 0x1_0000_0000_0000_0000;
            let prod: int = s as int * 6364136223846793005int;
            vstd::arithmetic::div_mod::lemma_add_mod_noop(prod, 1442695040888963407int, m);
            vstd::arithmetic::div_mod::lemma_small_mod(1442695040888963407nat, m as nat);
            vstd::arithmetic::div_mod::lemma_mod_twice(prod, m);
        }
        self.0 = r;
        r
    }
}

} // verus!
