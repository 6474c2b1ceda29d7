//! Random polynomials over Z/pZ.

use vstd::prelude::*;
use crate::modular_poly::{ModularPoly, reduce_seq, reduced, lemma_trim_props};

verus! {

/// rand's `Rng::random_range` over `0..bound` with the thread's generator:
/// a number below `bound`; which one rests on chance. The call panics on an
/// empty range, which `requires` leaves out.
#[verifier::external_body]
pub(crate) fn random_below(bound: u64) -> (r: u64)
    requires
        bound > 0,
    ensures
        r < bound,
{
    rand::Rng::random_range(&mut rand::rng(), 0..bound)
}

impl ModularPoly {
    /// A polynomial of degree at most `degree` whose coefficients are drawn
    /// at random below `p` (trailing zeros dropped, see `new`).
    pub fn random(degree: usize, p: u64) -> (r: ModularPoly)
        requires
            p > 0,
            degree < usize::MAX,
        ensures
            r.p == p,
            r.wf(),
            r.coeffs@.len() <= degree + 1,
    {
        let mut cs: Vec<u64> = Vec::new();
        let mut i: usize = 0;
        while i <= degree
            invariant
                i <= degree + 1,
                degree < usize::MAX,
                p > 0,
                cs@.len() == i,
                forall|k: int| 0 <= k < cs@.len() ==> #[trigger] cs@[k] < p,
            decreases degree + 1 - i,
        {
            cs.push(random_below(p));
            i = i + 1;
        }
        let r = ModularPoly::new(cs, p);
        proof {
            let rs = reduce_seq(cs@, p as int);
            assert(rs.len() == cs@.len());
            assert(reduced(rs, p as int)) by {
                assert forall|k: int| 0 <= k < rs.len() implies #[trigger] rs[k] < p by {
                    assert(rs[k] == (cs@[k] % p) as u64);
                }
            }
            lemma_trim_props(rs, p as int);
        }
        r
    }
}

} // verus!
