//! Univariate polynomials over Z/pZ as text.

use vstd::prelude::*;
use crate::modular_poly::{ModularPoly, seq_is_zero};
use crate::text::{decimal, push_char, push_decimal};

verus! {

/// The text of the term `c x^i`: the coefficient unless it is 1 beside a
/// power of `x`, then `x` and, above the first power, `^i`.
pub open spec fn mp_term(c: u64, i: int) -> Seq<char> {
    if i == 0 {
        decimal(c as nat)
    } else if i == 1 {
        if c == 1 { seq!['x'] } else { decimal(c as nat) + seq!['x'] }
    } else if c == 1 {
        seq!['x', '^'] + decimal(i as nat)
    } else {
        decimal(c as nat) + seq!['x', '^'] + decimal(i as nat)
    }
}

/// The texts of the non-zero terms among the first `n` coefficients.
pub open spec fn mp_terms_upto(cs: Seq<u64>, n: int) -> Seq<Seq<char>>
    decreases n,
{
    if n <= 0 {
        seq![]
    } else if cs[n - 1] == 0 {
        mp_terms_upto(cs, n - 1)
    } else {
        mp_terms_upto(cs, n - 1).push(mp_term(cs[n - 1], n - 1))
    }
}

/// Texts joined by ` + `.
pub open spec fn join_plus(ts: Seq<Seq<char>>) -> Seq<char>
    decreases ts.len(),
{
    if ts.len() == 0 {
        seq![]
    } else if ts.len() == 1 {
        ts[0]
    } else {
        join_plus(ts.drop_last()) + seq![' ', '+', ' '] + ts.last()
    }
}

/// The text of a polynomial: its non-zero terms from the constant up, joined
/// by ` + `; `0` when there are none.
pub open spec fn mp_text(cs: Seq<u64>) -> Seq<char> {
    let ts = mp_terms_upto(cs, cs.len() as int);
    if seq_is_zero(cs) || ts.len() == 0 {
        seq!['0']
    } else {
        join_plus(ts)
    }
}

impl ModularPoly {
    /// The polynomial as text in `x` (see `mp_text`).
    pub fn to_string(&self) -> (r: String)
        ensures
            r@ == mp_text(self.coeffs@),
    {
        let mut s = String::new();
        if self.is_zero() {
            push_char(&mut s, '0');
            assert(s@ =~= seq!['0']);
            return s;
        }
        let ghost cs = self.coeffs@;
        let mut i: usize = 0;
        while i < self.coeffs.len()
            invariant
                cs == self.coeffs@,
                i <= cs.len(),
                s@ == join_plus(mp_terms_upto(cs, i as int)),
            decreases cs.len() - i,
        {
            let c = self.coeffs[i];
            if c != 0 {
                let ghost before = mp_terms_upto(cs, i as int);
                let first = s.as_str().unicode_len() == 0;
                proof {
                    lemma_mp_terms_nonempty(cs, i as int);
                    lemma_join_plus_empty(before);
                }
                if !first {
                    push_char(&mut s, ' ');
                    push_char(&mut s, '+');
                    push_char(&mut s, ' ');
                }
                let ghost mid = s@;
                if i == 0 {
                    push_decimal(&mut s, c);
                } else if i == 1 {
                    if c != 1 {
                        push_decimal(&mut s, c);
                    }
                    push_char(&mut s, 'x');
                } else {
                    if c != 1 {
                        push_decimal(&mut s, c);
                    }
                    push_char(&mut s, 'x');
                    push_char(&mut s, '^');
                    push_decimal(&mut s, i as u64);
                }
                proof {
                    assert(s@ =~= mid + mp_term(c, i as int));
                    let after = mp_terms_upto(cs, i as int + 1);
                    assert(after == before.push(mp_term(c, i as int)));
                    assert(after.drop_last() =~= before);
                    if before.len() == 0 {
                        assert(join_plus(after) == mp_term(c, i as int));
                    }
                }
            }
            i = i + 1;
        }
        if s.as_str().unicode_len() == 0 {
            proof {
                lemma_mp_terms_nonempty(cs, cs.len() as int);
                lemma_join_plus_empty(mp_terms_upto(cs, cs.len() as int));
            }
            push_char(&mut s, '0');
            assert(s@ =~= seq!['0']);
        }
        s
    }
}

/// No term text is empty.
proof fn lemma_mp_terms_nonempty(cs: Seq<u64>, n: int)
    ensures
        forall|k: int| 0 <= k < mp_terms_upto(cs, n).len() ==> (#[trigger] mp_terms_upto(cs, n)[k]).len() > 0,
    decreases n,
{
    if n > 0 {
        lemma_mp_terms_nonempty(cs, n - 1);
        if cs[n - 1] != 0 {
            let c = cs[n - 1];
            assert(decimal(c as nat).len() > 0);
            assert(mp_term(c, n - 1).len() > 0);
            let prev = mp_terms_upto(cs, n - 1);
            assert forall|k: int| 0 <= k < mp_terms_upto(cs, n).len() implies (#[trigger] mp_terms_upto(cs, n)[k]).len()
                > 0 by {
                if k < prev.len() {
                    assert(mp_terms_upto(cs, n)[k] == prev[k]);
                }
            }
        }
    }
}

/// Joined texts are empty exactly when there are none, since no term text is empty.
proof fn lemma_join_plus_empty(ts: Seq<Seq<char>>)
    requires
        forall|k: int| 0 <= k < ts.len() ==> (#[trigger] ts[k]).len() > 0,
    ensures
        (join_plus(ts).len() == 0) <==> (ts.len() == 0),
    decreases ts.len(),
{
    if ts.len() > 1 {
        lemma_join_plus_empty(ts.drop_last());
    }
}

} // verus!
