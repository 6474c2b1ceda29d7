//! Common zeros: dividing the constants of a polynomial by their common
//! divisor keeps its zeros, so the reductions of constants that the
//! eliminations make do not lose a common zero of the system.

use vstd::prelude::*;
use vstd::arithmetic::div_mod::{lemma_fundamental_div_mod, lemma_mod_multiples_basic};
use crate::spoly::{SPoly, cleaned, eval, eval_from, lemma_eval_cleaned};
use crate::poly_ops::{coeffs_of, coeffs_upto, gcd_upto, gcd_spec, leaf_div, trunc_div, max_abs_upto};

verus! {

/// Every tree of `ps` is zero at `env`.
pub open spec fn common_zero(ps: Seq<SPoly>, env: spec_fn(u8) -> int) -> bool {
    forall|i: int| 0 <= i < ps.len() ==> eval(#[trigger] ps[i], env) == 0
}

/// Every constant of the tree is a multiple of `g`.
pub open spec fn all_div(s: SPoly, g: int) -> bool
    decreases s,
{
    match s {
        SPoly::Constant(c) => c % g == 0,
        SPoly::Nested(_, cs) => forall|i: int| #![trigger cs[i]] 0 <= i < cs.len() ==> all_div(cs[i], g),
    }
}

/// A multiple of a multiple of `h` is a multiple of `h`.
proof fn lemma_div_trans(c: int, g: int, h: int)
    requires
        g > 0,
        h > 0,
        c % g == 0,
        g % h == 0,
    ensures
        c % h == 0,
{
    lemma_fundamental_div_mod(c, g);
    lemma_fundamental_div_mod(g, h);
    let m = (g / h) * (c / g);
    assert(c == m * h) by (nonlinear_arith)
        requires
            c == g * (c / g) + 0,
            g == h * (g / h) + 0,
            m == (g / h) * (c / g),
    ;
    lemma_mod_multiples_basic(m, h);
}

/// The divisor of `a` and `b`, one of them positive, divides both.
proof fn lemma_gcd_divides(a: nat, b: nat)
    requires
        a > 0 || b > 0,
    ensures
        gcd_spec(a, b) > 0,
        a % gcd_spec(a, b) == 0,
        b % gcd_spec(a, b) == 0,
    decreases b,
{
    if b == 0 {
        assert(gcd_spec(a, b) == a);
        lemma_mod_multiples_basic(1, a as int);
        lemma_mod_multiples_basic(0, a as int);
    } else {
        let r = a % b;
        lemma_gcd_divides(b, r);
        let g = gcd_spec(b, r);
        assert(gcd_spec(a, b) == g);
        lemma_fundamental_div_mod(a as int, b as int);
        lemma_fundamental_div_mod(b as int, g as int);
        lemma_fundamental_div_mod(r as int, g as int);
        let m: int = ((b / g) * (a / b) + r / g) as int;
        assert(a == m * g) by (nonlinear_arith)
            requires
                a == b * (a / b) + r,
                b == g * (b / g) + 0,
                r == g * (r / g) + 0,
                m == (b / g) * (a / b) + r / g,
        ;
        lemma_mod_multiples_basic(m, g as int);
    }
}

/// The common divisor of `cs[..n]` divides each of them.
proof fn lemma_gcd_upto_divides(cs: Seq<int>, n: int)
    requires
        n <= cs.len(),
    ensures
        gcd_upto(cs, n).0 > 0,
        gcd_upto(cs, n).1 ==> forall|i: int| 0 <= i < n ==> #[trigger] cs[i] == 0,
        forall|i: int| 0 <= i < n ==> #[trigger] cs[i] % (gcd_upto(cs, n).0 as int) == 0,
    decreases n,
{
    if n > 0 {
        lemma_gcd_upto_divides(cs, n - 1);
        let (g, first) = gcd_upto(cs, n - 1);
        let c = cs[n - 1];
        let a: nat = (if c < 0 { -c } else { c }) as nat;
        let h = gcd_upto(cs, n).0;
        if c == 0 {
            lemma_mod_multiples_basic(0, g as int);
        } else {
            if first {
                assert(h == a);
            } else {
                lemma_gcd_divides(g, a);
                assert(h == gcd_spec(g, a));
                assert forall|i: int| 0 <= i < n - 1 implies #[trigger] cs[i] % (h as int) == 0 by {
                    lemma_div_trans(cs[i], g as int, h as int);
                }
            }
            let ai: int = a as int;
            let hi: int = h as int;
            lemma_fundamental_div_mod(ai, hi);
            let m: int = ai / hi;
            assert(ai % hi == 0) by {
                if first {
                    lemma_mod_multiples_basic(1, a as int);
                }
            }
            let k: int = if c < 0 { -m } else { m };
            assert(c == k * hi) by (nonlinear_arith)
                requires
                    ai == hi * m + 0,
                    ai == (if c < 0 { -c } else { c }),
                    k == (if c < 0 { -m } else { m }),
            ;
            lemma_mod_multiples_basic(k, h as int);
            assert forall|i: int| 0 <= i < n - 1 implies #[trigger] cs[i] % (h as int) == 0 by {
                if first {
                    assert(cs[i] == 0);
                    lemma_mod_multiples_basic(0, h as int);
                } else {
                    lemma_div_trans(cs[i], g as int, h as int);
                }
            }
        }
    }
}

/// Constants that are multiples of `g` make the whole tree a multiple.
proof fn lemma_all_div(s: SPoly, g: int)
    requires
        g > 0,
        forall|q: int| 0 <= q < coeffs_of(s).len() ==> #[trigger] coeffs_of(s)[q] % g == 0,
    ensures
        all_div(s, g),
    decreases s, 0int,
{
    match s {
        SPoly::Constant(c) => {
            assert(coeffs_of(s)[0] == c);
        },
        SPoly::Nested(_, cs) => {
            assert(coeffs_of(s) == coeffs_upto(cs, cs.len() as int));
            lemma_all_div_upto(cs, cs.len() as int, g);
        },
    }
}

/// Constants of `cs[..n]` that are multiples of `g` make each tree a multiple.
proof fn lemma_all_div_upto(cs: Seq<SPoly>, n: int, g: int)
    requires
        g > 0,
        0 <= n <= cs.len(),
        forall|q: int| 0 <= q < coeffs_upto(cs, n).len() ==> #[trigger] coeffs_upto(cs, n)[q] % g == 0,
    ensures
        forall|i: int| 0 <= i < n ==> all_div(#[trigger] cs[i], g),
    decreases cs, n,
{
    if n > 0 {
        let a = coeffs_upto(cs, n - 1);
        let c = coeffs_of(cs[n - 1]);
        assert(coeffs_upto(cs, n) == a + c);
        assert forall|q: int| 0 <= q < a.len() implies #[trigger] a[q] % g == 0 by {
            assert((a + c)[q] == a[q]);
        }
        assert forall|q: int| 0 <= q < c.len() implies #[trigger] c[q] % g == 0 by {
            assert((a + c)[a.len() + q] == c[q]);
        }
        lemma_all_div_upto(cs, n - 1, g);
        lemma_all_div(cs[n - 1], g);
    }
}

/// Dividing the constants of a multiple of `g` by `g` divides its value by `g`.
proof fn lemma_leaf_div_eval(s: SPoly, g: int, env: spec_fn(u8) -> int)
    requires
        g > 0,
        all_div(s, g),
    ensures
        eval(leaf_div(s, g), env) * g == eval(s, env),
    decreases s, 0int,
{
    match s {
        SPoly::Constant(c) => {
            if c >= 0 {
                lemma_fundamental_div_mod(c, g);
                assert(trunc_div(c, g) * g == c) by (nonlinear_arith)
                    requires
                        c == g * (c / g) + c % g,
                        c % g == 0,
                        trunc_div(c, g) == c / g,
                ;
            } else {
                lemma_fundamental_div_mod(c, g);
                let m = c / g;
                assert(-c == (-m) * g) by (nonlinear_arith)
                    requires
                        c == g * m + 0,
                ;
                lemma_fundamental_div_mod(-c, g);
                lemma_mod_multiples_basic(-m, g);
                assert((-m) * g == -c);
                assert((-c) % g == 0);
                let w = (-c) / g;
                assert(w * g == -c) by (nonlinear_arith)
                    requires
                        -c == g * w + (-c) % g,
                        (-c) % g == 0,
                ;
                assert(trunc_div(c, g) == -w);
                assert((-w) * g == c) by (nonlinear_arith)
                    requires
                        w * g == -c,
                ;
            }
        },
        SPoly::Nested(v, cs) => {
            let ds = leaf_div(s, g)->Nested_1;
            lemma_leaf_div_eval_from(cs, ds, v, g, env, 0);
        },
    }
}

/// The children of a divided node are worth the children's values over `g`.
proof fn lemma_leaf_div_eval_from(cs: Seq<SPoly>, ds: Seq<SPoly>, v: u8, g: int, env: spec_fn(u8) -> int, i: int)
    requires
        g > 0,
        0 <= i,
        ds.len() == cs.len(),
        forall|j: int| 0 <= j < cs.len() ==> all_div(#[trigger] cs[j], g),
        forall|j: int| 0 <= j < cs.len() ==> #[trigger] ds[j] == leaf_div(cs[j], g),
    ensures
        eval_from(ds, v, env, i) * g == eval_from(cs, v, env, i),
    decreases cs, cs.len() - i,
{
    if i < cs.len() {
        lemma_leaf_div_eval_from(cs, ds, v, g, env, i + 1);
        lemma_leaf_div_eval(cs[i], g, env);
        let a = eval(ds[i], env);
        let b = eval_from(ds, v, env, i + 1);
        let x = env(v);
        assert((a + x * b) * g == a * g + x * (b * g)) by (nonlinear_arith);
    }
}

/// Dividing the constants of a tree by their common divisor, when that is
/// not 1, and bringing it to normal form keeps its zeros.
pub proof fn lemma_reduction_keeps_zero(t: SPoly, env: spec_fn(u8) -> int)
    ensures
        ({
            let cs = coeffs_of(t);
            let g = gcd_upto(cs, cs.len() as int).0;
            eval(t, env) == 0 ==> eval(cleaned(leaf_div(t, g as int)), env) == 0
        }),
{
    let cs = coeffs_of(t);
    lemma_gcd_upto_divides(cs, cs.len() as int);
    let g = gcd_upto(cs, cs.len() as int).0;
    lemma_all_div(t, g as int);
    lemma_leaf_div_eval(t, g as int, env);
    lemma_eval_cleaned(leaf_div(t, g as int), env);
    let e = eval(leaf_div(t, g as int), env);
    if eval(t, env) == 0 {
        assert(e == 0) by (nonlinear_arith)
            requires
                e * g == 0,
                g > 0,
        ;
    }
}

} // verus!
