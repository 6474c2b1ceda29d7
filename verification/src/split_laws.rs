//! Splitting off a power of a variable (`extract_factor_and_remainder`):
//! the two parts rebuild the polynomial and keep its shape.

use vstd::prelude::*;
use vstd::arithmetic::power::pow;
use crate::spoly::{
    SPoly, above, eval, eval_at, eval_from, ordered, cleaned, lemma_eval_cleaned, lemma_eval_from_lin,
    lemma_eval_from_shift, lemma_cleaned_canonical, lemma_canonical_ordered,
};
use crate::poly_struct::{split_at, split_map, firsts, seconds};

verus! {

/// The first `d` coefficients and the rest: `eval_from(cs, i)` is the part
/// of `cs.take(d)` from `i` on plus `x^(d - i)` times the part from `d` on.
proof fn lemma_eval_take(cs: Seq<SPoly>, v: u8, env: spec_fn(u8) -> int, d: int, i: int)
    requires
        0 <= i <= d <= cs.len(),
    ensures
        eval_from(cs, v, env, i) == eval_from(cs.take(d), v, env, i) + pow(env(v), (d - i) as nat) * eval_from(
            cs,
            v,
            env,
            d,
        ),
    decreases d - i,
{
    reveal(pow);
    let x = env(v);
    let e = eval_from(cs, v, env, d);
    if i == d {
        assert(eval_from(cs.take(d), v, env, i) == 0);
        assert(pow(x, 0) == 1);
        assert(1 * e == e);
    } else {
        lemma_eval_take(cs, v, env, d, i + 1);
        let t = cs.take(d);
        assert(t[i] == cs[i]);
        let a = eval_from(t, v, env, i + 1);
        let p1 = pow(x, (d - i - 1) as nat);
        assert(pow(x, (d - i) as nat) == x * p1);
        assert(x * (a + p1 * e) == x * a + (x * p1) * e) by (nonlinear_arith);
    }
}

/// The factor of `v^d` times `v^d`, plus the remainder, is the polynomial.
pub proof fn law_split_rebuilds(s: SPoly, v: u8, d: int, env: spec_fn(u8) -> int)
    requires
        d >= 0,
    ensures
        eval(s, env) == eval(split_at(s, v, d).0, env) * pow(env(v), d as nat) + eval(split_at(s, v, d).1, env),
    decreases s,
{
    let (f, r) = split_at(s, v, d);
    let xd = pow(env(v), d as nat);
    match s {
        SPoly::Constant(_) => {
            assert(0 * xd == 0);
        },
        SPoly::Nested(w, cs) => {
            if w > v {
                assert(0 * xd == 0);
            } else if w < v {
                let ps = split_map(cs, v, d);
                let fs = firsts(ps);
                let rs = seconds(ps);
                lemma_eval_cleaned(SPoly::Nested(w, fs), env);
                lemma_eval_cleaned(SPoly::Nested(w, rs), env);
                assert forall|j: int| 0 <= j < cs.len() implies #[trigger] eval(cs[j], env) == eval_at(rs, j, env) + xd
                    * eval_at(fs, j, env) by {
                    law_split_rebuilds(cs[j], v, d, env);
                    assert(ps[j] == split_at(cs[j], v, d));
                    assert(eval(fs[j], env) * xd == xd * eval(fs[j], env)) by (nonlinear_arith);
                }
                lemma_eval_from_lin(cs, rs, fs, xd, w, env, 0);
                assert(eval_from(fs, w, env, 0) * xd == xd * eval_from(fs, w, env, 0)) by (nonlinear_arith);
            } else {
                if d >= cs.len() {
                    assert(cs.take(cs.len() as int) =~= cs);
                    lemma_eval_cleaned(SPoly::Nested(w, cs), env);
                    assert(0 * xd == 0);
                } else {
                    lemma_eval_take(cs, v, env, d, 0);
                    lemma_eval_cleaned(SPoly::Nested(w, cs.take(d)), env);
                    lemma_eval_cleaned(SPoly::Nested(w, cs.skip(d)), env);
                    let ts = cs.skip(d);
                    assert forall|m: int| 0 <= m < ts.len() implies #[trigger] cs[d + m] == ts[m] by {}
                    lemma_eval_from_shift(cs, ts, w, env, d, 0);
                    let e = eval_from(cs, w, env, d);
                    assert(xd * e == e * xd) by (nonlinear_arith);
                }
            }
        },
    }
}

/// For `d` at least one, the two parts of an ordered polynomial are ordered
/// and lie above every variable that the polynomial lies above.
pub proof fn lemma_split_shape(s: SPoly, v: u8, d: int)
    requires
        ordered(s),
        d >= 1,
    ensures
        ordered(split_at(s, v, d).0),
        ordered(split_at(s, v, d).1),
        forall|u: u8| above(s, u) ==> #[trigger] above(split_at(s, v, d).0, u) && above(split_at(s, v, d).1, u),
    decreases s,
{
    match s {
        SPoly::Constant(_) => {},
        SPoly::Nested(w, cs) => {
            if w > v {
            } else if w < v {
                let ps = split_map(cs, v, d);
                let fs = firsts(ps);
                let rs = seconds(ps);
                assert forall|j: int| 0 <= j < cs.len() implies ordered(#[trigger] fs[j]) && ordered(rs[j]) && above(
                    fs[j],
                    w,
                ) && above(rs[j], w) by {
                    lemma_split_shape(cs[j], v, d);
                    assert(ps[j] == split_at(cs[j], v, d));
                    assert(above(cs[j], w));
                }
                assert forall|j: int| 0 <= j < cs.len() implies ordered(#[trigger] rs[j]) && above(rs[j], w) by {
                    assert(ordered(fs[j]));
                }
                assert(ordered(SPoly::Nested(w, fs)));
                assert(ordered(SPoly::Nested(w, rs)));
                lemma_cleaned_canonical(SPoly::Nested(w, fs));
                lemma_cleaned_canonical(SPoly::Nested(w, rs));
                lemma_canonical_ordered(cleaned(SPoly::Nested(w, fs)));
                lemma_canonical_ordered(cleaned(SPoly::Nested(w, rs)));
            } else {
                let k = if d < cs.len() { d } else { cs.len() as int };
                let tk = cs.take(k);
                assert(ordered(SPoly::Nested(w, tk))) by {
                    assert forall|i: int| 0 <= i < tk.len() implies above(#[trigger] tk[i], w) && ordered(tk[i]) by {
                        assert(tk[i] == cs[i]);
                    }
                }
                lemma_cleaned_canonical(SPoly::Nested(w, tk));
                lemma_canonical_ordered(cleaned(SPoly::Nested(w, tk)));
                if d < cs.len() {
                    let sk = cs.skip(d);
                    assert(ordered(SPoly::Nested(w, sk))) by {
                        assert forall|i: int| 0 <= i < sk.len() implies above(#[trigger] sk[i], w) && ordered(sk[i]) by {
                            assert(sk[i] == cs[d + i]);
                        }
                    }
                    lemma_cleaned_canonical(SPoly::Nested(w, sk));
                    lemma_canonical_ordered(cleaned(SPoly::Nested(w, sk)));
                }
            }
        },
    }
}

} // verus!
