//! Substituting away the variables that some equation gives linearly: for
//! each variable other than the two of the curve, the first equation that
//! reads `p - k * v` is taken out and `v = p / k` is put into the others.

use vstd::prelude::*;
use std::rc::Rc;
use crate::poly::{Poly, sv, sv_kids, lemma_kid_smaller};
use crate::spoly::{SPoly, above, canonical, ordered, size, lemma_canonical_ordered, eval, eval_from};
use crate::poly_ops::{trees, degrees_fit, mentions, select, closed_under_touch, kept_set};
use crate::poly_struct::{SingleOutResult, SingleOutV, single, single_fits, rc_tree};
use crate::poly_subst::{large_reduced, lemma_large_reduced_ordered};
use crate::poly_expr::overflow_message;
use crate::elimination::{system_ok, overflow_text, only_xy};
use crate::vanishing::{common_zero, lemma_reduction_keeps_zero};
use crate::poly_subst::linear_sub_value;
use crate::coef_laws::law_linear_substitution;
use crate::poly_ops::{degree_in, no_min_coeff, has_var_spec};
use vstd::arithmetic::power::pow;
use crate::scene_utils::SceneUtils;

verus! {

/// Whether reading the polynomial as linear in `v` is safe (see `single_fits`).
pub fn fits_single(p: &Poly, v: u8) -> (r: bool)
    ensures
        r == single_fits(sv(*p), v),
    decreases size(sv(*p)),
{
    match p {
        Poly::Constant(_) => true,
        Poly::Nested(w, cs) => {
            let ghost ks = sv_kids(cs@);
            if *w > v {
                true
            } else if *w == v {
                if cs.len() == 2 {
                    let c1: &Poly = &cs[1];
                    assert(ks[1] == sv(*c1));
                    match c1 {
                        Poly::Constant(k) => *k > i64::MIN,
                        Poly::Nested(_, _) => true,
                    }
                } else {
                    true
                }
            } else {
                if cs.len() == 0 {
                    return false;
                }
                let mut i: usize = 0;
                while i < cs.len()
                    invariant
                        ks == sv_kids(cs@),
                        sv(*p) == SPoly::Nested(*w, ks),
                        *w < v,
                        i <= cs@.len(),
                        forall|q: int| 0 <= q < i ==> single_fits(#[trigger] ks[q], v),
                    decreases cs@.len() - i,
                {
                    let k: &Poly = &cs[i];
                    proof {
                        lemma_kid_smaller(*p, i as int);
                    }
                    assert(ks[i as int] == sv(*k));
                    if !fits_single(k, v) {
                        return false;
                    }
                    i = i + 1;
                }
                true
            }
        },
    }
}

/// The polynomial that a linear reading gives keeps the shape of an
/// ordered tree.
proof fn lemma_single_linear_ordered(s: SPoly, v: u8)
    requires
        ordered(s),
        single(s, v) is Linear,
    ensures
        ordered(single(s, v)->Linear_0),
        forall|u: u8| above(s, u) ==> #[trigger] above(single(s, v)->Linear_0, u),
    decreases s,
{
    match s {
        SPoly::Constant(_) => {},
        SPoly::Nested(w, cs) => {
            if w < v {
                let rs = crate::poly_struct::single_map(cs, v);
                assert(rs[0] == single(cs[0], v));
                lemma_single_linear_ordered(cs[0], v);
                let p = single(cs[0], v)->Linear_0;
                let ds = cs.update(0, p);
                assert forall|i: int| 0 <= i < ds.len() implies above(#[trigger] ds[i], w) && ordered(ds[i]) by {
                    if i == 0 {
                        assert(above(cs[0], w));
                    }
                }
            } else {
                assert(above(cs[0], v));
            }
        },
    }
}

/// The value of children from `i >= 1` on does not see a new first child.
proof fn lemma_eval_from_tail(cs: Seq<SPoly>, p: SPoly, w: u8, env: spec_fn(u8) -> int, i: int)
    requires
        i >= 1,
        cs.len() >= 1,
    ensures
        eval_from(cs.update(0, p), w, env, i) == eval_from(cs, w, env, i),
    decreases cs.len() - i,
{
    let ds = cs.update(0, p);
    assert(ds.len() == cs.len());
    if i < cs.len() {
        lemma_eval_from_tail(cs, p, w, env, i + 1);
        assert(ds[i] == cs[i]);
        assert(eval_from(ds, w, env, i) == eval(ds[i], env) + env(w) * eval_from(ds, w, env, i + 1));
    }
}

/// A tree that reads as linear in `v` (see `single`) mentions `v`.
pub proof fn lemma_single_linear_mentions(s: SPoly, v: u8)
    requires
        ordered(s),
        single(s, v) is Linear,
    ensures
        mentions(s, v as int),
    decreases s,
{
    match s {
        SPoly::Constant(_) => {},
        SPoly::Nested(w, cs) => {
            if w < v {
                let rs = crate::poly_struct::single_map(cs, v);
                assert(rs[0] == single(cs[0], v));
                lemma_single_linear_mentions(cs[0], v);
            }
        },
    }
}

/// Some polynomial of the system reads as linear in a variable other than
/// `x` and `y` below `n`.
pub open spec fn has_linear_below(ps: Seq<SPoly>, x: u8, y: u8, n: int) -> bool {
    exists|i: int, u: u8|
        0 <= i < ps.len() && u < n && u != x && u != y && #[trigger] single(ps[i], u) is Linear
}

/// A tree that reads as not having `v` (see `single`) does not have it.
pub proof fn lemma_single_constant_free(s: SPoly, v: u8)
    requires
        single(s, v) is Constant,
    ensures
        !has_var_spec(s, v),
    decreases s,
{
    match s {
        SPoly::Constant(_) => {},
        SPoly::Nested(w, cs) => {
            if w < v {
                let rs = crate::poly_struct::single_map(cs, v);
                assert forall|i: int| 0 <= i < cs.len() implies !has_var_spec(#[trigger] cs[i], v) by {
                    assert(rs[i] == single(cs[i], v));
                    lemma_single_constant_free(cs[i], v);
                }
            }
        },
    }
}

/// A polynomial that reads as linear in `v` (see `single`) is `p - k * v`
/// at every point, with `p` and `k` what the reading gives, and `p` is free
/// of `v`.
pub proof fn law_single_linear(s: SPoly, v: u8, env: spec_fn(u8) -> int)
    requires
        ordered(s),
        single(s, v) is Linear,
    ensures
        eval(s, env) == eval(single(s, v)->Linear_0, env) - single(s, v)->Linear_1 * env(v),
        !has_var_spec(single(s, v)->Linear_0, v),
    decreases s,
{
    match s {
        SPoly::Constant(_) => {},
        SPoly::Nested(w, cs) => {
            if w == v {
                let x = env(v);
                assert(eval_from(cs, v, env, 2) == 0);
                assert(eval_from(cs, v, env, 1) == eval(cs[1], env) + x * 0);
                assert(eval(s, env) == eval(cs[0], env) + x * eval_from(cs, v, env, 1));
                let c = cs[1]->Constant_0;
                assert(eval(cs[1], env) == c);
                let e0 = eval(cs[0], env);
                assert(e0 + x * (c + x * 0) == e0 - (-c) * x) by (nonlinear_arith);
                assert(single(s, v) == SingleOutV::Linear(cs[0], -c));
                assert(eval(s, env) == eval(cs[0], env) - (-c) * x);
            } else if w < v {
                let rs = crate::poly_struct::single_map(cs, v);
                assert(rs[0] == single(cs[0], v));
                law_single_linear(cs[0], v, env);
                let p = single(cs[0], v)->Linear_0;
                let ds = cs.update(0, p);
                lemma_eval_from_tail(cs, p, w, env, 1);
                assert(ds[0] == p);
                assert(eval(SPoly::Nested(w, ds), env) == eval(p, env) + env(w) * eval_from(ds, w, env, 1));
                assert(eval(s, env) == eval(cs[0], env) + env(w) * eval_from(cs, w, env, 1));
                assert(single(s, v) == SingleOutV::Linear(SPoly::Nested(w, ds), single(cs[0], v)->Linear_1));
                assert forall|i: int| 0 <= i < ds.len() implies !has_var_spec(#[trigger] ds[i], v) by {
                    if i > 0 {
                        assert(rs[i] == single(cs[i], v));
                        lemma_single_constant_free(cs[i], v);
                    }
                }
            }
        },
    }
}

/// Picking polynomials out of a system keeps it canonical.
proof fn lemma_select_system_ok(ps: Seq<Rc<Poly>>, keep: Seq<bool>, n: int)
    requires
        system_ok(ps),
        n <= ps.len(),
    ensures
        system_ok(select(ps, keep, n)),
    decreases n,
{
    if n > 0 {
        lemma_select_system_ok(ps, keep, n - 1);
        let prev = select(ps, keep, n - 1);
        if keep[n - 1] {
            let cur = prev.push(ps[n - 1]);
            assert forall|i: int| 0 <= i < cur.len() implies canonical(#[trigger] trees(cur)[i]) && degrees_fit(
                trees(cur)[i],
            ) by {
                if i < prev.len() {
                    assert(trees(cur)[i] == trees(prev)[i]);
                } else {
                    assert(trees(cur)[i] == trees(ps)[n - 1]);
                }
            }
        }
    }
}

/// Some polynomial of the system mentions variable `u`.
pub open spec fn mentioned_by(ps: Seq<SPoly>, u: int) -> bool {
    exists|i: int| 0 <= i < ps.len() && mentions(#[trigger] ps[i], u)
}

/// How many of the variables below `n`, other than `x` and `y`, are marked.
pub open spec fn marked_count(vs: Seq<bool>, x: u8, y: u8, n: int) -> int
    decreases n,
{
    if n <= 0 {
        0
    } else {
        marked_count(vs, x, y, n - 1) + (if vs[n - 1] && n - 1 != x as int && n - 1 != y as int {
            1int
        } else {
            0
        })
    }
}

/// How many variables other than `x` and `y` the system mentions.
pub open spec fn other_var_count(ps: Seq<SPoly>, x: u8, y: u8) -> int {
    marked_count(Seq::new(256, |u: int| mentioned_by(ps, u)), x, y, 256)
}

/// What `t` becomes when `v = lin / k` is put in: `t` itself when it does
/// not have `v`, else the polynomial, constants reduced, whose value is that
/// of `t` with `v` replaced and multiplied through by `k^d`.
pub open spec fn substituted(t: SPoly, v: u8, lin: SPoly, k: int, r: SPoly) -> bool {
    if single(t, v) is Constant {
        r == t
    } else {
        exists|u: SPoly|
            #![trigger large_reduced(u)]
            canonical(u) && no_min_coeff(u) && r == large_reduced(u) && forall|env: spec_fn(u8) -> int|
                #[trigger] eval(u, env) == linear_sub_value(t, v, lin, k, env)
    }
}

/// The place in a list of the `t`-th item left when the item at `f` goes.
pub open spec fn skip_index(t: int, f: int) -> int {
    if t < f {
        t
    } else {
        t + 1
    }
}

/// `f` is the first polynomial of `s` that reads `lin - k * v`.
pub open spec fn first_linear(s: Seq<SPoly>, v: u8, f: int) -> bool {
    &&& 0 <= f < s.len()
    &&& single(s[f], v) is Linear
    &&& forall|q: int| 0 <= q < f ==> !(#[trigger] single(s[q], v) is Linear)
}

/// `s1` follows from `s0` by the step for the variable `v`, where `vars`
/// marks the variables that the original polynomials mention: when `v` is
/// one of them, not `x` or `y`, and some polynomial reads `lin - k * v`, the
/// first such polynomial goes and the others, in order, get `v = lin / k`;
/// otherwise nothing changes.
pub open spec fn linear_step(s0: Seq<SPoly>, s1: Seq<SPoly>, v: int, x: u8, y: u8, vars: Seq<bool>) -> bool {
    if vars[v] && v != x && v != y && exists|f: int| #[trigger] first_linear(s0, v as u8, f) {
        let f = choose|f: int| #[trigger] first_linear(s0, v as u8, f);
        let lin = single(s0[f], v as u8)->Linear_0;
        let k = single(s0[f], v as u8)->Linear_1;
        &&& s1.len() == s0.len() - 1
        &&& forall|t: int|
            0 <= t < s1.len() ==> substituted(s0[skip_index(t, f)], v as u8, lin, k, #[trigger] s1[t])
    } else {
        s1 == s0
    }
}

/// Which of the 256 variables the polynomials mention.
pub open spec fn mentioned_vars(ps: Seq<SPoly>) -> Seq<bool> {
    Seq::new(256, |u: int| mentioned_by(ps, u))
}

/// The steps for the variables `0..n` lead from `chain[0]` to `chain[n]`.
pub open spec fn linear_chain(chain: Seq<Seq<SPoly>>, n: int, x: u8, y: u8, vars: Seq<bool>) -> bool {
    &&& chain.len() == n + 1
    &&& forall|v: int| 0 <= v < n ==> #[trigger] linear_step(chain[v], chain[v + 1], v, x, y, vars)
}

/// Two first linear polynomials are the same.
proof fn lemma_first_linear_unique(s: Seq<SPoly>, v: u8, f: int, g: int)
    requires
        first_linear(s, v, f),
        first_linear(s, v, g),
    ensures
        f == g,
{
    if f < g {
        assert(!(single(s[f], v) is Linear));
    }
    if g < f {
        assert(!(single(s[g], v) is Linear));
    }
}

impl SceneUtils {
    /// For each variable `v` that the polynomials mention, other than
    /// `x_var` and `y_var`, in increasing order: the first polynomial that
    /// reads `p - k * v` (see `single`) is taken out and each other
    /// polynomial that has `v` gets `v = p / k` (`substitute_linear`); the
    /// variables are those of the polynomials as given, so each of them
    /// takes out at most one polynomial (`linear_step`, one step for each of
    /// the 256 variables). An error when a number would leave an `i64`.
    pub fn reduce_linear_variables(polys: Vec<Rc<Poly>>, x_var: u8, y_var: u8) -> (r: Result<Vec<Rc<Poly>>, String>)
        requires
            system_ok(polys@),
        ensures
            match r {
                Ok(ps) => system_ok(ps@) && ps@.len() <= polys@.len() && ps@.len() + other_var_count(
                    trees(polys@),
                    x_var,
                    y_var,
                ) >= polys@.len(),
                Err(m) => m@ == overflow_message(),
            },
            r matches Ok(ps) ==> forall|env: spec_fn(u8) -> int| #[trigger] common_zero(trees(polys@), env) ==> common_zero(
                trees(ps@),
                env,
            ),
            (forall|i: int| 0 <= i < polys@.len() ==> only_xy(#[trigger] trees(polys@)[i], x_var, y_var)) ==> (r matches Ok(
                ps,
            ) && ps@ == polys@),
            has_linear_below(trees(polys@), x_var, y_var, 256) ==> (r matches Ok(ps) ==> ps@.len() < polys@.len()),
            r matches Ok(ps) ==> exists|chain: Seq<Seq<SPoly>>|
                #[trigger] linear_chain(chain, 256, x_var, y_var, mentioned_vars(trees(polys@)))
                    && chain[0] == trees(polys@) && chain[256] == trees(ps@),
    {
        let mut vars = [false; 256];
        let mut i: usize = 0;
        while i < polys.len()
            invariant
                i <= polys@.len(),
                vars@.len() == 256,
                forall|u: int| 0 <= u < 256 ==> #[trigger] vars@[u] == mentioned_by(trees(polys@).take(i as int), u),
                (forall|q: int| 0 <= q < polys@.len() ==> only_xy(#[trigger] trees(polys@)[q], x_var, y_var)) ==> forall|
                    u: int,
                | 0 <= u < 256 && #[trigger] vars@[u] ==> u == x_var || u == y_var,
            decreases polys@.len() - i,
        {
            assert(trees(polys@)[i as int] == sv(*polys@[i as int]));
            let ghost before = vars@;
            polys[i].fill_in_variables(&mut vars);
            proof {
                let ts = trees(polys@);
                assert forall|u: int| 0 <= u < 256 implies #[trigger] vars@[u] == mentioned_by(ts.take(i as int + 1), u) by {
                    assert(before[u] == mentioned_by(ts.take(i as int), u));
                    if mentioned_by(ts.take(i as int), u) {
                        let k = choose|k: int| 0 <= k < ts.take(i as int).len() && mentions(#[trigger] ts.take(i as int)[k], u);
                        assert(ts.take(i as int + 1)[k] == ts.take(i as int)[k]);
                    }
                    if mentions(ts[i as int], u) {
                        assert(ts.take(i as int + 1)[i as int] == ts[i as int]);
                    }
                    if mentioned_by(ts.take(i as int + 1), u) {
                        let k = choose|k: int| 0 <= k < ts.take(i as int + 1).len() && mentions(#[trigger] ts.take(i as int + 1)[k], u);
                        if k < i {
                            assert(ts.take(i as int)[k] == ts.take(i as int + 1)[k]);
                        }
                    }
                }
            }
            i = i + 1;
        }
        proof {
            assert(trees(polys@).take(i as int) =~= trees(polys@));
            assert(vars@ =~= Seq::new(256, |u: int| mentioned_by(trees(polys@), u)));
        }
        let ghost n0 = polys@.len();
        let ghost orig = polys@;
        let mut system = polys;
        let mut v: usize = 0;
        let ghost mut chain: Seq<Seq<SPoly>> = seq![trees(orig)];
        while v < 256
            invariant
                v <= 256,
                linear_chain(chain, v as int, x_var, y_var, vars@),
                chain[0] == trees(orig),
                chain[v as int] == trees(system@),
                vars@.len() == 256,
                system_ok(system@),
                system@.len() <= n0,
                vars@ == Seq::new(256, |u: int| mentioned_by(trees(orig), u)),
                system@.len() + marked_count(vars@, x_var, y_var, v as int) >= n0,
                orig == polys@,
                (forall|q: int| 0 <= q < orig.len() ==> only_xy(#[trigger] trees(orig)[q], x_var, y_var)) ==> forall|
                    u: int,
                | 0 <= u < 256 && #[trigger] vars@[u] ==> u == x_var || u == y_var,
                (forall|q: int| 0 <= q < orig.len() ==> only_xy(#[trigger] trees(orig)[q], x_var, y_var)) ==> system@
                    == orig,
                forall|env: spec_fn(u8) -> int| #[trigger] common_zero(trees(orig), env) ==> common_zero(
                    trees(system@),
                    env,
                ),
                system@.len() < n0 || system@ == orig,
                system_ok(orig),
                has_linear_below(trees(orig), x_var, y_var, v as int) ==> system@.len() < n0,
            decreases 256 - v,
        {
            let ghost sys0 = system@;
            proof {
                if has_linear_below(trees(orig), x_var, y_var, v as int + 1) && !has_linear_below(
                    trees(orig),
                    x_var,
                    y_var,
                    v as int,
                ) {
                    let (i, u) = choose|i: int, u: u8|
                        0 <= i < trees(orig).len() && u < v + 1 && u != x_var && u != y_var && #[trigger] single(
                            trees(orig)[i],
                            u,
                        ) is Linear;
                    assert(u == v);
                    lemma_canonical_ordered(trees(orig)[i]);
                    lemma_single_linear_mentions(trees(orig)[i], u);
                    assert(mentioned_by(trees(orig), u as int));
                    assert(vars@[v as int]);
                }
            }
            if vars[v] && v != x_var as usize && v != y_var as usize {
                assert(vars@[v as int]);
                let var = v as u8;
                let mut found: usize = system.len();
                let mut lin_poly: Rc<Poly> = Rc::new(Poly::Constant(0));
                let mut lin_k: i64 = 0;
                let mut j: usize = 0;
                while j < system.len()
                    invariant_except_break
                        found == system@.len(),
                        forall|q: int| 0 <= q < j ==> !(#[trigger] single(trees(system@)[q], var) is Linear),
                    invariant
                        j <= system@.len(),
                        system_ok(system@),
                        orig == polys@,
                        !(forall|q: int| 0 <= q < orig.len() ==> only_xy(#[trigger] trees(orig)[q], x_var, y_var)),
                    ensures
                        found <= system@.len(),
                        found == system@.len() ==> forall|q: int|
                            0 <= q < system@.len() ==> !(#[trigger] single(trees(system@)[q], var) is Linear),
                        found < system@.len() ==> ordered(rc_tree(&lin_poly)),
                        found < system@.len() ==> first_linear(trees(system@), var, found as int),
                        found < system@.len() ==> single(trees(system@)[found as int], var) == SingleOutV::Linear(
                            rc_tree(&lin_poly),
                            lin_k as int,
                        ),
                    decreases system@.len() - j,
                {
                    let p: &Poly = &system[j];
                    assert(trees(system@)[j as int] == sv(*p));
                    if !fits_single(p, var) {
                        return Err(overflow_text());
                    }
                    match p.single_out(var) {
                        SingleOutResult::Linear(q, k) => {
                            proof {
                                lemma_canonical_ordered(sv(*p));
                                lemma_single_linear_ordered(sv(*p), var);
                            }
                            lin_poly = q;
                            lin_k = k;
                            found = j;
                            break;
                        },
                        _ => {},
                    }
                    j = j + 1;
                }
                proof {
                    if has_linear_below(trees(orig), x_var, y_var, v as int + 1) && !has_linear_below(
                        trees(orig),
                        x_var,
                        y_var,
                        v as int,
                    ) && system@ == orig {
                        let (i, u) = choose|i: int, u: u8|
                            0 <= i < trees(orig).len() && u < v + 1 && u != x_var && u != y_var && #[trigger] single(
                                trees(orig)[i],
                                u,
                            ) is Linear;
                        assert(u == var);
                        assert(found < system@.len());
                    }
                }
                if found < system.len() {
                    let mut new_polys: Vec<Rc<Poly>> = Vec::new();
                    let mut j: usize = 0;
                    while j < system.len()
                        invariant
                            j <= system@.len(),
                            (found as int) < system@.len(),
                            system_ok(system@),
                            system_ok(new_polys@),
                            new_polys@.len() == (if j > found { j - 1 } else { j as int }),
                            forall|t: int|
                                0 <= t < new_polys@.len() ==> substituted(
                                    trees(system@)[skip_index(t, found as int)],
                                    var,
                                    rc_tree(&lin_poly),
                                    lin_k as int,
                                    #[trigger] trees(new_polys@)[t],
                                ),
                            ordered(rc_tree(&lin_poly)),
                            single(trees(system@)[found as int], var) == SingleOutV::Linear(
                                rc_tree(&lin_poly),
                                lin_k as int,
                            ),
                            forall|env: spec_fn(u8) -> int| #[trigger] common_zero(trees(orig), env) ==> common_zero(
                                trees(system@),
                                env,
                            ) && common_zero(trees(new_polys@), env),
                            orig == polys@,
                            !(forall|q: int| 0 <= q < orig.len() ==> only_xy(#[trigger] trees(orig)[q], x_var, y_var)),
                        decreases system@.len() - j,
                    {
                        if j != found {
                            let p: &Rc<Poly> = &system[j];
                            assert(trees(system@)[j as int] == sv(**p));
                            let ghost before = new_polys@;
                            if !fits_single(p, var) {
                                return Err(overflow_text());
                            }
                            match p.single_out(var) {
                                SingleOutResult::Constant => {
                                    new_polys.push(Rc::clone(p));
                                },
                                _ => {
                                    proof {
                                        lemma_canonical_ordered(rc_tree(p));
                                    }
                                    let q = match p.substitute_linear(var, Rc::clone(&lin_poly), lin_k) {
                                        Some(q) => q,
                                        None => {
                                            return Err(overflow_text());
                                        },
                                    };
                                    proof {
                                        let t = choose|t: SPoly| #![trigger large_reduced(t)]
                                            canonical(t) && no_min_coeff(t) && sv(q) == large_reduced(t) && forall|
                                                env: spec_fn(u8) -> int,
                                            | #[trigger] eval(t, env) == linear_sub_value(
                                                rc_tree(p),
                                                var,
                                                rc_tree(&lin_poly),
                                                lin_k as int,
                                                env,
                                            );
                                        lemma_large_reduced_ordered(t);
                                        let ls = trees(system@)[found as int];
                                        lemma_canonical_ordered(ls);
                                        assert forall|env: spec_fn(u8) -> int| #[trigger] common_zero(trees(orig), env)
                                            implies eval(sv(q), env) == 0 by {
                                            assert(common_zero(trees(system@), env));
                                            assert(eval(ls, env) == 0);
                                            assert(eval(trees(system@)[j as int], env) == 0);
                                            law_single_linear(ls, var, env);
                                            law_linear_substitution(rc_tree(p), var, rc_tree(&lin_poly), lin_k as int, env);
                                            let kd = pow(lin_k as int, degree_in(rc_tree(p), var) as nat);
                                            assert(kd * 0 == 0) by (nonlinear_arith);
                                            assert(eval(t, env) == 0);
                                            lemma_reduction_keeps_zero(t, env);
                                        }
                                    }
                                    if !q.degrees_ok() {
                                        return Err(overflow_text());
                                    }
                                    new_polys.push(Rc::new(q));
                                },
                            }
                            proof {
                                assert(skip_index(before.len() as int, found as int) == j);
                                assert forall|t: int| 0 <= t < new_polys@.len() implies substituted(
                                    trees(system@)[skip_index(t, found as int)],
                                    var,
                                    rc_tree(&lin_poly),
                                    lin_k as int,
                                    #[trigger] trees(new_polys@)[t],
                                ) by {
                                    if t < before.len() {
                                        assert(new_polys@[t] == before[t]);
                                        assert(trees(new_polys@)[t] == trees(before)[t]);
                                    }
                                }
                                assert forall|q: int| 0 <= q < new_polys@.len() implies canonical(
                                    #[trigger] trees(new_polys@)[q],
                                ) && degrees_fit(trees(new_polys@)[q]) by {
                                    if q < before.len() {
                                        assert(new_polys@[q] == before[q]);
                                        assert(trees(new_polys@)[q] == trees(before)[q]);
                                    }
                                }
                                assert forall|env: spec_fn(u8) -> int| #[trigger] common_zero(trees(orig), env) implies common_zero(
                                    trees(new_polys@),
                                    env,
                                ) by {
                                    assert(common_zero(trees(system@), env));
                                    assert(common_zero(trees(before), env));
                                    assert(eval(trees(system@)[j as int], env) == 0);
                                    assert forall|q: int| 0 <= q < new_polys@.len() implies eval(
                                        #[trigger] trees(new_polys@)[q],
                                        env,
                                    ) == 0 by {
                                        if q < before.len() {
                                            assert(trees(new_polys@)[q] == trees(before)[q]);
                                        }
                                    }
                                }
                            }
                        }
                        j = j + 1;
                    }
                    proof {
                        let s0 = trees(sys0);
                        assert(first_linear(s0, var, found as int));
                        let f = choose|f: int| #[trigger] first_linear(s0, var, f);
                        lemma_first_linear_unique(s0, var, f, found as int);
                        assert(linear_step(s0, trees(new_polys@), v as int, x_var, y_var, vars@));
                    }
                    system = new_polys;
                }
                proof {
                    let s0 = trees(sys0);
                    if found >= sys0.len() {
                        assert forall|f: int| !#[trigger] first_linear(s0, var, f) by {
                            if 0 <= f < s0.len() {
                                assert(!(single(s0[f], var) is Linear));
                            }
                        }
                    }
                    assert(linear_step(s0, trees(system@), v as int, x_var, y_var, vars@));
                }
            }
            proof {
                let s1 = trees(system@);
                assert(linear_step(trees(sys0), s1, v as int, x_var, y_var, vars@));
                let old_chain = chain;
                chain = chain.push(s1);
                assert forall|u: int| 0 <= u < v + 1 implies #[trigger] linear_step(
                    chain[u],
                    chain[u + 1],
                    u,
                    x_var,
                    y_var,
                    vars@,
                ) by {
                    if u < v {
                        assert(chain[u] == old_chain[u]);
                        assert(chain[u + 1] == old_chain[u + 1]);
                    }
                }
            }
            v = v + 1;
        }
        proof {
            assert(vars@ == mentioned_vars(trees(orig)));
            assert(linear_chain(chain, 256, x_var, y_var, mentioned_vars(trees(polys@))));
        }
        Ok(system)
    }

    /// The polynomials that bear on `x_var` and `y_var` (see
    /// `retain_relevant_polys`) stay canonical.
    pub fn relevant_system(polys: Vec<Rc<Poly>>, x_var: u8, y_var: u8) -> (r: Vec<Rc<Poly>>)
        requires
            system_ok(polys@),
        ensures
            system_ok(r@),
            exists|keep: Seq<bool>|
                {
                    &&& keep.len() == polys@.len()
                    &&& r@ == select(polys@, keep, keep.len() as int)
                    &&& closed_under_touch(trees(polys@), x_var, y_var, kept_set(keep))
                    &&& forall|t: Set<int>| #[trigger]
                        closed_under_touch(trees(polys@), x_var, y_var, t) ==> kept_set(keep).subset_of(t)
                },
    {
        let ghost ps = polys@;
        let r = Poly::retain_relevant_polys(polys, x_var, y_var);
        proof {
            let keep = choose|keep: Seq<bool>|
                {
                    &&& keep.len() == ps.len()
                    &&& r@ == select(ps, keep, keep.len() as int)
                    &&& closed_under_touch(trees(ps), x_var, y_var, kept_set(keep))
                    &&& forall|t: Set<int>| #[trigger]
                        closed_under_touch(trees(ps), x_var, y_var, t) ==> kept_set(keep).subset_of(t)
                };
            lemma_select_system_ok(ps, keep, keep.len() as int);
        }
        r
    }
}

} // verus!
