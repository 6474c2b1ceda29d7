//! Structural operations on polynomials: derivatives, splitting off powers
//! of a variable, and reading a polynomial as linear in a variable.

use vstd::prelude::*;
use std::rc::Rc;
use crate::poly::{Poly, sv, sv_kids, lemma_kid_smaller};
use crate::spoly::{
    SPoly, above, bounded, canonical, cleaned, eval, eval_at, eval_from, is_zero, lemma_eval_from_lin, max_abs,
    ordered, scale_fits, scaled, size, size_from, above_eq, lemma_size_pos, lemma_bounded_mono, lemma_eval_zero_prefix,
    lemma_eval_from_single, partial_value, lemma_partial_value, lemma_size_from_nonneg, lemma_canonical_ordered,
    lemma_max_abs, lemma_max_abs_least, abs,
};
use vstd::arithmetic::power::pow;
use crate::poly::{lemma_mul3_mono};
use crate::poly_ops::{degree_in, degree_max};

verus! {

/// The coefficients `(i + 1) * cs[i + 1]`, for `i` below `cs.len() - 1`.
pub open spec fn deriv_kids(cs: Seq<SPoly>) -> Seq<SPoly> {
    Seq::new(
        (if cs.len() >= 1 { cs.len() - 1 } else { 0 }) as nat,
        |i: int| if 0 <= i && i + 1 < cs.len() { scaled(cs[i + 1], i + 1) } else { SPoly::Constant(0) },
    )
}

/// The derivative by variable `v`, each node brought to its normal form.
pub open spec fn deriv(s: SPoly, v: u8) -> SPoly
    decreases s,
{
    match s {
        SPoly::Constant(_) => SPoly::Constant(0),
        SPoly::Nested(w, cs) => if w > v {
            SPoly::Constant(0)
        } else if w == v {
            cleaned(SPoly::Nested(w, deriv_kids(cs)))
        } else {
            cleaned(SPoly::Nested(w, deriv_map(cs, v)))
        },
    }
}

/// The derivatives of the coefficients.
pub open spec fn deriv_map(cs: Seq<SPoly>, v: u8) -> Seq<SPoly>
    decreases cs,
{
    Seq::new(cs.len(), |i: int| if 0 <= i < cs.len() { deriv(cs[i], v) } else { SPoly::Constant(0) })
}

/// The products of the derivative fit in an `i64`, and every node of the
/// variable has a coefficient.
pub open spec fn deriv_fits(s: SPoly, v: u8) -> bool
    decreases s,
{
    match s {
        SPoly::Constant(_) => true,
        SPoly::Nested(w, cs) => if w > v {
            true
        } else if w == v {
            1 <= cs.len() <= i64::MAX && forall|i: int| #![trigger cs[i]] 1 <= i < cs.len() ==> scale_fits(cs[i], i)
        } else {
            forall|i: int| #![trigger cs[i]] 0 <= i < cs.len() ==> deriv_fits(cs[i], v)
        },
    }
}

impl Poly {
    /// The derivative by variable `v` (see `deriv`).
    pub fn get_derivative(&self, v: u8) -> (r: Poly)
        requires
            deriv_fits(sv(*self), v),
        ensures
            sv(r) == deriv(sv(*self), v),
        decreases size(sv(*self)),
    {
        match self {
            Poly::Constant(_) => Poly::Constant(0),
            Poly::Nested(v1, polys) => {
                let ghost kids = sv_kids(polys@);
                if *v1 > v {
                    Poly::Constant(0)
                } else if *v1 == v {
                    let ghost target = deriv_kids(kids);
                    let mut new_polys: Vec<Rc<Poly>> = Vec::new();
                    let mut i: usize = 0;
                    let n1: usize = polys.len() - 1;
                    while i < n1
                        invariant
                            n1 == polys@.len() - 1,
                            i <= n1,
                            *self == Poly::Nested(*v1, *polys),
                            kids == sv_kids(polys@),
                            target == deriv_kids(kids),
                            deriv_fits(sv(*self), v),
                            *v1 == v,
                            i <= polys@.len(),
                            polys@.len() >= 1,
                            new_polys@.len() == i,
                            forall|j: int| 0 <= j < i ==> sv(*#[trigger] new_polys@[j]) == target[j],
                        decreases polys@.len() - i,
                    {
                        assert(scale_fits(kids[i + 1], i + 1));
                        let child: &Poly = &polys[i + 1];
                        let c = child.scaled_poly((i + 1) as i64);
                        new_polys.push(Rc::new(c));
                        i = i + 1;
                    }
                    let r0 = Poly::Nested(*v1, new_polys);
                    assert(sv_kids(new_polys@) =~= target);
                    r0.cleaned_poly()
                } else {
                    let ghost target = deriv_map(kids, v);
                    let mut new_polys: Vec<Rc<Poly>> = Vec::new();
                    let mut i: usize = 0;
                    while i < polys.len()
                        invariant
                            *self == Poly::Nested(*v1, *polys),
                            kids == sv_kids(polys@),
                            target == deriv_map(kids, v),
                            deriv_fits(sv(*self), v),
                            *v1 < v,
                            i <= polys@.len(),
                            new_polys@.len() == i,
                            forall|j: int| 0 <= j < i ==> sv(*#[trigger] new_polys@[j]) == target[j],
                        decreases polys@.len() - i,
                    {
                        proof {
                            lemma_kid_smaller(*self, i as int);
                            assert(deriv_fits(kids[i as int], v));
                        }
                        let child: &Poly = &polys[i];
                        let d = child.get_derivative(v);
                        new_polys.push(Rc::new(d));
                        i = i + 1;
                    }
                    let r0 = Poly::Nested(*v1, new_polys);
                    assert(sv_kids(new_polys@) =~= target);
                    r0.cleaned_poly()
                }
            },
        }
    }
}

} // verus!

verus! {

/// The factor of `v^d` and the remainder below it, as a pair of trees.
pub open spec fn split_at(s: SPoly, v: u8, d: int) -> (SPoly, SPoly)
    decreases s,
{
    match s {
        SPoly::Constant(_) => (SPoly::Constant(0), s),
        SPoly::Nested(w, cs) => if w > v {
            (SPoly::Constant(0), s)
        } else if w < v {
            (cleaned(SPoly::Nested(w, firsts(split_map(cs, v, d)))), cleaned(SPoly::Nested(w, seconds(split_map(cs, v, d)))))
        } else {
            (
                if d >= cs.len() { SPoly::Constant(0) } else { cleaned(SPoly::Nested(w, cs.skip(d))) },
                cleaned(SPoly::Nested(w, cs.take(if d < cs.len() { d } else { cs.len() as int }))),
            )
        },
    }
}

/// `split_at` of each coefficient.
pub open spec fn split_map(cs: Seq<SPoly>, v: u8, d: int) -> Seq<(SPoly, SPoly)>
    decreases cs,
{
    Seq::new(
        cs.len(),
        |i: int| if 0 <= i < cs.len() { split_at(cs[i], v, d) } else { (SPoly::Constant(0), SPoly::Constant(0)) },
    )
}

/// The first parts of a list of pairs.
pub open spec fn firsts(ps: Seq<(SPoly, SPoly)>) -> Seq<SPoly> {
    Seq::new(ps.len(), |i: int| ps[i].0)
}

/// The second parts of a list of pairs.
pub open spec fn seconds(ps: Seq<(SPoly, SPoly)>) -> Seq<SPoly> {
    Seq::new(ps.len(), |i: int| ps[i].1)
}

impl Poly {
    /// Splits the polynomial into a factor of `v^degree` and what is left:
    /// `self == factor * v^degree + remainder` (see `split_at`).
    pub fn extract_factor_and_remainder(&self, v: u8, degree: u32) -> (r: (Rc<Poly>, Rc<Poly>))
        ensures
            (sv(*r.0), sv(*r.1)) == split_at(sv(*self), v, degree as int),
        decreases size(sv(*self)),
    {
        match self {
            Poly::Constant(_) => (Rc::new(Poly::Constant(0)), Rc::new(self.copy())),
            Poly::Nested(v1, polys1) => {
                let ghost kids = sv_kids(polys1@);
                if *v1 > v {
                    (Rc::new(Poly::Constant(0)), Rc::new(self.copy()))
                } else if *v1 < v {
                    let ghost target = split_map(kids, v, degree as int);
                    let mut factor_polys: Vec<Rc<Poly>> = Vec::new();
                    let mut remainder_polys: Vec<Rc<Poly>> = Vec::new();
                    let mut i: usize = 0;
                    while i < polys1.len()
                        invariant
                            *self == Poly::Nested(*v1, *polys1),
                            kids == sv_kids(polys1@),
                            target == split_map(kids, v, degree as int),
                            i <= polys1@.len(),
                            factor_polys@.len() == i,
                            remainder_polys@.len() == i,
                            forall|j: int| 0 <= j < i ==> (sv(*#[trigger] factor_polys@[j]), sv(*remainder_polys@[j]))
                                == target[j],
                        decreases polys1@.len() - i,
                    {
                        proof {
                            lemma_kid_smaller(*self, i as int);
                        }
                        let child: &Poly = &polys1[i];
                        let (f, r) = child.extract_factor_and_remainder(v, degree);
                        factor_polys.push(f);
                        remainder_polys.push(r);
                        i = i + 1;
                    }
                    assert(sv_kids(factor_polys@) =~= firsts(target));
                    assert forall|j: int| 0 <= j < remainder_polys@.len() implies sv(*#[trigger] remainder_polys@[j])
                        == target[j].1 by {
                        assert((sv(*factor_polys@[j]), sv(*remainder_polys@[j])) == target[j]);
                    }
                    assert(sv_kids(remainder_polys@) =~= seconds(target));
                    let p1 = Poly::Nested(*v1, factor_polys);
                    let p2 = Poly::Nested(*v1, remainder_polys);
                    (Rc::new(p1.cleaned_poly()), Rc::new(p2.cleaned_poly()))
                } else {
                    let d = degree as usize;
                    let len = polys1.len();
                    let upto = if d < len { d } else { len };
                    let mut low: Vec<Rc<Poly>> = Vec::new();
                    let mut i: usize = 0;
                    while i < upto
                        invariant
                            i <= upto <= polys1@.len(),
                            low@ == polys1@.take(i as int),
                        decreases upto - i,
                    {
                        low.push(Rc::clone(&polys1[i]));
                        assert(polys1@.take(i as int + 1) =~= polys1@.take(i as int).push(polys1@[i as int]));
                        i = i + 1;
                    }
                    assert(sv_kids(low@) =~= kids.take(upto as int));
                    let remainder = Poly::Nested(*v1, low).cleaned_poly();
                    let factor = if d >= len {
                        Poly::Constant(0)
                    } else {
                        let mut high: Vec<Rc<Poly>> = Vec::new();
                        let mut j: usize = d;
                        while j < len
                            invariant
                                d <= j <= len,
                                len == polys1@.len(),
                                high@ == polys1@.subrange(d as int, j as int),
                            decreases len - j,
                        {
                            high.push(Rc::clone(&polys1[j]));
                            assert(polys1@.subrange(d as int, j as int + 1) =~= polys1@.subrange(d as int, j as int).push(
                                polys1@[j as int],
                            ));
                            j = j + 1;
                        }
                        assert(sv_kids(high@) =~= kids.skip(d as int));
                        Poly::Nested(*v1, high).cleaned_poly()
                    };
                    (Rc::new(factor), Rc::new(remainder))
                }
            },
        }
    }
}

/// The result of reading a polynomial as linear in a variable.
#[derive(Debug, Clone)]
pub enum SingleOutResult {
    /// The variable does not occur.
    Constant,
    /// The polynomial is `p - k * v`, with `p` free of `v`.
    Linear(Rc<Poly>, i64),
    /// Anything else.
    Nonlinear,
}

/// A single-out result as plain values.
pub enum SingleOutV {
    Constant,
    Linear(SPoly, int),
    Nonlinear,
}

impl View for SingleOutResult {
    type V = SingleOutV;

    open spec fn view(&self) -> SingleOutV {
        match self {
            SingleOutResult::Constant => SingleOutV::Constant,
            SingleOutResult::Linear(p, k) => SingleOutV::Linear(sv(**p), *k as int),
            SingleOutResult::Nonlinear => SingleOutV::Nonlinear,
        }
    }
}

/// How a tree reads in variable `v`: not at all, as `p - k * v` with `p`
/// free of `v` and `k` a constant, or otherwise.
pub open spec fn single(s: SPoly, v: u8) -> SingleOutV
    decreases s,
{
    match s {
        SPoly::Constant(_) => SingleOutV::Constant,
        SPoly::Nested(w, cs) => if w > v {
            SingleOutV::Constant
        } else if w == v {
            if cs.len() == 2 && cs[1] is Constant {
                SingleOutV::Linear(cs[0], -cs[1]->Constant_0)
            } else {
                SingleOutV::Nonlinear
            }
        } else {
            let rs = single_map(cs, v);
            let rest_constant = forall|k: int| 1 <= k < rs.len() ==> #[trigger] rs[k] is Constant;
            match rs[0] {
                SingleOutV::Linear(p, k) => if rest_constant {
                    SingleOutV::Linear(SPoly::Nested(w, cs.update(0, p)), k)
                } else {
                    SingleOutV::Nonlinear
                },
                SingleOutV::Constant => if rest_constant {
                    SingleOutV::Constant
                } else {
                    SingleOutV::Nonlinear
                },
                SingleOutV::Nonlinear => SingleOutV::Nonlinear,
            }
        },
    }
}

/// `single` of each coefficient.
pub open spec fn single_map(cs: Seq<SPoly>, v: u8) -> Seq<SingleOutV>
    decreases cs,
{
    Seq::new(cs.len(), |i: int| if 0 <= i < cs.len() { single(cs[i], v) } else { SingleOutV::Nonlinear })
}

/// Reading in `v` does not negate `i64::MIN`, and every node below `v` has a coefficient.
pub open spec fn single_fits(s: SPoly, v: u8) -> bool
    decreases s,
{
    match s {
        SPoly::Constant(_) => true,
        SPoly::Nested(w, cs) => if w > v {
            true
        } else if w == v {
            cs.len() == 2 && cs[1] is Constant ==> cs[1]->Constant_0 > i64::MIN
        } else {
            cs.len() >= 1 && forall|i: int| #![trigger cs[i]] 0 <= i < cs.len() ==> single_fits(cs[i], v)
        },
    }
}

impl Poly {
    /// Reads the polynomial as linear in `v` (see `single`).
    pub fn single_out(&self, v: u8) -> (r: SingleOutResult)
        requires
            single_fits(sv(*self), v),
        ensures
            r@ == single(sv(*self), v),
        decreases size(sv(*self)),
    {
        match self {
            Poly::Constant(_) => SingleOutResult::Constant,
            Poly::Nested(v1, polys) => {
                let ghost kids = sv_kids(polys@);
                if *v1 > v {
                    SingleOutResult::Constant
                } else if *v1 == v {
                    if polys.len() == 2 {
                        match &*polys[1] {
                            Poly::Constant(c) => {
                                assert(kids[1] == sv(*polys@[1]));
                                SingleOutResult::Linear(Rc::clone(&polys[0]), -*c)
                            },
                            _ => SingleOutResult::Nonlinear,
                        }
                    } else {
                        SingleOutResult::Nonlinear
                    }
                } else {
                    let ghost target = single_map(kids, v);
                    let mut results: Vec<SingleOutResult> = Vec::new();
                    let mut i: usize = 0;
                    while i < polys.len()
                        invariant
                            *self == Poly::Nested(*v1, *polys),
                            kids == sv_kids(polys@),
                            target == single_map(kids, v),
                            single_fits(sv(*self), v),
                            *v1 < v,
                            i <= polys@.len(),
                            results@.len() == i,
                            forall|j: int| 0 <= j < i ==> (#[trigger] results@[j])@ == target[j],
                        decreases polys@.len() - i,
                    {
                        proof {
                            lemma_kid_smaller(*self, i as int);
                            assert(single_fits(kids[i as int], v));
                        }
                        let child: &Poly = &polys[i];
                        results.push(child.single_out(v));
                        i = i + 1;
                    }
                    let mut rest_constant = true;
                    let mut k: usize = 1;
                    while k < results.len()
                        invariant
                            1 <= k <= results@.len() || results@.len() == 0,
                            results@.len() == target.len(),
                            forall|j: int| 0 <= j < results@.len() ==> (#[trigger] results@[j])@ == target[j],
                            rest_constant == forall|j: int| 1 <= j < k ==> #[trigger] target[j] is Constant,
                        decreases results@.len() - k,
                    {
                        match &results[k] {
                            SingleOutResult::Constant => {},
                            _ => {
                                rest_constant = false;
                            },
                        }
                        proof {
                            assert(results@[k as int]@ == target[k as int]);
                        }
                        k = k + 1;
                    }
                    assert(rest_constant == forall|j: int| 1 <= j < target.len() ==> #[trigger] target[j] is Constant);
                    assert(results@[0]@ == target[0]);
                    match &results[0] {
                        SingleOutResult::Linear(p, kk) => {
                            if rest_constant {
                                let mut new_polys: Vec<Rc<Poly>> = Vec::new();
                                new_polys.push(Rc::clone(p));
                                let mut j: usize = 1;
                                while j < polys.len()
                                    invariant
                                        1 <= j <= polys@.len(),
                                        new_polys@.len() == j,
                                        new_polys@[0] == *p,
                                        forall|q: int| 1 <= q < j ==> #[trigger] new_polys@[q] == polys@[q],
                                    decreases polys@.len() - j,
                                {
                                    new_polys.push(Rc::clone(&polys[j]));
                                    j = j + 1;
                                }
                                assert(sv_kids(new_polys@) =~= kids.update(0, sv(**p)));
                                SingleOutResult::Linear(Rc::new(Poly::Nested(*v1, new_polys)), *kk)
                            } else {
                                SingleOutResult::Nonlinear
                            }
                        },
                        SingleOutResult::Constant => {
                            if rest_constant {
                                SingleOutResult::Constant
                            } else {
                                SingleOutResult::Nonlinear
                            }
                        },
                        SingleOutResult::Nonlinear => SingleOutResult::Nonlinear,
                    }
                }
            },
        }
    }
}

} // verus!

verus! {

/// The coefficient of `v^i` in a tree, as a tree.
pub open spec fn coef_tree(s: SPoly, v: u8, i: int) -> SPoly
    decreases s,
{
    match s {
        SPoly::Constant(_) => if i == 0 { s } else { SPoly::Constant(0) },
        SPoly::Nested(w, cs) => if w > v {
            if i == 0 { s } else { SPoly::Constant(0) }
        } else if w == v {
            if 0 <= i < cs.len() { cs[i] } else { SPoly::Constant(0) }
        } else {
            SPoly::Nested(w, coef_map(cs, v, i))
        },
    }
}

/// `coef_tree` of each coefficient.
pub open spec fn coef_map(cs: Seq<SPoly>, v: u8, i: int) -> Seq<SPoly>
    decreases cs,
{
    Seq::new(cs.len(), |k: int| if 0 <= k < cs.len() { coef_tree(cs[k], v, i) } else { SPoly::Constant(0) })
}

/// Beyond the degree of `v`, the coefficients are worth zero.
pub proof fn lemma_coef_beyond(s: SPoly, v: u8, i: int, env: spec_fn(u8) -> int)
    requires
        i > degree_in(s, v),
    ensures
        eval(coef_tree(s, v, i), env) == 0,
    decreases s, 0int,
{
    match s {
        SPoly::Constant(_) => {
            assert(i > 0);
        },
        SPoly::Nested(w, cs) => {
            if w < v {
                let ms = coef_map(cs, v, i);
                lemma_degree_max_bound(cs, v, cs.len() as int);
                assert forall|k: int| 0 <= k < ms.len() implies #[trigger] eval(ms[k], env) == eval_at(
                    Seq::<SPoly>::empty(),
                    k,
                    env,
                ) + 0 * eval_at(ms, k, env) by {
                    lemma_degree_max_bound(cs, v, cs.len() as int);
                    lemma_coef_beyond(cs[k], v, i, env);
                }
                lemma_eval_from_lin(ms, Seq::<SPoly>::empty(), ms, 0, w, env, 0);
                assert(eval_from(Seq::<SPoly>::empty(), w, env, 0) == 0);
            } else if w > v {
                assert(i > 0);
            }
        },
    }
}

/// Degrees in ordered trees are not negative.
pub proof fn lemma_degree_nonneg(s: SPoly, v: u8)
    requires
        ordered(s),
    ensures
        degree_in(s, v) >= 0,
    decreases s, 0int,
{
    match s {
        SPoly::Constant(_) => {},
        SPoly::Nested(w, cs) => {
            if w < v {
                lemma_degree_max_nonneg(cs, v, cs.len() as int);
            }
        },
    }
}

/// The largest degree among coefficients of an ordered tree is not negative.
pub proof fn lemma_degree_max_nonneg(cs: Seq<SPoly>, v: u8, n: int)
    requires
        forall|i: int| #![trigger cs[i]] 0 <= i < cs.len() ==> ordered(cs[i]),
    ensures
        degree_max(cs, v, n) >= 0,
    decreases cs, n,
{
    if 0 < n <= cs.len() {
        lemma_degree_max_nonneg(cs, v, n - 1);
        lemma_degree_nonneg(cs[n - 1], v);
    }
}

/// Every coefficient's degree is at most the largest.
pub proof fn lemma_degree_max_bound(cs: Seq<SPoly>, v: u8, n: int)
    requires
        0 <= n <= cs.len(),
    ensures
        forall|k: int| 0 <= k < n ==> degree_in(#[trigger] cs[k], v) <= degree_max(cs, v, n),
    decreases n,
{
    if n > 0 {
        lemma_degree_max_bound(cs, v, n - 1);
    }
}

} // verus!

verus! {

/// The tree of a shared polynomial.
pub open spec fn rc_tree(t: &Rc<Poly>) -> SPoly {
    sv(**t)
}

impl Poly {
    /// `t` times `w^k`, as the node in `w` with `k` zero coefficients before `t`.
    fn power_term(t: &Rc<Poly>, w: u8, k: usize) -> (r: Poly)
        requires
            ordered(sv(**t)),
            above(sv(**t), w),
        ensures
            ordered(sv(r)),
            sv(r) is Nested,
            sv(r)->Nested_0 == w,
            forall|env: spec_fn(u8) -> int| #[trigger] eval(sv(r), env) == pow(env(w), k as nat) * eval(sv(**t), env),
            forall|b: int| b >= 0 && bounded(sv(**t), b) ==> #[trigger] bounded(sv(r), b),
    {
        let mut es: Vec<Rc<Poly>> = Vec::new();
        let mut i: usize = 0;
        while i < k
            invariant
                i <= k,
                es@.len() == i,
                forall|q: int| 0 <= q < i ==> sv(*#[trigger] es@[q]) == SPoly::Constant(0),
            decreases k - i,
        {
            es.push(Rc::new(Poly::Constant(0)));
            i = i + 1;
        }
        let ghost tail = seq![rc_tree(t)];
        es.push(Rc::clone(t));
        let r = Poly::Nested(w, es);
        proof {
            let ke = sv_kids(es@);
            assert forall|q: int| 0 <= q < tail.len() implies #[trigger] ke[k + q] == tail[q] by {}
            assert forall|q: int| 0 <= q < k implies #[trigger] ke[q] == SPoly::Constant(0) by {}
            assert forall|q: int| 0 <= q < ke.len() implies above(#[trigger] ke[q], w) && ordered(ke[q]) by {}
            assert forall|env: spec_fn(u8) -> int| #[trigger] eval(sv(r), env) == pow(env(w), k as nat) * eval(sv(**t), env) by {
                lemma_eval_zero_prefix(ke, tail, w, env, k as int, 0);
                lemma_eval_from_single(tail, w, env);
            }
            assert forall|b: int| b >= 0 && bounded(sv(**t), b) implies #[trigger] bounded(sv(r), b) by {
                assert forall|q: int| 0 <= q < ke.len() implies bounded(#[trigger] ke[q], b) by {}
            }
        }
        r
    }

    /// The coefficients of the powers of `v`; `m` bounds the constants.
    #[verifier::rlimit(60)]
    fn decompose_rec(&self, v: u8, Ghost(m): Ghost<int>) -> (r: Vec<Rc<Poly>>)
        requires
            ordered(sv(*self)),
            m >= 0,
            bounded(sv(*self), m),
            size(sv(*self)) * m <= i64::MAX,
        ensures
            r@.len() == degree_in(sv(*self), v) + 1,
            forall|i: int| 0 <= i < r@.len() ==> ordered(sv(*#[trigger] r@[i])),
            forall|i: int| 0 <= i < r@.len() ==> bounded(sv(*#[trigger] r@[i]), size(sv(*self)) * m),
            forall|i: int, u: u8| 0 <= i < r@.len() && above(sv(*self), u) ==> #[trigger] above(sv(*r@[i]), u),
            forall|i: int, env: spec_fn(u8) -> int| 0 <= i < r@.len() ==> #[trigger] eval(sv(*r@[i]), env) == eval(
                coef_tree(sv(*self), v, i),
                env,
            ),
        decreases size(sv(*self)), 1int,
    {
        proof {
            lemma_size_pos(sv(*self));
            lemma_mul3_mono(1, size(sv(*self)), m, 1);
        }
        match self {
            Poly::Constant(_) => {
                let mut r: Vec<Rc<Poly>> = Vec::new();
                r.push(Rc::new(self.copy()));
                proof {
                    lemma_bounded_mono(sv(*self), m, size(sv(*self)) * m);
                }
                r
            },
            Poly::Nested(w, polys1) => {
                let ghost kids = sv_kids(polys1@);
                if *w > v {
                    let mut r: Vec<Rc<Poly>> = Vec::new();
                    r.push(Rc::new(self.copy()));
                    proof {
                        lemma_bounded_mono(sv(*self), m, size(sv(*self)) * m);
                    }
                    r
                } else if *w == v {
                    let mut r: Vec<Rc<Poly>> = Vec::new();
                    let mut i: usize = 0;
                    while i < polys1.len()
                        invariant
                            *self == Poly::Nested(*w, *polys1),
                            kids == sv_kids(polys1@),
                            ordered(sv(*self)),
                            bounded(sv(*self), m),
                            m >= 0,
                            m <= size(sv(*self)) * m,
                            i <= polys1@.len(),
                            r@ == polys1@.take(i as int),
                        decreases polys1@.len() - i,
                    {
                        r.push(Rc::clone(&polys1[i]));
                        assert(polys1@.take(i as int + 1) =~= polys1@.take(i as int).push(polys1@[i as int]));
                        i = i + 1;
                    }
                    proof {
                        assert(polys1@.take(i as int) =~= polys1@);
                        assert forall|i: int| 0 <= i < r@.len() implies bounded(sv(*#[trigger] r@[i]), size(sv(*self)) * m) by {
                            assert(sv(*r@[i]) == kids[i]);
                            lemma_bounded_mono(kids[i], m, size(sv(*self)) * m);
                        }
                        assert forall|i: int, u: u8| 0 <= i < r@.len() && above(sv(*self), u) implies #[trigger] above(sv(*r@[i]), u) by {
                            assert(sv(*r@[i]) == kids[i]);
                        }
                        assert forall|i: int| 0 <= i < r@.len() implies ordered(sv(*#[trigger] r@[i])) by {
                            assert(sv(*r@[i]) == kids[i]);
                        }
                    }
                    r
                } else {
                    Poly::decompose_lower(self, v, Ghost(m))
                }
            },
        }
    }
}


impl Poly {
    /// `decompose_rec` for a node in a variable below `v`: the coefficients of
    /// its coefficients, each shifted to the power of the node's variable
    /// where it stands, and summed.
    #[verifier::rlimit(100)]
    fn decompose_lower(a: &Poly, v: u8, Ghost(m): Ghost<int>) -> (r: Vec<Rc<Poly>>)
        requires
            a is Nested,
            a->Nested_0 < v,
            ordered(sv(*a)),
            m >= 0,
            bounded(sv(*a), m),
            size(sv(*a)) * m <= i64::MAX,
        ensures
            r@.len() == degree_in(sv(*a), v) + 1,
            forall|i: int| 0 <= i < r@.len() ==> ordered(sv(*#[trigger] r@[i])),
            forall|i: int| 0 <= i < r@.len() ==> bounded(sv(*#[trigger] r@[i]), size(sv(*a)) * m),
            forall|i: int, u: u8| 0 <= i < r@.len() && above(sv(*a), u) ==> #[trigger] above(sv(*r@[i]), u),
            forall|i: int, env: spec_fn(u8) -> int| 0 <= i < r@.len() ==> #[trigger] eval(sv(*r@[i]), env) == eval(
                coef_tree(sv(*a), v, i),
                env,
            ),
        decreases size(sv(*a)), 0int,
    {
        let mut result: Vec<Rc<Poly>> = Vec::new();
        match a {
            Poly::Constant(_) => result,
            Poly::Nested(w, polys1) => {
                let ghost kids = sv_kids(polys1@);
                let ghost total = size_from(kids, 0);
                proof {
                    lemma_size_from_nonneg(kids, 0);
                    lemma_mul3_mono(total, size(sv(*a)), m, 1);
                    assert(total * m == total * m * 1);
                    assert(size(sv(*a)) * m == size(sv(*a)) * m * 1);
                }
                let mut k: usize = 0;
                while k < polys1.len()
                    invariant
                        *a == Poly::Nested(*w, *polys1),
                        kids == sv_kids(polys1@),
                        total == size_from(kids, 0),
                        size(sv(*a)) == 1 + total,
                        ordered(sv(*a)),
                        bounded(sv(*a), m),
                        m >= 0,
                        size(sv(*a)) * m <= i64::MAX,
                        total * m <= size(sv(*a)) * m,
                        *w < v,
                        k <= polys1@.len(),
                        0 <= total - size_from(kids, k as int),
                        result@.len() == (if k == 0 { 0 } else { degree_max(kids, v, k as int) + 1 }),
                        forall|i: int| 0 <= i < result@.len() ==> ordered(sv(*#[trigger] result@[i])),
                        forall|i: int| 0 <= i < result@.len() ==> bounded(
                            sv(*#[trigger] result@[i]),
                            (total - size_from(kids, k as int)) * m,
                        ),
                        forall|i: int, u: u8| 0 <= i < result@.len() && *w > u ==> #[trigger] above(sv(*result@[i]), u),
                        forall|i: int, env: spec_fn(u8) -> int| 0 <= i < result@.len() ==> #[trigger] eval(
                            sv(*result@[i]),
                            env,
                        ) == partial_value(coef_map(kids, v, i), k as int, *w, env),
                        forall|i: int, env: spec_fn(u8) -> int| i >= result@.len() ==> #[trigger] partial_value(
                            coef_map(kids, v, i),
                            k as int,
                            *w,
                            env,
                        ) == 0,
                    decreases polys1@.len() - k,
                {
                    let ghost sk = total - size_from(kids, k as int);
                    let ghost ck = size(kids[k as int]);
                    proof {
                        lemma_kid_smaller(*a, k as int);
                        assert(ordered(kids[k as int]) && above(kids[k as int], *w) && bounded(kids[k as int], m));
                        lemma_mul3_mono(ck, size(sv(*a)), m, 1);
                        assert(ck * m == ck * m * 1);
                        lemma_size_from_nonneg(kids, k as int + 1);
                        assert(size_from(kids, k as int) == ck + size_from(kids, k as int + 1));
                        lemma_mul3_mono(sk + ck, total, m, 1);
                        assert((sk + ck) * m == (sk + ck) * m * 1);
                        assert(sk * m + ck * m == (sk + ck) * m) by (nonlinear_arith);
                        lemma_mul3_mono(sk, sk + ck, m, 1);
                        assert(sk * m == sk * m * 1);
                        lemma_mul3_mono(0, ck, m, 1);
                        assert(0 <= ck * m);
                        lemma_degree_max_bound(kids, v, k as int + 1);
                    }
                    let child: &Poly = &polys1[k];
                    let sub = child.decompose_rec(v, Ghost(m));
                    let ghost old_len = result@.len();
                    let mut i: usize = 0;
                    while i < sub.len()
                        invariant
                            *a == Poly::Nested(*w, *polys1),
                            kids == sv_kids(polys1@),
                            k < polys1@.len(),
                            *child == *polys1@[k as int],
                            sv(*child) == kids[k as int],
                            sub@.len() == degree_in(kids[k as int], v) + 1,
                            forall|j: int| 0 <= j < sub@.len() ==> ordered(sv(*#[trigger] sub@[j])),
                            forall|j: int| 0 <= j < sub@.len() ==> bounded(sv(*#[trigger] sub@[j]), ck * m),
                            forall|j: int, u: u8| 0 <= j < sub@.len() && above(kids[k as int], u) ==> #[trigger] above(sv(*sub@[j]), u),
                            forall|j: int, env: spec_fn(u8) -> int| 0 <= j < sub@.len() ==> #[trigger] eval(
                                sv(*sub@[j]),
                                env,
                            ) == eval(coef_tree(kids[k as int], v, j), env),
                            above(kids[k as int], *w),
                            ck == size(kids[k as int]),
                            m >= 0,
                            0 <= sk * m,
                            0 <= ck * m,
                            sk * m + ck * m <= i64::MAX,
                            sk * m <= (sk + ck) * m,
                            sk * m + ck * m == (sk + ck) * m,
                            i <= sub@.len(),
                            result@.len() == (if old_len >= i { old_len as int } else { i as int }),
                            forall|j: int| 0 <= j < result@.len() ==> ordered(sv(*#[trigger] result@[j])),
                            forall|j: int| 0 <= j < i ==> bounded(sv(*#[trigger] result@[j]), (sk + ck) * m),
                            forall|j: int| i <= j < result@.len() ==> bounded(sv(*#[trigger] result@[j]), sk * m),
                            forall|j: int, u: u8| 0 <= j < result@.len() && *w > u ==> #[trigger] above(sv(*result@[j]), u),
                            forall|j: int, env: spec_fn(u8) -> int| 0 <= j < i ==> #[trigger] eval(sv(*result@[j]), env)
                                == partial_value(coef_map(kids, v, j), k as int + 1, *w, env),
                            forall|j: int, env: spec_fn(u8) -> int| i <= j < result@.len() ==> #[trigger] eval(
                                sv(*result@[j]),
                                env,
                            ) == partial_value(coef_map(kids, v, j), k as int, *w, env),
                            forall|j: int, env: spec_fn(u8) -> int| j >= result@.len() ==> #[trigger] partial_value(
                                coef_map(kids, v, j),
                                k as int,
                                *w,
                                env,
                            ) == 0,
                        decreases sub@.len() - i,
                    {
                        let to_add = Poly::power_term(&sub[i], *w, k);
                        proof {
                            assert forall|env: spec_fn(u8) -> int| #[trigger] partial_value(
                                coef_map(kids, v, i as int),
                                k as int + 1,
                                *w,
                                env,
                            ) == partial_value(coef_map(kids, v, i as int), k as int, *w, env) + eval(sv(to_add), env) by {
                                assert(eval_at(coef_map(kids, v, i as int), k as int, env) == eval(
                                    coef_tree(kids[k as int], v, i as int),
                                    env,
                                ));
                            }
                        }
                        if i < result.len() {
                            let cur: &Poly = &result[i];
                            let mut c2 = cur.copy();
                            proof {
                                lemma_max_abs_least(sv(c2), sk * m);
                                lemma_max_abs_least(sv(to_add), ck * m);
                                lemma_max_abs(sv(c2));
                                lemma_max_abs(sv(to_add));
                                assert(abs(1) == 1);
                                assert(max_abs(sv(to_add)) * abs(1) == max_abs(sv(to_add)));
                            }
                            let ghost before = sv(c2);
                            c2.add_poly_scaled(&to_add, 1);
                            proof {
                                lemma_canonical_ordered(sv(c2));
                                lemma_bounded_mono(sv(c2), max_abs(before) + max_abs(sv(to_add)) * abs(1), (sk + ck) * m);
                            }
                            result.set(i, Rc::new(c2));
                        } else {
                            proof {
                                lemma_bounded_mono(sv(to_add), ck * m, (sk + ck) * m);
                            }
                            result.push(Rc::new(to_add));
                        }
                        i = i + 1;
                    }
                    proof {
                        assert forall|j: int, env: spec_fn(u8) -> int| j >= sub@.len() implies #[trigger] partial_value(
                            coef_map(kids, v, j),
                            k as int + 1,
                            *w,
                            env,
                        ) == partial_value(coef_map(kids, v, j), k as int, *w, env) by {
                            lemma_coef_beyond(kids[k as int], v, j, env);
                            assert(eval_at(coef_map(kids, v, j), k as int, env) == eval(coef_tree(kids[k as int], v, j), env));
                        }
                        assert forall|j: int| 0 <= j < result@.len() implies bounded(
                            sv(*#[trigger] result@[j]),
                            (total - size_from(kids, k as int + 1)) * m,
                        ) by {
                            if j >= i {
                                lemma_bounded_mono(sv(*result@[j]), sk * m, (sk + ck) * m);
                            }
                        }
                        let n1 = degree_max(kids, v, k as int + 1);
                        lemma_degree_nonneg(kids[k as int], v);
                        lemma_degree_max_nonneg(kids, v, k as int);
                        assert(result@.len() == n1 + 1);
                    }
                    k = k + 1;
                }
                proof {
                    assert forall|i: int, env: spec_fn(u8) -> int| 0 <= i < result@.len() implies #[trigger] eval(
                        sv(*result@[i]),
                        env,
                    ) == eval(coef_tree(sv(*a), v, i), env) by {
                        lemma_partial_value(coef_map(kids, v, i), *w, env, kids.len() as int);
                    }
                    assert forall|i: int| 0 <= i < result@.len() implies bounded(sv(*#[trigger] result@[i]), size(sv(*a)) * m) by {
                        lemma_bounded_mono(sv(*result@[i]), total * m, size(sv(*a)) * m);
                    }
                }
                result
            },
        }
    }

    /// The coefficients of the powers of `v`: entry `i` is worth the
    /// coefficient of `v^i` (see `coef_tree`), and there is one entry per
    /// power up to the degree of `v`.
    pub fn decompose(&self, v: u8) -> (r: Vec<Rc<Poly>>)
        requires
            ordered(sv(*self)),
            size(sv(*self)) * max_abs(sv(*self)) <= i64::MAX,
        ensures
            r@.len() == degree_in(sv(*self), v) + 1,
            forall|i: int| 0 <= i < r@.len() ==> ordered(sv(*#[trigger] r@[i])),
            forall|i: int, env: spec_fn(u8) -> int| 0 <= i < r@.len() ==> #[trigger] eval(sv(*r@[i]), env) == eval(
                coef_tree(sv(*self), v, i),
                env,
            ),
            forall|i: int| 0 <= i < r@.len() ==> bounded(sv(*#[trigger] r@[i]), size(sv(*self)) * max_abs(sv(*self))),
    {
        proof {
            lemma_max_abs(sv(*self));
        }
        self.decompose_rec(v, Ghost(max_abs(sv(*self))))
    }
}

} // verus!

verus! {

/// `compute_factors` can fill `n` factors: a polynomial free of `v` needs one,
/// and one in a lower variable needs more than its degree.
pub open spec fn factors_fit(s: SPoly, v: u8, n: int) -> bool
    decreases s,
{
    match s {
        SPoly::Constant(_) => n >= 1,
        SPoly::Nested(w, cs) => if w > v {
            n >= 1
        } else if w == v {
            true
        } else {
            degree_in(s, v) < n && forall|k: int|
                #![trigger cs[k]]
                0 <= k < cs.len() ==> factors_fit(cs[k], v, degree_in(cs[k], v) + 1)
        },
    }
}

impl Poly {
    #[verifier::rlimit(100)]
    fn compute_factors_rec(&self, v: u8, factors: &mut Vec<Rc<Poly>>, Ghost(m): Ghost<int>)
        requires
            ordered(sv(*self)),
            crate::poly_ops::degrees_fit(sv(*self)),
            m >= 0,
            bounded(sv(*self), m),
            size(sv(*self)) * m <= i64::MAX,
            factors_fit(sv(*self), v, old(factors)@.len() as int),
            forall|j: int| 0 <= j < old(factors)@.len() ==> ordered(sv(*#[trigger] old(factors)@[j])) && max_abs(
                sv(*old(factors)@[j]),
            ) + size(sv(*self)) * m <= i64::MAX,
        ensures
            final(factors)@.len() == old(factors)@.len(),
            forall|j: int| 0 <= j < final(factors)@.len() ==> ordered(sv(*#[trigger] final(factors)@[j])),
            forall|j: int| 0 <= j < final(factors)@.len() ==> bounded(
                sv(*#[trigger] final(factors)@[j]),
                max_abs(sv(*old(factors)@[j])) + size(sv(*self)) * m,
            ),
            forall|j: int, u: u8|
                0 <= j < final(factors)@.len() && above(sv(*old(factors)@[j]), u) && above(sv(*self), u)
                    ==> #[trigger] above(sv(*final(factors)@[j]), u),
            forall|j: int, env: spec_fn(u8) -> int| 0 <= j < final(factors)@.len() ==> #[trigger] eval(
                sv(*final(factors)@[j]),
                env,
            ) == eval(sv(*old(factors)@[j]), env) + eval(coef_tree(sv(*self), v, j), env),
        decreases size(sv(*self)), 1int,
    {
        proof {
            lemma_size_pos(sv(*self));
            lemma_mul3_mono(1, size(sv(*self)), m, 1);
            assert(m == m * 1);
            assert(size(sv(*self)) * m == size(sv(*self)) * m * 1);
        }
        let ghost old_f = factors@;
        let into_first = match self {
            Poly::Constant(_) => true,
            Poly::Nested(v1, _) => *v1 > v,
        };
        if into_first {
            let f0: &Poly = &factors[0];
            let mut c = f0.copy();
            proof {
                lemma_max_abs(sv(*self));
                lemma_max_abs_least(sv(*self), m);
                lemma_max_abs(sv(c));
                assert(abs(1) == 1);
                assert(max_abs(sv(*self)) * abs(1) == max_abs(sv(*self)));
                lemma_mul3_mono(1, size(sv(*self)), m, 1);
            }
            let ghost before = sv(c);
            c.add_poly_scaled(self, 1);
            proof {
                lemma_canonical_ordered(sv(c));
                lemma_bounded_mono(sv(c), max_abs(before) + max_abs(sv(*self)) * abs(1), max_abs(before) + size(sv(*self)) * m);
            }
            factors.set(0, Rc::new(c));
            proof {
                assert forall|j: int, env: spec_fn(u8) -> int| 0 <= j < factors@.len() implies #[trigger] eval(
                    sv(*factors@[j]),
                    env,
                ) == eval(sv(*old_f[j]), env) + eval(coef_tree(sv(*self), v, j), env) by {
                    if j > 0 {
                        assert(factors@[j] == old_f[j]);
                    }
                }
                assert forall|j: int| 0 <= j < factors@.len() implies bounded(
                    sv(*#[trigger] factors@[j]),
                    max_abs(sv(*old_f[j])) + size(sv(*self)) * m,
                ) by {
                    if j > 0 {
                        lemma_max_abs(sv(*old_f[j]));
                        lemma_mul3_mono(0, size(sv(*self)), m, 1);
                        lemma_bounded_mono(sv(*old_f[j]), max_abs(sv(*old_f[j])), max_abs(sv(*old_f[j])) + size(sv(*self)) * m);
                    }
                }
            }
            return;
        }
        match self {
            Poly::Constant(_) => {},
            Poly::Nested(v1, polys) => {
                let ghost kids = sv_kids(polys@);
                if *v1 == v {
                    proof {
                        assert forall|j: int| 0 <= j < factors@.len() implies bounded(
                            sv(*#[trigger] factors@[j]),
                            max_abs(sv(*old_f[j])) + size(sv(*self)) * m,
                        ) by {
                            lemma_max_abs(sv(*old_f[j]));
                            lemma_mul3_mono(0, size(sv(*self)), m, 1);
                            lemma_bounded_mono(sv(*old_f[j]), max_abs(sv(*old_f[j])), max_abs(sv(*old_f[j])) + size(sv(*self)) * m);
                        }
                    }
                    let mut i: usize = 0;
                    while i < polys.len()
                        invariant
                            *self == Poly::Nested(*v1, *polys),
                            kids == sv_kids(polys@),
                            *v1 == v,
                            ordered(sv(*self)),
                            bounded(sv(*self), m),
                            m >= 0,
                            m <= size(sv(*self)) * m,
                            factors@.len() == old_f.len(),
                            forall|j: int| 0 <= j < old_f.len() ==> ordered(sv(*#[trigger] old_f[j])) && max_abs(
                                sv(*old_f[j]),
                            ) + size(sv(*self)) * m <= i64::MAX,
                            i <= polys@.len(),
                            forall|j: int| i <= j < factors@.len() ==> #[trigger] factors@[j] == old_f[j],
                            forall|j: int| 0 <= j < factors@.len() ==> ordered(sv(*#[trigger] factors@[j])),
                            forall|j: int| 0 <= j < factors@.len() ==> bounded(
                                sv(*#[trigger] factors@[j]),
                                max_abs(sv(*old_f[j])) + size(sv(*self)) * m,
                            ),
                            forall|j: int, u: u8|
                                0 <= j < factors@.len() && above(sv(*old_f[j]), u) && *v1 > u
                                    ==> #[trigger] above(sv(*factors@[j]), u),
                            forall|j: int, env: spec_fn(u8) -> int| 0 <= j < factors@.len() ==> #[trigger] eval(
                                sv(*factors@[j]),
                                env,
                            ) == eval(sv(*old_f[j]), env) + (if j < i { eval(kids[j], env) } else { 0 }),
                        decreases polys@.len() - i,
                    {
                        if i < factors.len() {
                            let fi: &Poly = &factors[i];
                            let mut c = fi.copy();
                            proof {
                                assert(ordered(kids[i as int]) && bounded(kids[i as int], m));
                                lemma_max_abs_least(kids[i as int], m);
                                lemma_max_abs(kids[i as int]);
                                lemma_max_abs(sv(c));
                                assert(abs(1) == 1);
                                assert(max_abs(kids[i as int]) * abs(1) == max_abs(kids[i as int]));
                                assert(sv(*polys@[i as int]) == kids[i as int]);
                                assert(factors@[i as int] == old_f[i as int]);
                            }
                            let ghost before = sv(c);
                            let child: &Poly = &polys[i];
                            c.add_poly_scaled(child, 1);
                            proof {
                                lemma_canonical_ordered(sv(c));
                                lemma_bounded_mono(
                                    sv(c),
                                    max_abs(before) + max_abs(kids[i as int]) * abs(1),
                                    max_abs(rc_tree(&old_f[i as int])) + size(sv(*self)) * m,
                                );
                            }
                            factors.set(i, Rc::new(c));
                        }
                        i = i + 1;
                    }
                    proof {
                        assert forall|j: int, env: spec_fn(u8) -> int| 0 <= j < factors@.len() implies #[trigger] eval(
                            sv(*factors@[j]),
                            env,
                        ) == eval(sv(*old_f[j]), env) + eval(coef_tree(sv(*self), v, j), env) by {}
                    }
                } else {
                    Poly::compute_factors_lower(self, v, factors, Ghost(m));
                }
            },
        }
    }
}


impl Poly {
    /// `compute_factors_rec` for a node in a variable below `v`.
    #[verifier::rlimit(100)]
    fn compute_factors_lower(a: &Poly, v: u8, factors: &mut Vec<Rc<Poly>>, Ghost(m): Ghost<int>)
        requires
            a is Nested,
            a->Nested_0 < v,
            ordered(sv(*a)),
            crate::poly_ops::degrees_fit(sv(*a)),
            m >= 0,
            bounded(sv(*a), m),
            size(sv(*a)) * m <= i64::MAX,
            factors_fit(sv(*a), v, old(factors)@.len() as int),
            forall|j: int| 0 <= j < old(factors)@.len() ==> ordered(sv(*#[trigger] old(factors)@[j])) && max_abs(
                sv(*old(factors)@[j]),
            ) + size(sv(*a)) * m <= i64::MAX,
        ensures
            final(factors)@.len() == old(factors)@.len(),
            forall|j: int| 0 <= j < final(factors)@.len() ==> ordered(sv(*#[trigger] final(factors)@[j])),
            forall|j: int| 0 <= j < final(factors)@.len() ==> bounded(
                sv(*#[trigger] final(factors)@[j]),
                max_abs(sv(*old(factors)@[j])) + size(sv(*a)) * m,
            ),
            forall|j: int, u: u8|
                0 <= j < final(factors)@.len() && above(sv(*old(factors)@[j]), u) && above(sv(*a), u)
                    ==> #[trigger] above(sv(*final(factors)@[j]), u),
            forall|j: int, env: spec_fn(u8) -> int| 0 <= j < final(factors)@.len() ==> #[trigger] eval(
                sv(*final(factors)@[j]),
                env,
            ) == eval(sv(*old(factors)@[j]), env) + eval(coef_tree(sv(*a), v, j), env),
        decreases size(sv(*a)), 0int,
    {
        let ghost old_f = factors@;
        let n_factors = factors.len();
        proof {
            lemma_size_pos(sv(*a));
            lemma_mul3_mono(1, size(sv(*a)), m, 1);
            assert(m == m * 1);
            assert(size(sv(*a)) * m == size(sv(*a)) * m * 1);
            assert(old_f.len() == n_factors);
        }
        match a {
            Poly::Constant(_) => {},
            Poly::Nested(w, polys) => {
                let ghost kids = sv_kids(polys@);
                let ghost sa = size(sv(*a)) * m;
                let mut inner: Vec<Vec<Rc<Poly>>> = Vec::new();
                let mut d_max: u32 = 0;
                let mut k: usize = 0;
                while k < polys.len()
                    invariant
                        *a == Poly::Nested(*w, *polys),
                        kids == sv_kids(polys@),
                        *w < v,
                        ordered(sv(*a)),
                        crate::poly_ops::degrees_fit(sv(*a)),
                        factors_fit(sv(*a), v, old_f.len() as int),
                        factors@ == old_f,
                        old_f.len() <= usize::MAX,
                        sa >= 0,
                        m >= 0,
                        bounded(sv(*a), m),
                        sa == size(sv(*a)) * m,
                        sa <= i64::MAX,
                        k <= polys@.len(),
                        inner@.len() == k,
                        d_max as int == degree_max(kids, v, k as int),
                        forall|q: int| 0 <= q < k ==> (#[trigger] inner@[q])@.len() == degree_in(kids[q], v) + 1,
                        forall|q: int, j: int|
                            0 <= q < k && 0 <= j < inner@[q]@.len() ==> ordered(sv(*#[trigger] inner@[q]@[j])) && above(
                                sv(*inner@[q]@[j]),
                                *w,
                            ) && bounded(sv(*inner@[q]@[j]), sa),
                        forall|q: int, j: int, env: spec_fn(u8) -> int|
                            0 <= q < k && 0 <= j < inner@[q]@.len() ==> #[trigger] eval(sv(*inner@[q]@[j]), env)
                                == eval(coef_tree(kids[q], v, j), env),
                    decreases polys@.len() - k,
                {
                    proof {
                        lemma_kid_smaller(*a, k as int);
                        assert(ordered(kids[k as int]) && above(kids[k as int], *w) && bounded(kids[k as int], m));
                        assert(crate::poly_ops::degrees_fit(kids[k as int]));
                        assert(factors_fit(kids[k as int], v, degree_in(kids[k as int], v) + 1));
                        lemma_mul3_mono(size(kids[k as int]), size(sv(*a)), m, 1);
                        assert(size(kids[k as int]) * m == size(kids[k as int]) * m * 1);
                        lemma_mul3_mono(0, size(kids[k as int]), m, 1);
                    }
                    proof {
                        lemma_degree_max_bound(kids, v, kids.len() as int);
                        assert(sv(*a) == SPoly::Nested(*w, kids));
                        assert(degree_in(sv(*a), v) == degree_max(kids, v, kids.len() as int));
                        assert(degree_in(kids[k as int], v) <= degree_in(sv(*a), v));
                        assert(degree_in(sv(*a), v) < old_f.len());
                    }
                    let child: &Poly = &polys[k];
                    let d = child.get_degree(v);
                    if d > d_max {
                        d_max = d;
                    }
                    let mut fk: Vec<Rc<Poly>> = Vec::new();
                    let mut z: usize = 0;
                    let n_fk: usize = (d as usize) + 1;
                    while z < n_fk
                        invariant
                            z <= n_fk,
                            fk@.len() == z,
                            forall|q: int| 0 <= q < z ==> sv(*#[trigger] fk@[q]) == SPoly::Constant(0),
                        decreases n_fk - z,
                    {
                        fk.push(Rc::new(Poly::Constant(0)));
                        z = z + 1;
                    }
                    proof {
                        assert forall|q: int| 0 <= q < fk@.len() implies ordered(sv(*#[trigger] fk@[q])) && max_abs(
                            sv(*fk@[q]),
                        ) + size(kids[k as int]) * m <= i64::MAX by {
                            assert(sv(*fk@[q]) == SPoly::Constant(0));
                        }
                    }
                    let ghost fk0 = fk@;
                    child.compute_factors_rec(v, &mut fk, Ghost(m));
                    proof {
                        assert forall|j: int| 0 <= j < fk@.len() implies ordered(sv(*#[trigger] fk@[j])) && above(
                            sv(*fk@[j]),
                            *w,
                        ) && bounded(sv(*fk@[j]), sa) by {
                            assert(sv(*fk0[j]) == SPoly::Constant(0));
                            assert(above(sv(*fk0[j]), *w));
                            lemma_bounded_mono(sv(*fk@[j]), max_abs(sv(*fk0[j])) + size(kids[k as int]) * m, sa);
                        }
                        assert forall|j: int, env: spec_fn(u8) -> int| 0 <= j < fk@.len() implies #[trigger] eval(
                            sv(*fk@[j]),
                            env,
                        ) == eval(coef_tree(kids[k as int], v, j), env) by {
                            assert(sv(*fk0[j]) == SPoly::Constant(0));
                        }
                    }
                    inner.push(fk);
                    k = k + 1;
                }
                proof {
                    lemma_degree_max_bound(kids, v, kids.len() as int);
                    lemma_degree_max_nonneg(kids, v, kids.len() as int);
                    assert(degree_in(sv(*a), v) == d_max as int);
                }
                let mut j: usize = 0;
                while j < (d_max as usize) + 1
                    invariant
                        *a == Poly::Nested(*w, *polys),
                        kids == sv_kids(polys@),
                        *w < v,
                        ordered(sv(*a)),
                        m >= 0,
                        sa == size(sv(*a)) * m,
                        sa <= i64::MAX,
                        d_max as int == degree_in(sv(*a), v),
                        (d_max as int) < old_f.len(),
                        old_f.len() <= usize::MAX,
                        sa >= 0,
                        inner@.len() == polys@.len(),
                        forall|q: int| 0 <= q < inner@.len() ==> (#[trigger] inner@[q])@.len() == degree_in(kids[q], v) + 1,
                        forall|q: int, i: int|
                            0 <= q < inner@.len() && 0 <= i < inner@[q]@.len() ==> ordered(sv(*#[trigger] inner@[q]@[i]))
                                && above(sv(*inner@[q]@[i]), *w) && bounded(sv(*inner@[q]@[i]), sa),
                        forall|q: int, i: int, env: spec_fn(u8) -> int|
                            0 <= q < inner@.len() && 0 <= i < inner@[q]@.len() ==> #[trigger] eval(
                                sv(*inner@[q]@[i]),
                                env,
                            ) == eval(coef_tree(kids[q], v, i), env),
                        forall|q: int| 0 <= q < old_f.len() ==> ordered(sv(*#[trigger] old_f[q])) && max_abs(sv(*old_f[q]))
                            + sa <= i64::MAX,
                        j <= (d_max as usize) + 1,
                        factors@.len() == old_f.len(),
                        forall|q: int| j <= q < factors@.len() ==> #[trigger] factors@[q] == old_f[q],
                        forall|q: int| 0 <= q < j ==> ordered(sv(*#[trigger] factors@[q])) && bounded(
                            sv(*factors@[q]),
                            max_abs(sv(*old_f[q])) + sa,
                        ),
                        forall|q: int, u: u8|
                            0 <= q < j && above(sv(*old_f[q]), u) && *w > u ==> #[trigger] above(sv(*factors@[q]), u),
                        forall|q: int, env: spec_fn(u8) -> int| 0 <= q < j ==> #[trigger] eval(sv(*factors@[q]), env)
                            == eval(sv(*old_f[q]), env) + eval(coef_tree(sv(*a), v, q), env),
                    decreases (d_max as usize) + 1 - j,
                {
                    let mut inner_polys: Vec<Rc<Poly>> = Vec::new();
                    let mut q: usize = 0;
                    while q < inner.len()
                        invariant
                            q <= inner@.len(),
                            inner_polys@.len() == q,
                            inner@.len() == polys@.len(),
                            kids == sv_kids(polys@),
                            forall|p: int| 0 <= p < inner@.len() ==> (#[trigger] inner@[p])@.len() == degree_in(kids[p], v)
                                + 1,
                            forall|p: int, i: int|
                                0 <= p < inner@.len() && 0 <= i < inner@[p]@.len() ==> ordered(
                                    sv(*#[trigger] inner@[p]@[i]),
                                ) && above(sv(*inner@[p]@[i]), *w) && bounded(sv(*inner@[p]@[i]), sa),
                            forall|p: int, i: int, env: spec_fn(u8) -> int|
                                0 <= p < inner@.len() && 0 <= i < inner@[p]@.len() ==> #[trigger] eval(
                                    sv(*inner@[p]@[i]),
                                    env,
                                ) == eval(coef_tree(kids[p], v, i), env),
                            sa >= 0,
                            forall|p: int| 0 <= p < q ==> ordered(sv(*#[trigger] inner_polys@[p])) && above(
                                sv(*inner_polys@[p]),
                                *w,
                            ) && bounded(sv(*inner_polys@[p]), sa),
                            forall|p: int, env: spec_fn(u8) -> int| 0 <= p < q ==> #[trigger] eval(
                                sv(*inner_polys@[p]),
                                env,
                            ) == eval(coef_tree(kids[p], v, j as int), env),
                        decreases inner@.len() - q,
                    {
                        let row: &Vec<Rc<Poly>> = &inner[q];
                        if j < row.len() {
                            inner_polys.push(Rc::clone(&row[j]));
                        } else {
                            proof {
                                assert forall|env: spec_fn(u8) -> int| #[trigger] eval(coef_tree(kids[q as int], v, j as int), env)
                                    == 0 by {
                                    lemma_coef_beyond(kids[q as int], v, j as int, env);
                                }
                            }
                            inner_polys.push(Rc::new(Poly::Constant(0)));
                        }
                        q = q + 1;
                    }
                    let poly1 = Poly::Nested(*w, inner_polys);
                    proof {
                        let kp = sv_kids(inner_polys@);
                        assert forall|p: int| 0 <= p < kp.len() implies above(#[trigger] kp[p], *w) && ordered(kp[p])
                            && bounded(kp[p], sa) by {
                            assert(kp[p] == sv(*inner_polys@[p]));
                        }
                        assert forall|env: spec_fn(u8) -> int| #[trigger] eval(sv(poly1), env) == eval(
                            coef_tree(sv(*a), v, j as int),
                            env,
                        ) by {
                            let cm = coef_map(kids, v, j as int);
                            assert forall|p: int| 0 <= p < kp.len() implies #[trigger] eval(kp[p], env) == eval_at(
                                cm,
                                p,
                                env,
                            ) + 0 * eval_at(cm, p, env) by {
                                assert(kp[p] == sv(*inner_polys@[p]));
                            }
                            lemma_eval_from_lin(kp, cm, cm, 0, *w, env, 0);
                        }
                        lemma_max_abs_least(sv(poly1), sa);
                        lemma_max_abs(sv(poly1));
                        assert(abs(1) == 1);
                        assert(max_abs(sv(poly1)) * abs(1) == max_abs(sv(poly1)));
                    }
                    let fj: &Poly = &factors[j];
                    let mut c = fj.copy();
                    proof {
                        assert(factors@[j as int] == old_f[j as int]);
                        lemma_max_abs(sv(c));
                    }
                    let ghost before = sv(c);
                    c.add_poly_scaled(&poly1, 1);
                    proof {
                        lemma_canonical_ordered(sv(c));
                        lemma_bounded_mono(sv(c), max_abs(before) + max_abs(sv(poly1)) * abs(1), max_abs(rc_tree(&old_f[j as int])) + sa);
                    }
                    factors.set(j, Rc::new(c));
                    j = j + 1;
                }
                proof {
                    assert forall|q: int, env: spec_fn(u8) -> int| 0 <= q < factors@.len() implies #[trigger] eval(
                        sv(*factors@[q]),
                        env,
                    ) == eval(sv(*old_f[q]), env) + eval(coef_tree(sv(*a), v, q), env) by {
                        if q >= j {
                            lemma_coef_beyond(sv(*a), v, q, env);
                        }
                    }
                    assert forall|q: int| 0 <= q < factors@.len() implies bounded(
                        sv(*#[trigger] factors@[q]),
                        max_abs(sv(*old_f[q])) + sa,
                    ) by {
                        if q >= j {
                            lemma_max_abs(sv(*old_f[q]));
                            lemma_mul3_mono(0, size(sv(*a)), m, 1);
                            lemma_bounded_mono(sv(*old_f[q]), max_abs(sv(*old_f[q])), max_abs(sv(*old_f[q])) + sa);
                        }
                    }
                }
            },
        }
    }

    /// Adds to each `factors[i]` the coefficient of `v^i` in the polynomial:
    /// afterwards the polynomial is worth `factors[0] + factors[1]*v + ...`
    /// more than the factors were (see `coef_tree`).
    pub fn compute_factors(&self, v: u8, factors: &mut Vec<Rc<Poly>>)
        requires
            ordered(sv(*self)),
            crate::poly_ops::degrees_fit(sv(*self)),
            size(sv(*self)) * max_abs(sv(*self)) <= i64::MAX,
            factors_fit(sv(*self), v, old(factors)@.len() as int),
            forall|j: int| 0 <= j < old(factors)@.len() ==> ordered(sv(*#[trigger] old(factors)@[j])) && max_abs(
                sv(*old(factors)@[j]),
            ) + size(sv(*self)) * max_abs(sv(*self)) <= i64::MAX,
        ensures
            final(factors)@.len() == old(factors)@.len(),
            forall|j: int| 0 <= j < final(factors)@.len() ==> ordered(sv(*#[trigger] final(factors)@[j])),
            forall|j: int, env: spec_fn(u8) -> int| 0 <= j < final(factors)@.len() ==> #[trigger] eval(
                sv(*final(factors)@[j]),
                env,
            ) == eval(sv(*old(factors)@[j]), env) + eval(coef_tree(sv(*self), v, j), env),
            forall|j: int| 0 <= j < final(factors)@.len() ==> bounded(
                sv(*#[trigger] final(factors)@[j]),
                max_abs(sv(*old(factors)@[j])) + size(sv(*self)) * max_abs(sv(*self)),
            ),
    {
        proof {
            lemma_max_abs(sv(*self));
        }
        self.compute_factors_rec(v, factors, Ghost(max_abs(sv(*self))));
    }
}

} // verus!
