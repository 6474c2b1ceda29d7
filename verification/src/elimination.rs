//! Eliminating a variable from two polynomials by repeated cross
//! multiplication, keeping track of the multipliers so that the result can
//! later be traced back (see `algorithms.md` of the project).

use vstd::prelude::*;
use std::rc::Rc;
use crate::poly::{Poly, sv, product_bound};
use crate::spoly::{SPoly, bounded, canonical, eval, max_abs, ordered, lemma_canonical_ordered, lemma_max_abs, lemma_bounded_mono, lemma_max_abs_least, lemma_size_pos, size, abs};
use crate::poly_ops::{degree_in, degree_max, degrees_fit, no_min_coeff, has_var_spec, trees, least_var_upto, VarSearchResult, mentions, vars_in_map, subst, subst_map_uniform, map_modulus, lemma_coeffs_bounded};
use crate::modular_poly::{ModularPoly, division_identity, seq_is_zero, seq_degree, has_inverse, leading, coef, reduced, normalized};
use crate::division_unique::lemma_remainder_unique;
use crate::conv_algebra::{bezout, root_mod, zero_mod, lemma_root, lemma_root_trivial, lemma_mul_result_cm, lemma_neg_result_cm};
use crate::vanishing::{common_zero, lemma_reduction_keeps_zero};
use std::collections::HashMap;
use crate::poly_struct::{split_at, rc_tree, lemma_degree_nonneg};
use crate::poly_subst::{large_reduced, min_coeff_free, lemma_large_reduced_ordered, lemma_large_reduced_degree};
use crate::poly_expr::overflow_message;
use crate::split_laws::{lemma_split_shape, law_split_rebuilds};
use crate::degree_laws::{imax, lemma_degree_split, lemma_degrees_fit};
use crate::text::{push_str, push_char, push_decimal};
use vstd::arithmetic::power::pow;

verus! {

/// One stage of eliminating `v` from `poly1` and `poly2`: two polynomials
/// `poly_a` and `poly_b` of degrees `degree_a` and `degree_b` in `v`, with
/// the multipliers that give them from `poly1` and `poly2`
/// (`poly_a = poly1 * p_factor_1a + poly2 * p_factor_2a`, the same for `b`).
#[derive(Debug, Clone)]
pub struct EliminationStep {
    pub v: u8,
    pub poly1: Rc<Poly>,
    pub poly2: Rc<Poly>,
    pub p_factor_1a: Rc<Poly>,
    pub p_factor_2a: Rc<Poly>,
    pub p_factor_1b: Rc<Poly>,
    pub p_factor_2b: Rc<Poly>,
    pub poly_a: Rc<Poly>,
    pub poly_b: Rc<Poly>,
    pub degree_a: u32,
    pub degree_b: u32,
}

/// The message for a polynomial with a node of more than `u32::MAX` coefficients.
pub open spec fn degree_message() -> Seq<char> {
    "Degree too large"@
}

impl EliminationStep {
    /// Every polynomial is ordered, the two degrees are those of `poly_a`
    /// and `poly_b` in `v`.
    pub open spec fn wf(&self) -> bool {
        &&& ordered(sv(*self.poly1))
        &&& ordered(sv(*self.poly2))
        &&& ordered(sv(*self.p_factor_1a))
        &&& ordered(sv(*self.p_factor_2a))
        &&& ordered(sv(*self.p_factor_1b))
        &&& ordered(sv(*self.p_factor_2b))
        &&& ordered(sv(*self.poly_a))
        &&& ordered(sv(*self.poly_b))
        &&& degrees_fit(sv(*self.poly_a))
        &&& degrees_fit(sv(*self.poly_b))
        &&& self.degree_a as int == degree_in(sv(*self.poly_a), self.v)
        &&& self.degree_b as int == degree_in(sv(*self.poly_b), self.v)
    }

    /// `poly_a` and `poly_b` are what the multipliers give from `poly1` and `poly2`.
    pub open spec fn combines(&self) -> bool {
        forall|env: spec_fn(u8) -> int|
            #![trigger eval(sv(*self.poly_a), env)]
            #![trigger eval(sv(*self.poly_b), env)]
            eval(sv(*self.poly_a), env) == eval(sv(*self.poly1), env) * eval(sv(*self.p_factor_1a), env) + eval(
                sv(*self.poly2),
                env,
            ) * eval(sv(*self.p_factor_2a), env) && eval(sv(*self.poly_b), env) == eval(sv(*self.poly1), env) * eval(
                sv(*self.p_factor_1b),
                env,
            ) + eval(sv(*self.poly2), env) * eval(sv(*self.p_factor_2b), env)
    }

    /// How `next` follows from `self` (see `get_next_step`), where `t` is
    /// the new `poly_b` before the reduction of its constants.
    pub open spec fn next_of(&self, next: EliminationStep, t: SPoly) -> bool {
        let d = self.degree_b as int;
        let (pa1, pa2) = split_at(sv(*self.poly_a), self.v, d);
        let (pb1, pb2) = split_at(sv(*self.poly_b), self.v, d);
        &&& next.v == self.v
        &&& next.poly1 == self.poly1
        &&& next.poly2 == self.poly2
        &&& next.p_factor_1a == self.p_factor_1b
        &&& next.p_factor_2a == self.p_factor_2b
        &&& next.poly_a == self.poly_b
        &&& next.degree_a == self.degree_b
        &&& canonical(t)
        &&& no_min_coeff(t)
        &&& sv(*next.poly_b) == large_reduced(t)
        &&& forall|env: spec_fn(u8) -> int| #[trigger] eval(t, env) == eval(pa2, env) * eval(pb1, env) - eval(pa1, env)
            * eval(pb2, env)
        &&& forall|env: spec_fn(u8) -> int| #[trigger] eval(sv(*next.p_factor_1b), env) == eval(
            sv(*self.p_factor_1a),
            env,
        ) * eval(pb1, env) - eval(sv(*self.p_factor_1b), env) * eval(pa1, env)
        &&& forall|env: spec_fn(u8) -> int| #[trigger] eval(sv(*next.p_factor_2b), env) == eval(
            sv(*self.p_factor_2a),
            env,
        ) * eval(pb1, env) - eval(sv(*self.p_factor_2b), env) * eval(pa1, env)
    }

    /// The constants of the products that `get_next_step` forms fit in an
    /// `i64` by the bound that `try_multiply` and `try_add_poly_scaled` test:
    /// the two products of each difference together stay within `i64::MAX`.
    pub open spec fn step_fits(&self) -> bool {
        let d = self.degree_b as int;
        let (pa1, pa2) = split_at(sv(*self.poly_a), self.v, d);
        let (pb1, pb2) = split_at(sv(*self.poly_b), self.v, d);
        &&& product_bound(pa2, pb1) + product_bound(pa1, pb2) <= i64::MAX
        &&& product_bound(sv(*self.p_factor_1a), pb1) + product_bound(sv(*self.p_factor_1b), pa1) <= i64::MAX
        &&& product_bound(sv(*self.p_factor_2a), pb1) + product_bound(sv(*self.p_factor_2b), pa1) <= i64::MAX
    }

    /// The degrees of the products that `get_next_step` forms stay below
    /// `u32::MAX` in every variable, which leaves room for every degree of the
    /// new `poly_b`.
    pub open spec fn step_degrees_fit(&self) -> bool {
        let d = self.degree_b as int;
        let (pa1, pa2) = split_at(sv(*self.poly_a), self.v, d);
        let (pb1, pb2) = split_at(sv(*self.poly_b), self.v, d);
        forall|w: u8|
            #[trigger] degree_in(pa2, w) + degree_in(pb1, w) < u32::MAX && degree_in(pa1, w) + degree_in(pb2, w)
                < u32::MAX
    }

    /// The first stage: the polynomial of higher degree in `v` (the first on
    /// a tie) becomes `poly_a`, the other `poly_b`, each its own multiplier.
    pub fn new(v: u8, poly1: Rc<Poly>, poly2: Rc<Poly>) -> (r: Self)
        requires
            ordered(sv(*poly1)),
            ordered(sv(*poly2)),
            degrees_fit(sv(*poly1)),
            degrees_fit(sv(*poly2)),
        ensures
            r.wf(),
            r.combines(),
            r.v == v,
            (if degree_in(sv(*poly1), v) >= degree_in(sv(*poly2), v) {
                r.poly1 == poly1 && r.poly2 == poly2
            } else {
                r.poly1 == poly2 && r.poly2 == poly1
            }),
            r.poly_a == r.poly1,
            r.poly_b == r.poly2,
            sv(*r.p_factor_1a) == SPoly::Constant(1),
            sv(*r.p_factor_2a) == SPoly::Constant(0),
            sv(*r.p_factor_1b) == SPoly::Constant(0),
            sv(*r.p_factor_2b) == SPoly::Constant(1),
    {
        let degree1 = poly1.get_degree(v);
        let degree2 = poly2.get_degree(v);
        let (x_poly_1, x_poly_2, x_degree_1, x_degree_2) = if degree1 >= degree2 {
            (poly1, poly2, degree1, degree2)
        } else {
            (poly2, poly1, degree2, degree1)
        };
        let r = EliminationStep {
            v,
            poly1: Rc::clone(&x_poly_1),
            poly2: Rc::clone(&x_poly_2),
            p_factor_1a: Rc::new(Poly::Constant(1)),
            p_factor_2a: Rc::new(Poly::Constant(0)),
            p_factor_1b: Rc::new(Poly::Constant(0)),
            p_factor_2b: Rc::new(Poly::Constant(1)),
            poly_a: x_poly_1,
            poly_b: x_poly_2,
            degree_a: x_degree_1,
            degree_b: x_degree_2,
        };
        proof {
            assert forall|env: spec_fn(u8) -> int|
                #![trigger eval(sv(*r.poly_a), env)]
                #![trigger eval(sv(*r.poly_b), env)]
                eval(sv(*r.poly_a), env) == eval(sv(*r.poly1), env) * eval(sv(*r.p_factor_1a), env) + eval(
                    sv(*r.poly2),
                    env,
                ) * eval(sv(*r.p_factor_2a), env) && eval(sv(*r.poly_b), env) == eval(sv(*r.poly1), env) * eval(
                    sv(*r.p_factor_1b),
                    env,
                ) + eval(sv(*r.poly2), env) * eval(sv(*r.p_factor_2b), env) by {
                let e1 = eval(sv(*r.poly1), env);
                let e2 = eval(sv(*r.poly2), env);
                assert(e1 * 1 + e2 * 0 == e1 && e1 * 0 + e2 * 1 == e2) by (nonlinear_arith);
            }
        }
        r
    }

    /// The next stage, `None` once `poly_b` no longer has `v`. With `d` the
    /// degree of `poly_b`, `poly_a = pa1 * v^d + pa2` and `poly_b = pb1 * v^d
    /// + pb2` (see `split_at`): the new `poly_a` is the old `poly_b` and the
    /// new `poly_b` is `pa2 * pb1 - pa1 * pb2`, in which `v^d` cancels, with
    /// its large constants reduced; the multipliers follow (see `next_of`).
    /// An error when a constant would leave an `i64` (`overflow_message`),
    /// which `step_fits` rules out, or when a node would have more than
    /// `u32::MAX` coefficients (`degree_message`).
    pub fn get_next_step(&self) -> (r: Result<Option<EliminationStep>, String>)
        requires
            self.wf(),
        ensures
            match r {
                Ok(None) => self.degree_b == 0,
                Ok(Some(next)) => self.degree_b > 0 && next.wf() && (exists|t: SPoly| #[trigger] self.next_of(next, t))
                    && forall|env: spec_fn(u8) -> int|
                    eval(sv(*self.poly_a), env) == 0 && eval(sv(*self.poly_b), env) == 0 ==> #[trigger] eval(
                        sv(*next.poly_b),
                        env,
                    ) == 0,
                Err(m) => self.degree_b > 0 && (m@ == overflow_message() || m@ == degree_message()),
            },
            r matches Err(m) && m@ == overflow_message() ==> !self.step_fits(),
            r matches Ok(Some(next)) ==> next.degree_b < imax(self.degree_a as int, self.degree_b as int),
            r matches Err(m) && m@ == degree_message() ==> !self.step_degrees_fit(),
            self.step_fits() && self.step_degrees_fit() ==> r is Ok,
    {
        if self.degree_b == 0 {
            return Ok(None);
        }
        let ghost fits = self.step_fits();
        proof {
            lemma_messages_differ();
        }
        let v = self.v;
        let d = self.degree_b;
        let pa: &Poly = &self.poly_a;
        let pb: &Poly = &self.poly_b;
        let (pa1, pa2) = pa.extract_factor_and_remainder(v, d);
        let (pb1, pb2) = pb.extract_factor_and_remainder(v, d);
        proof {
            lemma_split_shape(sv(*pa), v, d as int);
            lemma_split_shape(sv(*pb), v, d as int);
            lemma_product_bound_nonneg(rc_tree(&pa2), rc_tree(&pb1));
            lemma_product_bound_nonneg(rc_tree(&pa1), rc_tree(&pb2));
            lemma_product_bound_nonneg(rc_tree(&self.p_factor_1a), rc_tree(&pb1));
            lemma_product_bound_nonneg(rc_tree(&self.p_factor_1b), rc_tree(&pa1));
            lemma_product_bound_nonneg(rc_tree(&self.p_factor_2a), rc_tree(&pb1));
            lemma_product_bound_nonneg(rc_tree(&self.p_factor_2b), rc_tree(&pa1));
        }
        let mut new_poly_b = match pa2.try_multiply(&pb1) {
            Some(x) => x,
            None => {
                return Err(overflow_text());
            },
        };
        let temp = match pa1.try_multiply(&pb2) {
            Some(x) => x,
            None => {
                return Err(overflow_text());
            },
        };
        let ghost before = sv(new_poly_b);
        proof {
            lemma_bound_of_product(sv(new_poly_b), rc_tree(&pa2), rc_tree(&pb1));
            lemma_bound_of_product(sv(temp), rc_tree(&pa1), rc_tree(&pb2));
            assert(abs(-1int) == 1);
        }
        if !new_poly_b.try_add_poly_scaled(&temp, -1) {
            return Err(overflow_text());
        }
        proof {
            if fits {
                lemma_bounded_mono(sv(new_poly_b), max_abs(before) + max_abs(sv(temp)) * abs(-1int), i64::MAX as int);
                lemma_coeffs_bounded(sv(new_poly_b), i64::MAX as int);
            }
        }
        if !min_coeff_free(&new_poly_b) {
            return Err(overflow_text());
        }
        let ghost t = sv(new_poly_b);
        new_poly_b.reduce_coefficients_if_large();
        proof {
            lemma_large_reduced_ordered(t);
        }
        let f1a: &Poly = &self.p_factor_1a;
        let f1b: &Poly = &self.p_factor_1b;
        let f2a: &Poly = &self.p_factor_2a;
        let f2b: &Poly = &self.p_factor_2b;
        let mut p_factor_1b = match f1a.try_multiply(&pb1) {
            Some(x) => x,
            None => {
                return Err(overflow_text());
            },
        };
        let temp1 = match f1b.try_multiply(&pa1) {
            Some(x) => x,
            None => {
                return Err(overflow_text());
            },
        };
        let ghost f1_before = sv(p_factor_1b);
        proof {
            lemma_bound_of_product(sv(p_factor_1b), rc_tree(&self.p_factor_1a), rc_tree(&pb1));
            lemma_bound_of_product(sv(temp1), rc_tree(&self.p_factor_1b), rc_tree(&pa1));
        }
        if !p_factor_1b.try_add_poly_scaled(&temp1, -1) {
            return Err(overflow_text());
        }
        let mut p_factor_2b = match f2a.try_multiply(&pb1) {
            Some(x) => x,
            None => {
                return Err(overflow_text());
            },
        };
        let temp2 = match f2b.try_multiply(&pa1) {
            Some(x) => x,
            None => {
                return Err(overflow_text());
            },
        };
        let ghost f2_before = sv(p_factor_2b);
        proof {
            lemma_bound_of_product(sv(p_factor_2b), rc_tree(&self.p_factor_2a), rc_tree(&pb1));
            lemma_bound_of_product(sv(temp2), rc_tree(&self.p_factor_2b), rc_tree(&pa1));
        }
        if !p_factor_2b.try_add_poly_scaled(&temp2, -1) {
            return Err(overflow_text());
        }
        proof {
            if self.step_degrees_fit() {
                lemma_canonical_ordered(t);
                lemma_large_reduced_ordered(t);
                assert forall|w: u8| #[trigger] degree_in(sv(new_poly_b), w) < u32::MAX by {
                    lemma_large_reduced_degree(t, w);
                    assert(degree_in(rc_tree(&pa2), w) + degree_in(rc_tree(&pb1), w) < u32::MAX);
                    assert(degree_in(before, w) <= degree_in(rc_tree(&pa2), w) + degree_in(rc_tree(&pb1), w));
                    assert(degree_in(sv(temp), w) <= degree_in(rc_tree(&pa1), w) + degree_in(rc_tree(&pb2), w));
                    assert(degree_in(t, w) <= imax(degree_in(before, w), degree_in(sv(temp), w)));
                }
                lemma_degrees_fit(sv(new_poly_b));
            }
        }
        if !new_poly_b.degrees_ok() {
            let mut m = String::new();
            push_str(&mut m, "Degree too large");
            proof {
                reveal_strlit("Degree too large");
                reveal_strlit("Coefficient overflow");
                assert(m@[0] != overflow_message()[0]);
                assert(m@ =~= degree_message());
            }
            return Err(m);
        }
        let degree_b = new_poly_b.get_degree(v);
        proof {
            lemma_canonical_ordered(sv(p_factor_1b));
            lemma_canonical_ordered(sv(p_factor_2b));
        }
        let next = EliminationStep {
            v,
            poly1: Rc::clone(&self.poly1),
            poly2: Rc::clone(&self.poly2),
            p_factor_1a: Rc::clone(&self.p_factor_1b),
            p_factor_2a: Rc::clone(&self.p_factor_2b),
            p_factor_1b: Rc::new(p_factor_1b),
            p_factor_2b: Rc::new(p_factor_2b),
            poly_a: Rc::clone(&self.poly_b),
            poly_b: Rc::new(new_poly_b),
            degree_a: self.degree_b,
            degree_b,
        };
        proof {
            let da = self.degree_a as int;
            let dd = d as int;
            lemma_degree_split(sv(*pa), v, dd);
            lemma_degree_split(sv(*pb), v, dd);
            lemma_canonical_ordered(t);
            lemma_large_reduced_degree(t, v);
            let x1 = degree_in(rc_tree(&pa1), v);
            let x2 = degree_in(rc_tree(&pa2), v);
            let y1 = degree_in(rc_tree(&pb1), v);
            let y2 = degree_in(rc_tree(&pb2), v);
            assert(x2 <= dd - 1 && x2 <= da);
            assert(x1 <= imax(da - dd, 0));
            assert(y1 <= imax(dd - dd, 0));
            assert(y2 <= dd - 1);
            assert(degree_in(before, v) <= x2 + y1);
            assert(degree_in(sv(temp), v) <= x1 + y2);
            assert(degree_in(t, v) <= imax(degree_in(before, v), degree_in(sv(temp), v)));
            assert(degree_b as int <= degree_in(t, v));
            assert(self.next_of(next, t));
            assert forall|env: spec_fn(u8) -> int|
                eval(sv(*self.poly_a), env) == 0 && eval(sv(*self.poly_b), env) == 0 implies #[trigger] eval(
                    sv(*next.poly_b),
                    env,
                ) == 0 by {
                law_next_step_keeps_zeros(*self, next, t, env);
            }
        }
        Ok(Some(next))
    }
}

/// The two messages of `get_next_step` differ.
proof fn lemma_messages_differ()
    ensures
        overflow_message() != degree_message(),
{
    reveal_strlit("Coefficient overflow");
    reveal_strlit("Degree too large");
    assert(overflow_message()[0] != degree_message()[0]);
}

/// The bound that `try_multiply` tests is never negative.
proof fn lemma_product_bound_nonneg(a: SPoly, b: SPoly)
    ensures
        product_bound(a, b) >= 0,
{
    lemma_size_pos(a);
    lemma_max_abs(a);
    lemma_max_abs(b);
    let (x, y, z) = (size(a), max_abs(a), max_abs(b));
    assert(x * y * z >= 0) by (nonlinear_arith)
        requires
            x >= 1,
            y >= 0,
            z >= 0,
    ;
}

/// A product that `try_multiply` gave has its constants within the bound.
proof fn lemma_bound_of_product(r: SPoly, a: SPoly, b: SPoly)
    requires
        bounded(r, product_bound(a, b)),
        product_bound(a, b) >= 0,
    ensures
        max_abs(r) <= product_bound(a, b),
{
    lemma_max_abs_least(r, product_bound(a, b));
}

/// The message `overflow_message` as a string.
pub(crate) fn overflow_text() -> (r: String)
    ensures
        r@ == overflow_message(),
{
    let mut m = String::new();
    push_str(&mut m, "Coefficient overflow");
    m
}

/// The new `poly_b` before its constants are reduced is `pb1 * poly_a - pa1
/// * poly_b`: the powers `v^d` cancel.
pub proof fn law_next_step_cancels(s: EliminationStep, next: EliminationStep, t: SPoly, env: spec_fn(u8) -> int)
    requires
        s.next_of(next, t),
    ensures
        eval(t, env) == eval(split_at(sv(*s.poly_b), s.v, s.degree_b as int).0, env) * eval(sv(*s.poly_a), env) - eval(
            split_at(sv(*s.poly_a), s.v, s.degree_b as int).0,
            env,
        ) * eval(sv(*s.poly_b), env),
{
    let d = s.degree_b as int;
    let (pa1, pa2) = split_at(rc_tree(&s.poly_a), s.v, d);
    let (pb1, pb2) = split_at(rc_tree(&s.poly_b), s.v, d);
    law_split_rebuilds(rc_tree(&s.poly_a), s.v, d, env);
    law_split_rebuilds(rc_tree(&s.poly_b), s.v, d, env);
    let x = pow(env(s.v), d as nat);
    let a1 = eval(pa1, env);
    let a2 = eval(pa2, env);
    let b1 = eval(pb1, env);
    let b2 = eval(pb2, env);
    assert(b1 * (a1 * x + a2) - a1 * (b1 * x + b2) == a2 * b1 - a1 * b2) by (nonlinear_arith);
}

/// A common zero of `poly_a` and `poly_b` is a zero of the next `poly_b`:
/// the new polynomial is `pb1 * poly_a - pa1 * poly_b` with its constants
/// divided by their common divisor.
pub proof fn law_next_step_keeps_zeros(s: EliminationStep, next: EliminationStep, t: SPoly, env: spec_fn(u8) -> int)
    requires
        s.next_of(next, t),
    ensures
        eval(sv(*s.poly_a), env) == 0 && eval(sv(*s.poly_b), env) == 0 ==> eval(sv(*next.poly_b), env) == 0,
{
    law_next_step_cancels(s, next, t, env);
    lemma_reduction_keeps_zero(t, env);
    let d = s.degree_b as int;
    let a1 = eval(split_at(rc_tree(&s.poly_a), s.v, d).0, env);
    let b1 = eval(split_at(rc_tree(&s.poly_b), s.v, d).0, env);
    if eval(rc_tree(&s.poly_a), env) == 0 && eval(rc_tree(&s.poly_b), env) == 0 {
        assert(b1 * 0 - a1 * 0 == 0) by (nonlinear_arith);
        assert(eval(t, env) == 0);
    }
}

/// A stage whose polynomials combine from `poly1` and `poly2` leads to one
/// that does too, when the reduction leaves the new `poly_b` as it is.
pub proof fn law_next_step_combines(s: EliminationStep, next: EliminationStep, t: SPoly)
    requires
        s.combines(),
        s.next_of(next, t),
        sv(*next.poly_b) == t,
    ensures
        next.combines(),
{
    assert forall|env: spec_fn(u8) -> int|
        #![trigger eval(rc_tree(&next.poly_a), env)]
        #![trigger eval(rc_tree(&next.poly_b), env)]
        eval(rc_tree(&next.poly_a), env) == eval(rc_tree(&next.poly1), env) * eval(rc_tree(&next.p_factor_1a), env) + eval(
            rc_tree(&next.poly2),
            env,
        ) * eval(rc_tree(&next.p_factor_2a), env) && eval(rc_tree(&next.poly_b), env) == eval(rc_tree(&next.poly1), env) * eval(
            rc_tree(&next.p_factor_1b),
            env,
        ) + eval(rc_tree(&next.poly2), env) * eval(rc_tree(&next.p_factor_2b), env) by {
        law_next_step_cancels(s, next, t, env);
        let d = s.degree_b as int;
        let a1 = eval(split_at(rc_tree(&s.poly_a), s.v, d).0, env);
        let b1 = eval(split_at(rc_tree(&s.poly_b), s.v, d).0, env);
        let e1 = eval(rc_tree(&s.poly1), env);
        let e2 = eval(rc_tree(&s.poly2), env);
        let f1a = eval(rc_tree(&s.p_factor_1a), env);
        let f2a = eval(rc_tree(&s.p_factor_2a), env);
        let f1b = eval(rc_tree(&s.p_factor_1b), env);
        let f2b = eval(rc_tree(&s.p_factor_2b), env);
        assert(eval(rc_tree(&s.poly_a), env) == e1 * f1a + e2 * f2a);
        assert(eval(rc_tree(&s.poly_b), env) == e1 * f1b + e2 * f2b);
        assert(b1 * (e1 * f1a + e2 * f2a) == e1 * (f1a * b1) + e2 * (f2a * b1)) by (nonlinear_arith);
        assert(a1 * (e1 * f1b + e2 * f2b) == e1 * (f1b * a1) + e2 * (f2b * a1)) by (nonlinear_arith);
        assert(e1 * (f1a * b1 - f1b * a1) == e1 * (f1a * b1) - e1 * (f1b * a1)) by (nonlinear_arith);
        assert(e2 * (f2a * b1 - f2b * a1) == e2 * (f2a * b1) - e2 * (f2b * a1)) by (nonlinear_arith);
    }
}

} // verus!

verus! {

/// A canonical tree has degree zero in `v` exactly when `v` does not occur.
pub proof fn lemma_degree_zero_free(s: SPoly, v: u8)
    requires
        canonical(s),
    ensures
        (degree_in(s, v) == 0) <==> !has_var_spec(s, v),
    decreases s,
{
    lemma_canonical_ordered(s);
    lemma_degree_nonneg(s, v);
    match s {
        SPoly::Constant(_) => {},
        SPoly::Nested(w, cs) => {
            if w < v {
                assert forall|k: int| 0 <= k < cs.len() implies ((degree_in(#[trigger] cs[k], v) == 0) <==> !has_var_spec(
                    cs[k],
                    v,
                )) && degree_in(cs[k], v) >= 0 by {
                    lemma_degree_zero_free(cs[k], v);
                    lemma_degree_nonneg(cs[k], v);
                }
                lemma_degree_max_zero(cs, v, cs.len() as int);
            }
        },
    }
}

/// The largest of non-negative degrees is zero exactly when each is.
proof fn lemma_degree_max_zero(cs: Seq<SPoly>, v: u8, n: int)
    requires
        0 <= n <= cs.len(),
        forall|k: int| 0 <= k < cs.len() ==> degree_in(#[trigger] cs[k], v) >= 0,
    ensures
        (degree_max(cs, v, n) == 0) <==> (forall|k: int| 0 <= k < n ==> degree_in(#[trigger] cs[k], v) == 0),
        degree_max(cs, v, n) >= 0,
    decreases n,
{
    if n > 0 {
        lemma_degree_max_zero(cs, v, n - 1);
    }
}

/// The larger of the two degrees of a stage, which no stage raises (see
/// `get_next_step`).
pub open spec fn stage_top(da: int, db: int) -> int {
    imax(da, db)
}

/// What a stage lowers when it keeps `stage_top`: the degree of `poly_b`,
/// counted one higher while `poly_a` has the smaller degree.
pub open spec fn stage_rank(da: int, db: int) -> int {
    if da >= db {
        db
    } else {
        db + 1
    }
}

/// Eliminating variables one at a time from a system of polynomials in which
/// `x_var` and `y_var` stay; the stages that finished each elimination are
/// kept to trace the solution back.
pub struct Elimination {
    pub initial_polys: Vec<Rc<Poly>>,
    pub polys: Vec<Rc<Poly>>,
    pub resolved_steps: Vec<EliminationStep>,
    pub x_var: u8,
    pub y_var: u8,
}

impl Elimination {
    /// Every kept stage is well formed.
    pub open spec fn steps_wf(&self) -> bool {
        forall|k: int| 0 <= k < self.resolved_steps@.len() ==> (#[trigger] self.resolved_steps@[k]).wf()
    }
}

/// The polynomials are canonical and their degrees fit in a `u32`.
pub open spec fn system_ok(ps: Seq<Rc<Poly>>) -> bool {
    forall|i: int| 0 <= i < ps.len() ==> canonical(#[trigger] trees(ps)[i]) && degrees_fit(trees(ps)[i])
}

impl Elimination {
    /// An elimination that starts from `initial_polys` with nothing resolved.
    pub fn new(initial_polys: &Vec<Rc<Poly>>, x_var: u8, y_var: u8) -> (r: Self)
        ensures
            r.initial_polys@ == initial_polys@,
            r.polys@ == initial_polys@,
            r.resolved_steps@.len() == 0,
            r.x_var == x_var,
            r.y_var == y_var,
    {
        let mut a: Vec<Rc<Poly>> = Vec::new();
        let mut b: Vec<Rc<Poly>> = Vec::new();
        let mut i: usize = 0;
        while i < initial_polys.len()
            invariant
                i <= initial_polys@.len(),
                a@ == initial_polys@.take(i as int),
                b@ == initial_polys@.take(i as int),
            decreases initial_polys@.len() - i,
        {
            a.push(Rc::clone(&initial_polys[i]));
            b.push(Rc::clone(&initial_polys[i]));
            assert(initial_polys@.take(i as int + 1) =~= initial_polys@.take(i as int).push(initial_polys@[i as int]));
            i = i + 1;
        }
        assert(initial_polys@.take(i as int) =~= initial_polys@);
        Elimination { initial_polys: a, polys: b, resolved_steps: Vec::new(), x_var, y_var }
    }

    /// The variable to eliminate next: of those other than `x_var` and
    /// `y_var`, the one of least positive degree (see `get_min_degree_var`).
    pub fn get_var_to_eliminate(&self) -> (r: Option<VarSearchResult>)
        requires
            forall|i: int| 0 <= i < self.polys@.len() ==> degrees_fit(#[trigger] trees(self.polys@)[i]),
        ensures
            ({
                let (m, v, k) = least_var_upto(trees(self.polys@), self.x_var, self.y_var, 256);
                match r {
                    None => m == u32::MAX,
                    Some(res) => m < u32::MAX && res.var as int == v && res.min_degree as int == m
                        && res.poly_index as int == k,
                }
            }),
    {
        Poly::get_min_degree_var(self.polys.as_slice(), self.x_var, self.y_var)
    }

    /// Eliminates `var_search_result.var` with the polynomial at
    /// `var_search_result.poly_index`: each other polynomial that has the
    /// variable goes through the stages of `EliminationStep` with the
    /// polynomial left by the previous one, and the final `poly_b`, which
    /// no longer has the variable, replaces it unless it is zero; the
    /// polynomials without the variable stay. The last elimination's final
    /// stage is kept. An error when a stage fails (see `get_next_step`);
    /// the stages end, as each lowers `stage_top` or keeps it and lowers
    /// `stage_rank`.
    pub fn eliminate_var(&mut self, var_search_result: VarSearchResult) -> (r: Result<(), String>)
        requires
            (var_search_result.poly_index as int) < old(self).polys@.len(),
            system_ok(old(self).polys@),
            exists|i: int|
                0 <= i < old(self).polys@.len() && i != var_search_result.poly_index as int && has_var_spec(
                    #[trigger] trees(old(self).polys@)[i],
                    var_search_result.var,
                ),
        ensures
            final(self).initial_polys == old(self).initial_polys,
            final(self).x_var == old(self).x_var,
            final(self).y_var == old(self).y_var,
            old(self).steps_wf() ==> final(self).steps_wf(),
            match r {
                Ok(()) => {
                    &&& system_ok(final(self).polys@)
                    &&& final(self).polys@.len() < old(self).polys@.len()
                    &&& forall|i: int| 0 <= i < final(self).polys@.len() ==> !has_var_spec(
                        #[trigger] trees(final(self).polys@)[i],
                        var_search_result.var,
                    )
                    &&& final(self).resolved_steps@.len() == old(self).resolved_steps@.len() + 1
                    &&& final(self).resolved_steps@.drop_last() == old(self).resolved_steps@
                    &&& final(self).resolved_steps@.last().wf()
                    &&& final(self).resolved_steps@.last().v == var_search_result.var
                    &&& final(self).resolved_steps@.last().degree_b == 0
                    &&& forall|env: spec_fn(u8) -> int| #[trigger] common_zero(trees(old(self).polys@), env)
                        ==> common_zero(trees(final(self).polys@), env)
                    &&& forall|i: int|
                        0 <= i < old(self).polys@.len() && i != var_search_result.poly_index as int && !has_var_spec(
                            #[trigger] trees(old(self).polys@)[i],
                            var_search_result.var,
                        ) ==> final(self).polys@.contains(old(self).polys@[i])
                },
                Err(m) => m@ == overflow_message() || m@ == degree_message(),
            },
    {
        let idx = var_search_result.poly_index;
        let var = var_search_result.var;
        let ghost ps = self.polys@;
        let mut new_polys: Vec<Rc<Poly>> = Vec::new();
        let mut final_step: Option<EliminationStep> = None;
        let mut poly_with_var: Rc<Poly> = Rc::clone(&self.polys[idx]);
        proof {
            assert(trees(ps)[idx as int] == sv(*ps[idx as int]));
        }
        let mut i: usize = 0;
        while i < self.polys.len()
            invariant
                ps == self.polys@,
                system_ok(ps),
                (idx as int) < ps.len(),
                i <= ps.len(),
                canonical(sv(*poly_with_var)),
                degrees_fit(sv(*poly_with_var)),
                system_ok(new_polys@),
                new_polys@.len() <= i,
                i > idx ==> new_polys@.len() < i,
                forall|k: int| 0 <= k < new_polys@.len() ==> !has_var_spec(#[trigger] trees(new_polys@)[k], var),
                final_step matches Some(st) ==> st.wf() && st.v == var && st.degree_b == 0 && st.poly_a
                    == poly_with_var,
                (exists|k: int| 0 <= k < i && k != idx as int && has_var_spec(#[trigger] trees(ps)[k], var))
                    ==> final_step is Some,
                forall|env: spec_fn(u8) -> int| #[trigger] common_zero(trees(ps), env) ==> eval(
                    sv(*poly_with_var),
                    env,
                ) == 0 && common_zero(trees(new_polys@), env),
                forall|k: int|
                    0 <= k < i && k != idx as int && !has_var_spec(#[trigger] trees(ps)[k], var)
                        ==> new_polys@.contains(ps[k]),
            decreases ps.len() - i,
        {
            if i == idx {
                i = i + 1;
                continue;
            }
            let poly: &Rc<Poly> = &self.polys[i];
            proof {
                assert(trees(ps)[i as int] == sv(*ps[i as int]));
            }
            let inner: &Poly = poly;
            if !inner.has_var(var) {
                let ghost before = new_polys@;
                new_polys.push(Rc::clone(poly));
                proof {
                    assert forall|k: int|
                        0 <= k < i + 1 && k != idx as int && !has_var_spec(#[trigger] trees(ps)[k], var) implies new_polys@.contains(
                            ps[k],
                        ) by {
                        if k == i {
                            assert(new_polys@[new_polys@.len() - 1] == ps[k]);
                        } else {
                            assert(before.contains(ps[k]));
                            let j = choose|j: int| 0 <= j < before.len() && before[j] == ps[k];
                            assert(new_polys@[j] == ps[k]);
                        }
                    }
                    assert forall|k: int| 0 <= k < new_polys@.len() implies canonical(#[trigger] trees(new_polys@)[k])
                        && degrees_fit(trees(new_polys@)[k]) && !has_var_spec(trees(new_polys@)[k], var) by {
                        if k < before.len() {
                            assert(trees(new_polys@)[k] == trees(before)[k]);
                        }
                    }
                    assert forall|env: spec_fn(u8) -> int| #[trigger] common_zero(trees(ps), env) implies eval(
                        sv(*poly_with_var),
                        env,
                    ) == 0 && common_zero(trees(new_polys@), env) by {
                        assert(common_zero(trees(before), env));
                        assert(eval(trees(ps)[i as int], env) == 0);
                        assert forall|k: int| 0 <= k < new_polys@.len() implies eval(#[trigger] trees(new_polys@)[k], env)
                            == 0 by {
                            if k < before.len() {
                                assert(trees(new_polys@)[k] == trees(before)[k]);
                            }
                        }
                    }
                }
                i = i + 1;
                continue;
            }
            proof {
                lemma_canonical_ordered(trees(ps)[i as int]);
                lemma_canonical_ordered(rc_tree(&poly_with_var));
            }
            let mut step = EliminationStep::new(var, Rc::clone(poly), Rc::clone(&poly_with_var));
            proof {
                assert forall|env: spec_fn(u8) -> int| #[trigger] common_zero(trees(ps), env) implies eval(
                    sv(*step.poly_a),
                    env,
                ) == 0 && eval(sv(*step.poly_b), env) == 0 by {
                    assert(eval(trees(ps)[i as int], env) == 0);
                }
            }
            loop
                invariant
                    step.wf(),
                    step.v == var,
                    canonical(sv(*step.poly_a)),
                    canonical(sv(*step.poly_b)),
                    forall|env: spec_fn(u8) -> int| #[trigger] common_zero(trees(ps), env) ==> eval(
                        sv(*step.poly_a),
                        env,
                    ) == 0 && eval(sv(*step.poly_b), env) == 0,
                ensures
                    step.wf(),
                    step.v == var,
                    canonical(sv(*step.poly_a)),
                    canonical(sv(*step.poly_b)),
                    step.degree_b == 0,
                    forall|env: spec_fn(u8) -> int| #[trigger] common_zero(trees(ps), env) ==> eval(
                        sv(*step.poly_a),
                        env,
                    ) == 0 && eval(sv(*step.poly_b), env) == 0,
                decreases stage_top(step.degree_a as int, step.degree_b as int), stage_rank(
                    step.degree_a as int,
                    step.degree_b as int,
                ),
            {
                match step.get_next_step() {
                    Ok(Some(next)) => {
                        proof {
                            let t = choose|t: SPoly| #[trigger] step.next_of(next, t);
                            lemma_large_reduced_ordered(t);
                            assert(next.degree_a == step.degree_b);
                        }
                        step = next;
                    },
                    Ok(None) => {
                        break;
                    },
                    Err(m) => {
                        return Err(m);
                    },
                }
            }
            let is_zero = match &*step.poly_b {
                Poly::Constant(c) => *c == 0,
                Poly::Nested(_, _) => false,
            };
            proof {
                lemma_degree_zero_free(rc_tree(&step.poly_b), var);
            }
            if !is_zero {
                let ghost before = new_polys@;
                new_polys.push(Rc::clone(&step.poly_b));
                proof {
                    assert forall|k: int|
                        0 <= k < i && k != idx as int && !has_var_spec(#[trigger] trees(ps)[k], var) implies new_polys@.contains(
                            ps[k],
                        ) by {
                        assert(before.contains(ps[k]));
                        let j = choose|j: int| 0 <= j < before.len() && before[j] == ps[k];
                        assert(new_polys@[j] == ps[k]);
                    }
                    assert forall|k: int| 0 <= k < new_polys@.len() implies canonical(#[trigger] trees(new_polys@)[k])
                        && degrees_fit(trees(new_polys@)[k]) && !has_var_spec(trees(new_polys@)[k], var) by {
                        if k < before.len() {
                            assert(trees(new_polys@)[k] == trees(before)[k]);
                        }
                    }
                    assert forall|env: spec_fn(u8) -> int| #[trigger] common_zero(trees(ps), env) implies common_zero(
                        trees(new_polys@),
                        env,
                    ) by {
                        assert(common_zero(trees(before), env));
                        assert forall|k: int| 0 <= k < new_polys@.len() implies eval(#[trigger] trees(new_polys@)[k], env)
                            == 0 by {
                            if k < before.len() {
                                assert(trees(new_polys@)[k] == trees(before)[k]);
                            }
                        }
                    }
                }
            }
            poly_with_var = Rc::clone(&step.poly_a);
            final_step = Some(step);
            i = i + 1;
        }
        match final_step {
            Some(st) => {
                let ghost old_steps = self.resolved_steps@;
                self.resolved_steps.push(st);
                self.polys = new_polys;
                proof {
                    assert forall|k: int| 0 <= k < self.resolved_steps@.len() && (forall|j: int| 0 <= j < old_steps.len()
                        ==> (#[trigger] old_steps[j]).wf()) implies (#[trigger] self.resolved_steps@[k]).wf() by {
                        if k < old_steps.len() {
                            assert(self.resolved_steps@[k] == old_steps[k]);
                        }
                    }
                }
                Ok(())
            },
            None => {
                proof {
                    assert(false);
                }
                Ok(())
            },
        }
    }
}

} // verus!

verus! {

broadcast use vstd::std_specs::hash::group_hash_axioms;

/// `a` modulo `q`; `None` when `q` is zero, when its leading coefficient has
/// no inverse modulo the prime, or when the two lengths add up beyond a `usize`.
fn rem_mod(a: &ModularPoly, q: &ModularPoly) -> (r: Option<ModularPoly>)
    requires
        a.p == q.p,
        q.p >= 2,
        a.wf(),
        q.wf(),
    ensures
        r matches Some(x) ==> x.p == q.p && x.wf() && exists|qq: Seq<u64>| #[trigger] division_identity(
            a.coeffs@,
            qq,
            q.coeffs@,
            x.coeffs@,
            q.p as int,
        ),
        r matches Some(x) ==> seq_is_zero(x.coeffs@) || x.coeffs@.len() <= seq_degree(q.coeffs@),
        r matches Some(x) ==> (seq_is_zero(a.coeffs@) ==> x.coeffs@ == seq![0u64]),
        r is None <==> (seq_is_zero(q.coeffs@) || !has_inverse(leading(q.coeffs@), q.p as int) || a.coeffs@.len()
            + q.coeffs@.len() > usize::MAX),
{
    if q.is_zero() {
        return None;
    }
    if !q.has_leading_inverse() {
        return None;
    }
    if a.coeffs.len() > usize::MAX - q.coeffs.len() {
        return None;
    }
    a.remainder(q)
}

/// Whether every variable of the polynomial has an entry in the map (see `vars_in_map`).
fn vars_covered(poly: &Poly, map: &HashMap<u8, (ModularPoly, u8)>) -> (r: bool)
    ensures
        r == vars_in_map(sv(*poly), map@),
{
    let mut vars = [false; 256];
    poly.fill_in_variables(&mut vars);
    let mut u: usize = 0;
    while u < 256
        invariant
            u <= 256,
            vars@.len() == 256,
            forall|w: int| 0 <= w < 256 ==> #[trigger] vars@[w] == mentions(sv(*poly), w),
            forall|w: int| 0 <= w < u && #[trigger] mentions(sv(*poly), w) ==> map@.contains_key(w as u8),
        decreases 256 - u,
    {
        assert(vars@[u as int] == mentions(sv(*poly), u as int));
        if vars[u] && !map.contains_key(&(u as u8)) {
            return false;
        }
        u = u + 1;
    }
    true
}

/// Whether every constant lies within `i64::MAX` in absolute value.
fn within_i64(poly: &Poly) -> (r: bool)
    ensures
        r == bounded(sv(*poly), i64::MAX as int),
{
    let m = poly.max_abs_coefficient();
    proof {
        lemma_max_abs(sv(*poly));
    }
    if m <= i64::MAX as u64 {
        proof {
            lemma_bounded_mono(sv(*poly), max_abs(sv(*poly)), i64::MAX as int);
        }
        true
    } else {
        proof {
            if bounded(sv(*poly), i64::MAX as int) {
                lemma_max_abs_least(sv(*poly), i64::MAX as int);
            }
        }
        false
    }
}

/// The message `m` as a string.
pub(crate) fn message_of(m: &str) -> (r: String)
    ensures
        r@ == m@,
{
    let mut s = String::new();
    push_str(&mut s, m);
    s
}

/// `poly` with the variables replaced by the map's polynomials (see
/// `substitute_modular_polys`), when every variable has an entry and every
/// constant lies within `i64::MAX`.
fn substitute_checked(poly: &Poly, map: &HashMap<u8, (ModularPoly, u8)>) -> (r: Result<ModularPoly, String>)
    requires
        subst_map_uniform(map@),
    ensures
        r matches Ok(mp) ==> mp.p == map_modulus(map@) && mp.wf() && subst(sv(*poly), map@, map_modulus(map@) as int)
            == Ok::<Seq<u64>, Seq<char>>(mp.coeffs@),
        r is Ok <==> (vars_in_map(sv(*poly), map@) && bounded(sv(*poly), i64::MAX as int) && subst(
            sv(*poly),
            map@,
            map_modulus(map@) as int,
        ) is Ok),
{
    if !vars_covered(poly, map) {
        return Err(message_of("Variable without a substitute"));
    }
    if !within_i64(poly) {
        return Err(message_of("Coefficient overflow"));
    }
    poly.substitute_modular_polys(map)
}

impl EliminationStep {
    /// `poly_a` split at its degree in `v`: the leading coefficient and the rest.
    pub open spec fn split_a(&self) -> (SPoly, SPoly) {
        split_at(sv(*self.poly_a), self.v, degree_in(sv(*self.poly_a), self.v))
    }

    /// Solves the final stage of an elimination for its variable modulo `q`:
    /// `poly_a` is `f * v^d + g` with `d` its degree in `v` (see `split_at`);
    /// `f` and `g` must be free of `v`, they are substituted by the map (see
    /// `substitute_modular_polys`) and reduced modulo `q`, and `v^d` is
    /// `-g / f` modulo `q`, the answer being that polynomial with `d`; when
    /// both are zero any polynomial of degree one will do, and one is drawn
    /// at random. Either way the answer `z` solves `f * z + g = 0` modulo `q`
    /// (see `root_mod`), and outside the random case it is reduced modulo `q`.
    pub fn express_var_as_modular_poly(
        &self,
        var_replacements: &HashMap<u8, (ModularPoly, u8)>,
        q: &ModularPoly,
    ) -> (r: Result<(ModularPoly, u8), String>)
        requires
            self.wf(),
            subst_map_uniform(var_replacements@),
            q.wf(),
            q.p >= 2,
            q.p == map_modulus(var_replacements@),
        ensures
            r matches Ok((m, d)) ==> m.p == q.p && m.wf() && (d == 1 || d as int == degree_in(sv(*self.poly_a), self.v) % 256),
            has_var_spec(split_at(sv(*self.poly_a), self.v, degree_in(sv(*self.poly_a), self.v)).0, self.v) ==> r
                is Err,
            has_var_spec(split_at(sv(*self.poly_a), self.v, degree_in(sv(*self.poly_a), self.v)).1, self.v) ==> r
                is Err,
            !substitutes(split_at(sv(*self.poly_a), self.v, degree_in(sv(*self.poly_a), self.v)).0, var_replacements@)
                ==> r is Err,
            !substitutes(split_at(sv(*self.poly_a), self.v, degree_in(sv(*self.poly_a), self.v)).1, var_replacements@)
                ==> r is Err,
            !has_var_spec(split_at(sv(*self.poly_a), self.v, degree_in(sv(*self.poly_a), self.v)).0, self.v)
                && !has_var_spec(split_at(sv(*self.poly_a), self.v, degree_in(sv(*self.poly_a), self.v)).1, self.v)
                && substitutes_to_zero(
                split_at(sv(*self.poly_a), self.v, degree_in(sv(*self.poly_a), self.v)).0,
                var_replacements@,
            ) && substitutes_to_zero(
                split_at(sv(*self.poly_a), self.v, degree_in(sv(*self.poly_a), self.v)).1,
                var_replacements@,
            ) && !seq_is_zero(q.coeffs@) && has_inverse(leading(q.coeffs@), q.p as int) && q.coeffs@.len() < usize::MAX
                ==> (r matches Ok((m, d)) && d == 1 && m.coeffs@.len() <= 2),
            r matches Ok((m, d)) ==> root_mod(
                m.coeffs@,
                subst(self.split_a().0, var_replacements@, q.p as int)->Ok_0,
                subst(self.split_a().1, var_replacements@, q.p as int)->Ok_0,
                q.coeffs@,
                q.p as int,
            ),
            r matches Ok((m, d)) ==> (!(zero_mod(subst(self.split_a().0, var_replacements@, q.p as int)->Ok_0, q.coeffs@, q.p as int)
                && zero_mod(subst(self.split_a().1, var_replacements@, q.p as int)->Ok_0, q.coeffs@, q.p as int))
                ==> d as int == degree_in(sv(*self.poly_a), self.v) % 256 && (m.coeffs@.len() <= 1 || m.coeffs@.len() <= seq_degree(q.coeffs@))),
    {
        let pa: &Poly = &self.poly_a;
        let degree = pa.get_degree(self.v);
        let (factor, remainder) = pa.extract_factor_and_remainder(self.v, degree);
        if factor.has_var(self.v) {
            let mut m = String::new();
            let name = Poly::var_to_string(self.v);
            m.append(name.as_str());
            push_char(&mut m, '^');
            push_decimal(&mut m, degree as u64);
            push_str(&mut m, " in ");
            let t = pa.to_string();
            m.append(t.as_str());
            push_str(&mut m, " has the factor ");
            let f: &Poly = &factor;
            let ft = f.to_string();
            m.append(ft.as_str());
            push_str(&mut m, " (");
            let fd = f.debug_text();
            m.append(fd.as_str());
            push_char(&mut m, ')');
            return Err(m);
        }
        if remainder.has_var(self.v) {
            let mut m = String::new();
            let name = Poly::var_to_string(self.v);
            m.append(name.as_str());
            push_char(&mut m, '^');
            push_decimal(&mut m, degree as u64);
            push_str(&mut m, " in ");
            let t = pa.to_string();
            m.append(t.as_str());
            push_str(&mut m, " has the remainder ");
            let r: &Poly = &remainder;
            let rt = r.to_string();
            m.append(rt.as_str());
            return Err(m);
        }
        let factor_sub = substitute_checked(&factor, var_replacements)?;
        let ghost g = factor_sub.coeffs@;
        let modular_factor = match rem_mod(&factor_sub, q) {
            Some(x) => x,
            None => {
                return Err(message_of("Division by the polynomial is not possible"));
            },
        };
        let remainder_sub = substitute_checked(&remainder, var_replacements)?;
        let ghost h = remainder_sub.coeffs@;
        let modular_remainder = match rem_mod(&remainder_sub, q) {
            Some(x) => x,
            None => {
                return Err(message_of("Division by the polynomial is not possible"));
            },
        };
        let ghost pp = q.p as int;
        let ghost gr = modular_factor.coeffs@;
        let ghost hr = modular_remainder.coeffs@;
        let ghost qg = choose|qq: Seq<u64>| #[trigger] division_identity(g, qq, q.coeffs@, gr, pp);
        let ghost qh = choose|qq: Seq<u64>| #[trigger] division_identity(h, qq, q.coeffs@, hr, pp);
        if modular_factor.is_zero() && modular_remainder.is_zero() {
            let z = ModularPoly::random(1, q.p);
            proof {
                assert forall|k: int| #[trigger] coef(gr, k) == coef(seq![0u64], k) by {}
                assert forall|k: int| #[trigger] coef(hr, k) == coef(seq![0u64], k) by {}
                assert(division_identity(g, qg, q.coeffs@, seq![0u64], pp));
                assert(division_identity(h, qh, q.coeffs@, seq![0u64], pp));
                lemma_root_trivial(g, h, z.coeffs@, q.coeffs@, pp);
            }
            return Ok((z, 1));
        }
        proof {
            if zero_mod(g, q.coeffs@, pp) && zero_mod(h, q.coeffs@, pp) {
                let q1 = choose|qq: Seq<u64>| #[trigger] division_identity(g, qq, q.coeffs@, seq![0u64], pp);
                let q2 = choose|qq: Seq<u64>| #[trigger] division_identity(h, qq, q.coeffs@, seq![0u64], pp);
                lemma_remainder_unique(g, q1, seq![0u64], qg, gr, q.coeffs@, pp);
                lemma_remainder_unique(h, q2, seq![0u64], qh, hr, q.coeffs@, pp);
                assert(coef(gr, gr.len() - 1) == coef(seq![0u64], gr.len() - 1));
                assert(coef(hr, hr.len() - 1) == coef(seq![0u64], hr.len() - 1));
                assert(coef(gr, 0) == coef(seq![0u64], 0));
                assert(coef(hr, 0) == coef(seq![0u64], 0));
                assert(seq_is_zero(gr) && seq_is_zero(hr));
                assert(false);
            }
        }
        let inv = match modular_factor.get_inverse(q) {
            Some(x) => x,
            None => {
                let mut m = modular_factor.to_string();
                push_str(&mut m, " has no inverse modulo ");
                let qt = q.to_string();
                m.append(qt.as_str());
                return Err(m);
            },
        };
        if modular_remainder.coeffs.len() > usize::MAX / 2 || inv.coeffs.len() > usize::MAX / 2 {
            return Err(message_of("Coefficient overflow"));
        }
        let prod = modular_remainder.mul(&inv);
        let product = match rem_mod(&prod, q) {
            Some(x) => x,
            None => {
                return Err(message_of("Division by the polynomial is not possible"));
            },
        };
        let zero = ModularPoly::new(vec![0], q.p);
        let result = zero.sub(&product);
        proof {
            let t1 = choose|t: Seq<u64>| #[trigger] bezout(seq![1u64], inv.coeffs@, t, gr, q.coeffs@, pp);
            let qq = choose|qq: Seq<u64>| #[trigger] division_identity(prod.coeffs@, qq, q.coeffs@, product.coeffs@, pp);
            assert(zero.coeffs@ =~= seq![0u64]);
            lemma_mul_result_cm(hr, inv.coeffs@, prod.coeffs@, pp);
            lemma_neg_result_cm(product.coeffs@, result.coeffs@, pp);
            lemma_root(g, h, gr, hr, qg, qh, inv.coeffs@, t1, prod.coeffs@, qq, product.coeffs@, result.coeffs@, q.coeffs@, pp);
        }
        let d8 = #[verifier::truncate] (degree as u8);
        assert(d8 == (degree % 256) as u8) by (bit_vector)
            requires
                d8 == #[verifier::truncate] (degree as u8),
        ;
        Ok((result, d8))
    }
}

} // verus!

verus! {

/// A substitution succeeded and gave a multiple of `q` modulo `p`.
pub open spec fn vanishes_mod(res: Result<Seq<u64>, Seq<char>>, q: Seq<u64>, p: int) -> bool {
    &&& res is Ok
    &&& exists|qq: Seq<u64>, r: Seq<u64>| seq_is_zero(r) && #[trigger] division_identity(res->Ok_0, qq, q, r, p)
}

/// A zero remainder makes a multiple.
proof fn lemma_vanishes_mod(c: Seq<u64>, qq: Seq<u64>, q: Seq<u64>, r: Seq<u64>, p: int)
    requires
        seq_is_zero(r),
        division_identity(c, qq, q, r, p),
    ensures
        vanishes_mod(Ok::<Seq<u64>, Seq<char>>(c), q, p),
{
    assert(Ok::<Seq<u64>, Seq<char>>(c)->Ok_0 == c);
}

/// Every variable of the tree is `x` or `y`.
pub open spec fn only_xy(s: SPoly, x: u8, y: u8) -> bool {
    forall|u: int| 0 <= u < 256 && #[trigger] mentions(s, u) ==> u == x || u == y
}

/// The substitution of `x` and `y` by the polynomials `xp` and `yp`.
pub open spec fn factor_map(x: u8, y: u8, xp: ModularPoly, yp: ModularPoly) -> Map<u8, (ModularPoly, u8)> {
    Map::empty().insert(x, (xp, 1u8)).insert(y, (yp, 1u8))
}

/// A factor confirmed with the prime `p` and the polynomials `xp` and `yp`
/// for `x` and `y`: with them it becomes a polynomial `q`, and the
/// substitution that the kept stages give modulo `q` (see `chain_map`)
/// makes every initial polynomial a multiple of `q` modulo `p`.
pub open spec fn confirmed_with(e: Elimination, factor: SPoly, p: u64, xp: ModularPoly, yp: ModularPoly) -> bool {
    let q = subst(factor, factor_map(e.x_var, e.y_var, xp, yp), p as int);
    &&& q is Ok
    &&& exists|m: Map<u8, (ModularPoly, u8)>|
        #[trigger] all_vanish(trees(e.initial_polys@), m, q->Ok_0, p as int) && chain_map(e, m, xp, yp, q->Ok_0, p as int)
}

/// A substitution as `check_factor_with` builds it: one prime `p`, and an
/// entry for `x`, for `y` and for the variable of every kept stage.
pub open spec fn built_map(e: Elimination, m: Map<u8, (ModularPoly, u8)>, p: u64) -> bool {
    &&& subst_map_uniform(m)
    &&& map_modulus(m) == p
    &&& m.contains_key(e.x_var)
    &&& m.contains_key(e.y_var)
    &&& forall|j: int| 0 <= j < e.resolved_steps@.len() ==> m.contains_key(#[trigger] e.resolved_steps@[j].v)
}

/// `m1` is `m0` with the variable of the stage given a solution `z`, of
/// degree `d`, of the stage's last equation modulo `q` (see
/// `express_var_as_modular_poly`).
pub open spec fn solved_by(
    st: EliminationStep,
    m0: Map<u8, (ModularPoly, u8)>,
    m1: Map<u8, (ModularPoly, u8)>,
    z: ModularPoly,
    d: u8,
    q: Seq<u64>,
    p: int,
) -> bool {
    &&& m1 == m0.insert(st.v, (z, d))
    &&& z.p == p
    &&& z.wf()
    &&& root_mod(z.coeffs@, subst(st.split_a().0, m0, p)->Ok_0, subst(st.split_a().1, m0, p)->Ok_0, q, p)
}

/// Map `t + 1` of `ms` adds the solution of a kept stage, counted from the
/// last, to map `t` (see `solved_by`).
pub open spec fn stage_solved_at(e: Elimination, ms: Seq<Map<u8, (ModularPoly, u8)>>, q: Seq<u64>, p: int, t: int) -> bool {
    exists|z: ModularPoly, d: u8|
        #[trigger] solved_by(e.resolved_steps@[e.resolved_steps@.len() - 1 - t], ms[t], ms[t + 1], z, d, q, p)
}

/// The maps `ms` follow the kept stages from the last to the first: each
/// adds the solution of the next stage to the one before.
pub open spec fn stages_solved(e: Elimination, ms: Seq<Map<u8, (ModularPoly, u8)>>, q: Seq<u64>, p: int) -> bool {
    &&& 1 <= ms.len() <= e.resolved_steps@.len() + 1
    &&& forall|t: int| 0 <= t < ms.len() - 1 ==> #[trigger] stage_solved_at(e, ms, q, p, t)
}

/// The first map of `chain_map`: `x` and `y` with their polynomials reduced
/// modulo `q`.
pub open spec fn chain_start(
    e: Elimination,
    m0: Map<u8, (ModularPoly, u8)>,
    xp: ModularPoly,
    yp: ModularPoly,
    xq: ModularPoly,
    yq: ModularPoly,
    q: Seq<u64>,
    p: int,
) -> bool {
    &&& m0 == factor_map(e.x_var, e.y_var, xp, yp).insert(e.x_var, (xq, 1u8)).insert(e.y_var, (yq, 1u8))
    &&& exists|qx: Seq<u64>| #[trigger] division_identity(
        factor_map(e.x_var, e.y_var, xp, yp)[e.x_var].0.coeffs@,
        qx,
        q,
        xq.coeffs@,
        p,
    )
    &&& exists|qy: Seq<u64>| #[trigger] division_identity(
        factor_map(e.x_var, e.y_var, xp, yp)[e.y_var].0.coeffs@,
        qy,
        q,
        yq.coeffs@,
        p,
    )
}

/// One more kept stage solved keeps `stages_solved`.
proof fn lemma_stages_push(
    e: Elimination,
    ms: Seq<Map<u8, (ModularPoly, u8)>>,
    m1: Map<u8, (ModularPoly, u8)>,
    z: ModularPoly,
    d: u8,
    q: Seq<u64>,
    p: int,
)
    requires
        stages_solved(e, ms, q, p),
        ms.len() <= e.resolved_steps@.len(),
        solved_by(e.resolved_steps@[e.resolved_steps@.len() - ms.len()], ms.last(), m1, z, d, q, p),
    ensures
        stages_solved(e, ms.push(m1), q, p),
{
    let ms2 = ms.push(m1);
    assert forall|t: int| 0 <= t < ms2.len() - 1 implies #[trigger] stage_solved_at(e, ms2, q, p, t) by {
        if t < ms.len() - 1 {
            assert(stage_solved_at(e, ms, q, p, t));
            assert(ms2[t] == ms[t] && ms2[t + 1] == ms[t + 1]);
            let (z0, d0) = choose|z0: ModularPoly, d0: u8|
                #[trigger] solved_by(e.resolved_steps@[e.resolved_steps@.len() - 1 - t], ms[t], ms[t + 1], z0, d0, q, p);
            assert(solved_by(e.resolved_steps@[e.resolved_steps@.len() - 1 - t], ms2[t], ms2[t + 1], z0, d0, q, p));
        } else {
            assert(ms2[t] == ms.last());
            assert(ms2[t + 1] == m1);
            assert(solved_by(e.resolved_steps@[e.resolved_steps@.len() - 1 - t], ms2[t], ms2[t + 1], z, d, q, p));
        }
    }
}

/// The map that `check_factor_with` builds for the factor's value `q`: `x`
/// and `y` get their polynomials reduced modulo `q`, then each kept stage,
/// from the last to the first, gives its variable (see `solved_by`).
pub open spec fn chain_map(
    e: Elimination,
    m: Map<u8, (ModularPoly, u8)>,
    xp: ModularPoly,
    yp: ModularPoly,
    q: Seq<u64>,
    p: int,
) -> bool {
    exists|ms: Seq<Map<u8, (ModularPoly, u8)>>, xq: ModularPoly, yq: ModularPoly|
        #![trigger stages_solved(e, ms, q, p), chain_start(e, ms[0], xp, yp, xq, yq, q, p)]
        stages_solved(e, ms, q, p) && ms.len() == e.resolved_steps@.len() + 1 && ms.last() == m && chain_start(
            e,
            ms[0],
            xp,
            yp,
            xq,
            yq,
            q,
            p,
        )
}

/// Every tree of `ps` passes `holds_mod` with `m`, `q` and `p`.
pub open spec fn all_hold(ps: Seq<SPoly>, m: Map<u8, (ModularPoly, u8)>, q: Seq<u64>, p: int) -> bool {
    forall|i: int| 0 <= i < ps.len() ==> holds_mod(#[trigger] ps[i], m, q, p)
}

/// With the substitution `m`, every tree of `ps` becomes a multiple of `q` modulo `p`.
pub open spec fn all_vanish(ps: Seq<SPoly>, m: Map<u8, (ModularPoly, u8)>, q: Seq<u64>, p: int) -> bool {
    forall|i: int| 0 <= i < ps.len() ==> vanishes_mod(#[trigger] subst(ps[i], m, p), q, p)
}

/// The tree can be substituted with the map, the division by `q` modulo `p`
/// can be made (see `rem_mod`), and the substituted polynomial is a
/// multiple of `q`.
pub open spec fn holds_mod(s: SPoly, m: Map<u8, (ModularPoly, u8)>, q: Seq<u64>, p: int) -> bool {
    &&& substitutes(s, m)
    &&& !seq_is_zero(q)
    &&& has_inverse(leading(q), p)
    &&& subst(s, m, p)->Ok_0.len() + q.len() <= usize::MAX
    &&& vanishes_mod(subst(s, m, p), q, p)
}

/// A remainder below the degree of `q` of a multiple of `q` is zero.
proof fn lemma_zero_remainder(c: Seq<u64>, q: Seq<u64>, p: int, x: Seq<u64>, qq2: Seq<u64>)
    requires
        p >= 2,
        vanishes_mod(Ok::<Seq<u64>, Seq<char>>(c), q, p),
        division_identity(c, qq2, q, x, p),
        reduced(x, p),
        normalized(x),
        seq_is_zero(x) || x.len() <= seq_degree(q),
        !seq_is_zero(q),
        has_inverse(leading(q), p),
    ensures
        seq_is_zero(x),
{
    let (qq, r0) = choose|qq: Seq<u64>, r: Seq<u64>| seq_is_zero(r) && #[trigger] division_identity(
        Ok::<Seq<u64>, Seq<char>>(c)->Ok_0,
        qq,
        q,
        r,
        p,
    );
    assert(Ok::<Seq<u64>, Seq<char>>(c)->Ok_0 == c);
    assert(reduced(r0, p));
    lemma_remainder_unique(c, qq, r0, qq2, x, q, p);
    assert forall|k: int| #[trigger] coef(x, k) == 0 by {
        assert(coef(r0, k) == coef(x, k));
    }
    if x.len() >= 2 {
        assert(coef(x, x.len() - 1) == 0);
    }
    if x.len() == 1 {
        assert(coef(x, 0) == 0);
    }
}

/// The tree can be substituted with the map (see `substitute_checked`).
pub open spec fn substitutes(s: SPoly, m: Map<u8, (ModularPoly, u8)>) -> bool {
    vars_in_map(s, m) && bounded(s, i64::MAX as int) && subst(s, m, map_modulus(m) as int) is Ok
}

/// The tree can be substituted with the map and becomes the zero polynomial.
pub open spec fn substitutes_to_zero(s: SPoly, m: Map<u8, (ModularPoly, u8)>) -> bool {
    substitutes(s, m) && seq_is_zero(subst(s, m, map_modulus(m) as int)->Ok_0)
}

impl Elimination {
    /// Whether every initial polynomial, with the variables replaced by the
    /// map's polynomials (see `substitute_modular_polys`), is a multiple of
    /// `q`; `false` as soon as one is not or cannot be substituted.
    fn verify_equations_hold(&self, var_replacements: &HashMap<u8, (ModularPoly, u8)>, q: &ModularPoly) -> (r: bool)
        requires
            subst_map_uniform(var_replacements@),
            q.wf(),
            q.p >= 2,
            q.p == map_modulus(var_replacements@),
        ensures
            r ==> forall|i: int| 0 <= i < self.initial_polys@.len() ==> vanishes_mod(
                #[trigger] subst(trees(self.initial_polys@)[i], var_replacements@, q.p as int),
                q.coeffs@,
                q.p as int,
            ),
            r == forall|i: int| 0 <= i < self.initial_polys@.len() ==> holds_mod(
                #[trigger] trees(self.initial_polys@)[i],
                var_replacements@,
                q.coeffs@,
                q.p as int,
            ),
    {
        let mut i: usize = 0;
        while i < self.initial_polys.len()
            invariant
                i <= self.initial_polys@.len(),
                forall|k: int| 0 <= k < i ==> holds_mod(
                    #[trigger] trees(self.initial_polys@)[k],
                    var_replacements@,
                    q.coeffs@,
                    q.p as int,
                ),
                subst_map_uniform(var_replacements@),
                q.wf(),
                q.p >= 2,
                q.p == map_modulus(var_replacements@),
                forall|k: int| 0 <= k < i ==> vanishes_mod(
                    #[trigger] subst(trees(self.initial_polys@)[k], var_replacements@, q.p as int),
                    q.coeffs@,
                    q.p as int,
                ),
            decreases self.initial_polys@.len() - i,
        {
            let poly: &Poly = &self.initial_polys[i];
            assert(trees(self.initial_polys@)[i as int] == sv(*poly));
            let ghost t = trees(self.initial_polys@)[i as int];
            let substituted = match substitute_checked(poly, var_replacements) {
                Ok(x) => x,
                Err(_) => {
                    assert(!holds_mod(t, var_replacements@, q.coeffs@, q.p as int));
                    return false;
                },
            };
            let remainder = match rem_mod(&substituted, q) {
                Some(x) => x,
                None => {
                    assert(!holds_mod(t, var_replacements@, q.coeffs@, q.p as int));
                    return false;
                },
            };
            if !remainder.is_zero() {
                proof {
                    if vanishes_mod(subst(t, var_replacements@, q.p as int), q.coeffs@, q.p as int) {
                        let qq2 = choose|qq: Seq<u64>| #[trigger] division_identity(
                            substituted.coeffs@,
                            qq,
                            q.coeffs@,
                            remainder.coeffs@,
                            q.p as int,
                        );
                        lemma_zero_remainder(substituted.coeffs@, q.coeffs@, q.p as int, remainder.coeffs@, qq2);
                    }
                    assert(!holds_mod(t, var_replacements@, q.coeffs@, q.p as int));
                }
                return false;
            }
            proof {
                let qq = choose|qq: Seq<u64>| #[trigger] division_identity(
                    substituted.coeffs@,
                    qq,
                    q.coeffs@,
                    remainder.coeffs@,
                    q.p as int,
                );
                assert(division_identity(substituted.coeffs@, qq, q.coeffs@, remainder.coeffs@, q.p as int));
                assert(seq_is_zero(remainder.coeffs@));
                assert(subst(sv(*poly), var_replacements@, map_modulus(var_replacements@) as int) == Ok::<
                    Seq<u64>,
                    Seq<char>,
                >(substituted.coeffs@));
                assert(subst(trees(self.initial_polys@)[i as int], var_replacements@, q.p as int) == Ok::<
                    Seq<u64>,
                    Seq<char>,
                >(substituted.coeffs@));
                lemma_vanishes_mod(substituted.coeffs@, qq, q.coeffs@, remainder.coeffs@, q.p as int);
                assert(vanishes_mod(
                    subst(trees(self.initial_polys@)[i as int], var_replacements@, q.p as int),
                    q.coeffs@,
                    q.p as int,
                ));
                assert(holds_mod(t, var_replacements@, q.coeffs@, q.p as int));
            }
            i = i + 1;
        }
        true
    }

    /// Tests a factor of the final equation with given choices: the prime
    /// `p` and the polynomials `x_poly` and `y_poly` for `x` and `y`. The
    /// factor with them is `q`; modulo `q`, the kept stages give each
    /// eliminated variable from the last to the first (see
    /// `express_var_as_modular_poly`), and the answer is whether every
    /// initial polynomial then vanishes modulo `q` (see
    /// `verify_equations_hold`); `false` when `q` is zero, as the test
    /// cannot decide.
    pub fn check_factor_with(&self, factor: &Poly, p: u64, x_poly: ModularPoly, y_poly: ModularPoly) -> (r: Result<
        bool,
        String,
    >)
        requires
            self.steps_wf(),
            p >= 2,
            x_poly.p == p,
            y_poly.p == p,
            x_poly.wf(),
            y_poly.wf(),
        ensures
            !(only_xy(sv(*factor), self.x_var, self.y_var) && bounded(sv(*factor), i64::MAX as int)) ==> r is Err,
            subst(sv(*factor), factor_map(self.x_var, self.y_var, x_poly, y_poly), p as int) is Err ==> r is Err,
            only_xy(sv(*factor), self.x_var, self.y_var) && bounded(sv(*factor), i64::MAX as int) && (subst(
                sv(*factor),
                factor_map(self.x_var, self.y_var, x_poly, y_poly),
                p as int,
            ) matches Ok(c) && seq_is_zero(c)) ==> r == Ok::<bool, String>(false),
            r == Ok::<bool, String>(true) ==> confirmed_with(*self, sv(*factor), p, x_poly, y_poly),
            r matches Ok(b) ==> (subst(sv(*factor), factor_map(self.x_var, self.y_var, x_poly, y_poly), p as int) matches Ok(
                c,
            ) && (seq_is_zero(c) ==> !b) && (!seq_is_zero(c) ==> exists|m: Map<u8, (ModularPoly, u8)>|
                #[trigger] built_map(*self, m, p) && chain_map(*self, m, x_poly, y_poly, c, p as int) && b == all_hold(
                trees(self.initial_polys@),
                m,
                c,
                p as int,
            ))),
    {
        let ghost xp = x_poly;
        let ghost yp = y_poly;
        let mut var_replacements: HashMap<u8, (ModularPoly, u8)> = HashMap::new();
        var_replacements.insert(self.x_var, (x_poly, 1));
        var_replacements.insert(self.y_var, (y_poly, 1));
        proof {
            assert(var_replacements@.contains_key(self.y_var));
            assert(subst_map_uniform(var_replacements@));
            assert(map_modulus(var_replacements@) == p);
            assert(var_replacements@ == factor_map(self.x_var, self.y_var, xp, yp));
            if !only_xy(sv(*factor), self.x_var, self.y_var) {
                let u = choose|u: int| !(0 <= u < 256 && #[trigger] mentions(sv(*factor), u) ==> u == self.x_var
                    || u == self.y_var);
                assert(!var_replacements@.contains_key(u as u8));
                assert(!vars_in_map(sv(*factor), var_replacements@));
            }
        }
        let ghost base = var_replacements@;
        let q = substitute_checked(factor, &var_replacements)?;
        if q.is_zero() {
            return Ok(false);
        }
        let xq = match var_replacements.get(&self.x_var) {
            Some(e) => match rem_mod(&e.0, &q) {
                Some(x) => x,
                None => {
                    return Err(message_of("Division by the polynomial is not possible"));
                },
            },
            None => {
                return Err(message_of("Variable without a substitute"));
            },
        };
        let yq = match var_replacements.get(&self.y_var) {
            Some(e) => match rem_mod(&e.0, &q) {
                Some(x) => x,
                None => {
                    return Err(message_of("Division by the polynomial is not possible"));
                },
            },
            None => {
                return Err(message_of("Variable without a substitute"));
            },
        };
        let ghost xqg = xq;
        let ghost yqg = yq;
        var_replacements.insert(self.x_var, (xq, 1));
        var_replacements.insert(self.y_var, (yq, 1));
        let ghost mut ms: Seq<Map<u8, (ModularPoly, u8)>> = seq![var_replacements@];
        proof {
            assert(ms[0] == base.insert(self.x_var, (xqg, 1u8)).insert(self.y_var, (yqg, 1u8)));
            assert(chain_start(*self, ms[0], xp, yp, xqg, yqg, q.coeffs@, p as int));
            assert(var_replacements@.contains_key(self.y_var));
            assert(subst_map_uniform(var_replacements@));
            assert(map_modulus(var_replacements@) == p);
        }
        let mut k: usize = self.resolved_steps.len();
        while k > 0
            invariant
                k <= self.resolved_steps@.len(),
                self.steps_wf(),
                subst_map_uniform(var_replacements@),
                map_modulus(var_replacements@) == p,
                q.p == p,
                q.wf(),
                p >= 2,
                q.coeffs@ == subst(sv(*factor), base, p as int)->Ok_0,
                base == factor_map(self.x_var, self.y_var, xp, yp),
                subst(sv(*factor), base, p as int) is Ok,
                !seq_is_zero(q.coeffs@),
                xp == x_poly,
                yp == y_poly,
                var_replacements@.contains_key(self.x_var),
                var_replacements@.contains_key(self.y_var),
                forall|j: int| k <= j < self.resolved_steps@.len() ==> var_replacements@.contains_key(
                    #[trigger] self.resolved_steps@[j].v,
                ),
                stages_solved(*self, ms, q.coeffs@, p as int),
                ms.len() == self.resolved_steps@.len() - k + 1,
                ms.last() == var_replacements@,
                chain_start(*self, ms[0], xp, yp, xqg, yqg, q.coeffs@, p as int),
            decreases k,
        {
            k = k - 1;
            let step: &EliminationStep = &self.resolved_steps[k];
            assert(self.resolved_steps@[k as int].wf());
            let (var_poly, var_degree) = step.express_var_as_modular_poly(&var_replacements, &q)?;
            if var_degree == 0 {
                return Err(message_of("Zero degree for an eliminated variable"));
            }
            let ghost before = var_replacements@;
            let ghost zg = var_poly;
            var_replacements.insert(step.v, (var_poly, var_degree));
            proof {
                let n = self.resolved_steps@.len();
                let ms2 = ms.push(var_replacements@);
                assert(n - ms.len() == k);
                lemma_stages_push(*self, ms, var_replacements@, zg, var_degree, q.coeffs@, p as int);
                ms = ms2;
                assert(var_replacements@.contains_key(step.v));
                assert(subst_map_uniform(var_replacements@)) by {
                    assert forall|k1: u8, k2: u8| #[trigger] var_replacements@.contains_key(k1)
                        && #[trigger] var_replacements@.contains_key(k2) implies var_replacements@[k1].0.p
                        == var_replacements@[k2].0.p by {
                        if k1 != step.v {
                            assert(before.contains_key(k1));
                            assert(before[k1].0.p == map_modulus(before)) by {
                                let k0 = choose|k: u8| before.contains_key(k);
                                assert(before.contains_key(k0));
                            }
                        }
                        if k2 != step.v {
                            assert(before.contains_key(k2));
                            assert(before[k2].0.p == map_modulus(before)) by {
                                let k0 = choose|k: u8| before.contains_key(k);
                                assert(before.contains_key(k0));
                            }
                        }
                    }
                }
                let k0 = choose|k: u8| var_replacements@.contains_key(k);
                assert(var_replacements@.contains_key(k0));
                if k0 != step.v {
                    assert(before.contains_key(k0));
                    let k1 = choose|k: u8| before.contains_key(k);
                    assert(before.contains_key(k1));
                }
                assert(map_modulus(var_replacements@) == p);
            }
        }
        let holds = self.verify_equations_hold(&var_replacements, &q);
        proof {
            let m = var_replacements@;
            if holds {
                assert(all_vanish(trees(self.initial_polys@), m, q.coeffs@, p as int));
            }
            assert(built_map(*self, m, p));
            assert(holds == all_hold(trees(self.initial_polys@), m, q.coeffs@, p as int));
            assert(stages_solved(*self, ms, q.coeffs@, p as int) && ms.len() == self.resolved_steps@.len() + 1 && ms.last() == m);
            assert(chain_start(*self, ms[0], x_poly, y_poly, xqg, yqg, q.coeffs@, p as int));
            assert(chain_map(*self, m, x_poly, y_poly, q.coeffs@, p as int));
        }
        Ok(holds)
    }
}

} // verus!

verus! {

/// Coefficient `i` of a polynomial, zero beyond its last.
fn coeff_at(m: &ModularPoly, i: usize) -> (r: u64)
    ensures
        r as int == coef(m.coeffs@, i as int),
{
    if i < m.coeffs.len() {
        m.coeffs[i]
    } else {
        0
    }
}

/// The product of two `u64` values, which fits in a `u128`.
fn wide_mul(a: u64, b: u64) -> (r: u128)
    ensures
        r == a * b,
{
    assert(a * b <= u64::MAX * u64::MAX) by (nonlinear_arith)
        requires
            a <= u64::MAX,
            b <= u64::MAX,
    ;
    (a as u128) * (b as u128)
}

impl Elimination {
    /// Tests a factor of the final equation (see `check_factor_with`) with a
    /// prime drawn among the five largest below `2^64` and linear
    /// polynomials for `x` and `y` drawn at random until they are not
    /// proportional, trying up to a thousand draws.
    pub fn check_factor(&self, factor: &Poly) -> (r: Result<bool, String>)
        requires
            self.steps_wf(),
        ensures
            !(only_xy(sv(*factor), self.x_var, self.y_var) && bounded(sv(*factor), i64::MAX as int)) ==> r is Err,
            r == Ok::<bool, String>(true) ==> exists|p: u64, xp: ModularPoly, yp: ModularPoly| #[trigger] confirmed_with(
                *self,
                sv(*factor),
                p,
                xp,
                yp,
            ),
    {
        let k = crate::modular_random::random_below(5);
        let p: u64 = if k == 0 {
            u64::MAX - 58
        } else if k == 1 {
            u64::MAX - 82
        } else if k == 2 {
            u64::MAX - 94
        } else if k == 3 {
            u64::MAX - 178
        } else {
            u64::MAX - 188
        };
        let mut attempts: u32 = 0;
        while attempts < 1000
            invariant
                p >= 2,
                self.steps_wf(),
            decreases 1000 - attempts,
        {
            let x_poly = ModularPoly::random(1, p);
            let y_poly = ModularPoly::random(1, p);
            let ax = coeff_at(&x_poly, 0);
            let bx = coeff_at(&x_poly, 1);
            let ay = coeff_at(&y_poly, 0);
            let by = coeff_at(&y_poly, 1);
            if wide_mul(ax, by) != wide_mul(ay, bx) {
                return self.check_factor_with(factor, p, x_poly, y_poly);
            }
            attempts = attempts + 1;
        }
        Err(message_of("No independent random polynomials found"))
    }
}

} // verus!
