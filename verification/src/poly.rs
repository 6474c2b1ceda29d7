//! Multivariate polynomials with integer coefficients, stored recursively:
//! a polynomial is a constant or a sequence of coefficient polynomials in
//! the powers of its leading variable.

use vstd::prelude::*;
use std::rc::Rc;
use vstd::arithmetic::power::pow;
use crate::poly_ops::degree_in;
use crate::poly_struct::lemma_degree_nonneg;
use crate::degree_laws::{
    imax, sum_degrees, product_degrees, lemma_dmax_le, lemma_dmax_ge, lemma_degree_scaled, lemma_cleaned_sum_degrees,
    lemma_cleaned_product_degrees,
};
use crate::spoly::{
    SPoly, abs, above, bounded, canonical, cleaned, cleaned_children, eval, eval_at, is_zero,
    lemma_size_child, lemma_size_pos, max_abs, lemma_eval_from_lin, lemma_eval_from_single,
    lemma_eval_cleaned, lemma_cleaned_canonical, lemma_cleaned_bounded, lemma_canonical_ordered,
    lemma_bounded_mono, lemma_bounded_scale_fits, lemma_scaled_shape, lemma_scaled_bounded,
    lemma_eval_scaled, lemma_max_abs, eval_from, above_eq, lemma_cleaned_above_eq,
    lemma_eval_zero_prefix, partial_value, lemma_partial_value, size_from, lemma_size_from_nonneg, ordered, scale_fits, scaled, size, strip,
};

verus! {

/// `Constant(c)` is `c`; `Nested(v, cs)` is `cs[0] + cs[1]*v + cs[2]*v^2 + ...`,
/// where the coefficients only use variables with larger indices.
#[derive(Debug, Clone, PartialEq, Eq)]
pub enum Poly {
    Constant(i64),
    Nested(u8, Vec<Rc<Poly>>),
}

/// The tree that a polynomial stands for.
pub open spec fn sv(p: Poly) -> SPoly
    decreases p,
{
    match p {
        Poly::Constant(c) => SPoly::Constant(c as int),
        Poly::Nested(v, cs) => SPoly::Nested(v, sv_kids(cs@)),
    }
}

/// The trees of a sequence of coefficients.
pub open spec fn sv_kids(cs: Seq<Rc<Poly>>) -> Seq<SPoly>
    decreases cs,
{
    Seq::new(cs.len(), |i: int| if 0 <= i < cs.len() { sv(*cs[i]) } else { SPoly::Constant(0) })
}

/// The value of `r` is that of `a` plus `k` times that of `b`, for every assignment.
pub open spec fn is_sum(r: SPoly, a: SPoly, b: SPoly, k: int) -> bool {
    forall|env: spec_fn(u8) -> int| #[trigger] eval(r, env) == eval(a, env) + k * eval(b, env)
}

/// Which of two arguments of a sum is handled by exchanging them.
pub open spec fn swap_rank(a: SPoly, b: SPoly) -> int {
    match (a, b) {
        (SPoly::Constant(_), SPoly::Nested(_, _)) => 1,
        (SPoly::Nested(v, _), SPoly::Nested(w, _)) => if v > w { 1 } else { 0 },
        _ => 0,
    }
}

/// A coefficient of a node is smaller than the node.
pub(crate) proof fn lemma_kid_smaller(p: Poly, i: int)
    requires
        p is Nested,
        0 <= i < p->Nested_1@.len(),
    ensures
        0 < size(sv(*p->Nested_1@[i])) < size(sv(p)),
        sv(p)->Nested_1[i] == sv(*p->Nested_1@[i]),
{
    let ks = sv_kids(p->Nested_1@);
    lemma_size_child(ks, 0, i);
    lemma_size_pos(ks[i]);
}

/// Cleaning finishes a sum: what holds of the raw result holds of its normal form.
proof fn lemma_finish_sum(r0: SPoly, a: SPoly, b: SPoly, k: int, bound: int)
    requires
        ordered(r0),
        is_sum(r0, a, b, k),
        bounded(r0, bound),
        bound >= 0,
        forall|w: u8| above(a, w) && above(b, w) ==> #[trigger] above(r0, w),
        forall|w: u8| above_eq(a, w) && above_eq(b, w) ==> #[trigger] above_eq(r0, w),
    ensures
        canonical(cleaned(r0)),
        is_sum(cleaned(r0), a, b, k),
        bounded(cleaned(r0), bound),
        forall|w: u8| above(a, w) && above(b, w) ==> #[trigger] above(cleaned(r0), w),
        forall|w: u8| above_eq(a, w) && above_eq(b, w) ==> #[trigger] above_eq(cleaned(r0), w),
{
    lemma_cleaned_canonical(r0);
    lemma_cleaned_bounded(r0, bound);
    assert forall|env: spec_fn(u8) -> int| #[trigger] eval(cleaned(r0), env) == eval(a, env) + k * eval(b, env) by {
        lemma_eval_cleaned(r0, env);
    }
    assert forall|w: u8| above(a, w) && above(b, w) implies #[trigger] above(cleaned(r0), w) by {
        assert(above(r0, w));
    }
    assert forall|w: u8| above_eq(a, w) && above_eq(b, w) implies #[trigger] above_eq(cleaned(r0), w) by {
        lemma_cleaned_above_eq(r0, w);
    }
}

/// The value of `r` is the product of the values of `a` and `b`, for every assignment.
pub open spec fn is_product(r: SPoly, a: SPoly, b: SPoly) -> bool {
    forall|env: spec_fn(u8) -> int| #[trigger] eval(r, env) == eval(a, env) * eval(b, env)
}

/// The bound on the coefficients of a product that `multiply` keeps.
pub open spec fn product_bound(a: SPoly, b: SPoly) -> int {
    size(a) * max_abs(a) * max_abs(b)
}

/// Products of non-negative numbers grow with their first factor.
pub(crate) proof fn lemma_mul3_mono(s1: int, s2: int, x: int, y: int)
    requires
        0 <= s1 <= s2,
        x >= 0,
        y >= 0,
    ensures
        0 <= s1 * x * y <= s2 * x * y,
{
    assert(0 <= s1 * x * y <= s2 * x * y) by (nonlinear_arith)
        requires
            0 <= s1 <= s2,
            x >= 0,
            y >= 0,
    ;
}

/// Cleaning finishes a product: what holds of the raw result holds of its normal form.
proof fn lemma_finish_product(r0: SPoly, a: SPoly, b: SPoly, bound: int)
    requires
        ordered(r0),
        is_product(r0, a, b),
        bounded(r0, bound),
        bound >= 0,
        forall|w: u8| above(a, w) && above(b, w) ==> #[trigger] above(r0, w),
        forall|w: u8| above_eq(a, w) && above_eq(b, w) ==> #[trigger] above_eq(r0, w),
    ensures
        canonical(cleaned(r0)),
        is_product(cleaned(r0), a, b),
        bounded(cleaned(r0), bound),
        forall|w: u8| above(a, w) && above(b, w) ==> #[trigger] above(cleaned(r0), w),
        forall|w: u8| above_eq(a, w) && above_eq(b, w) ==> #[trigger] above_eq(cleaned(r0), w),
{
    lemma_cleaned_canonical(r0);
    lemma_cleaned_bounded(r0, bound);
    assert forall|env: spec_fn(u8) -> int| #[trigger] eval(cleaned(r0), env) == eval(a, env) * eval(b, env) by {
        lemma_eval_cleaned(r0, env);
    }
    assert forall|w: u8| above(a, w) && above(b, w) implies #[trigger] above(cleaned(r0), w) by {
        assert(above(r0, w));
    }
    assert forall|w: u8| above_eq(a, w) && above_eq(b, w) implies #[trigger] above_eq(cleaned(r0), w) by {
        lemma_cleaned_above_eq(r0, w);
    }
}

impl Poly {
    /// A copy of the polynomial that shares its coefficients.
    pub fn copy(&self) -> (r: Poly)
        ensures
            sv(r) == sv(*self),
    {
        match self {
            Poly::Constant(c) => Poly::Constant(*c),
            Poly::Nested(v, cs) => {
                let mut ds: Vec<Rc<Poly>> = Vec::new();
                let mut i: usize = 0;
                while i < cs.len()
                    invariant
                        i <= cs@.len(),
                        ds@.len() == i,
                        forall|j: int| 0 <= j < i ==> #[trigger] ds@[j] == cs@[j],
                    decreases cs@.len() - i,
                {
                    ds.push(Rc::clone(&cs[i]));
                    i = i + 1;
                }
                assert(sv_kids(ds@) =~= sv_kids(cs@));
                Poly::Nested(*v, ds)
            },
        }
    }

    /// The polynomial held by `rc`, moved out when nothing else holds it.
    pub(crate) fn take_rc(rc: Rc<Poly>) -> (r: Poly)
        ensures
            sv(r) == sv(*rc),
    {
        match Rc::try_unwrap(rc) {
            Ok(p) => p,
            Err(shared) => shared.copy(),
        }
    }

    /// Whether the polynomial is the constant zero.
    pub fn is_zero_poly(&self) -> (r: bool)
        ensures
            r == is_zero(sv(*self)),
    {
        match self {
            Poly::Constant(c) => *c == 0,
            Poly::Nested(_, _) => false,
        }
    }

    /// The normal form of the polynomial (see `cleaned`).
    pub(crate) fn cleaned_poly(&self) -> (r: Poly)
        ensures
            sv(r) == cleaned(sv(*self)),
        decreases size(sv(*self)),
    {
        match self {
            Poly::Constant(c) => Poly::Constant(*c),
            Poly::Nested(v, cs) => {
                let ghost kids = sv_kids(cs@);
                let ghost target = cleaned_children(kids);
                let mut ds: Vec<Rc<Poly>> = Vec::new();
                let mut i: usize = 0;
                while i < cs.len()
                    invariant
                        *self == Poly::Nested(*v, *cs),
                        kids == sv_kids(cs@),
                        target == cleaned_children(kids),
                        i <= cs@.len(),
                        ds@.len() == i,
                        forall|j: int| 0 <= j < i ==> sv(*#[trigger] ds@[j]) == target[j],
                    decreases cs@.len() - i,
                {
                    proof {
                        lemma_kid_smaller(*self, i as int);
                    }
                    let child: &Poly = &cs[i];
                    assert(size(sv(*child)) < size(sv(*self)));
                    let c = child.cleaned_poly();
                    ds.push(Rc::new(c));
                    i = i + 1;
                }
                assert(sv_kids(ds@) =~= target);
                while ds.len() > 0 && ds[ds.len() - 1].is_zero_poly()
                    invariant
                        strip(sv_kids(ds@)) == strip(target),
                    decreases ds@.len(),
                {
                    let ghost before = sv_kids(ds@);
                    ds.pop();
                    assert(sv_kids(ds@) =~= before.drop_last());
                }
                assert(strip(sv_kids(ds@)) == sv_kids(ds@));
                if ds.len() == 0 {
                    Poly::Constant(0)
                } else if ds.len() == 1 {
                    let last = ds.pop().unwrap();
                    Poly::take_rc(last)
                } else {
                    Poly::Nested(*v, ds)
                }
            },
        }
    }

    /// Brings the polynomial to its normal form: cleans every coefficient,
    /// drops trailing zero coefficients, replaces a node left with a single
    /// coefficient by that coefficient and a node left with none by zero.
    pub fn cleanup(&mut self)
        ensures
            sv(*final(self)) == cleaned(sv(*old(self))),
    {
        *self = self.cleaned_poly();
    }

    /// The polynomial with every coefficient multiplied by `k`.
    pub(crate) fn scaled_poly(&self, k: i64) -> (r: Poly)
        requires
            scale_fits(sv(*self), k as int),
        ensures
            sv(r) == scaled(sv(*self), k as int),
        decreases size(sv(*self)),
    {
        match self {
            Poly::Constant(c) => Poly::Constant(*c * k),
            Poly::Nested(v, cs) => {
                let ghost kids = sv_kids(cs@);
                let ghost target = scaled(sv(*self), k as int)->Nested_1;
                let mut ds: Vec<Rc<Poly>> = Vec::new();
                let mut i: usize = 0;
                while i < cs.len()
                    invariant
                        *self == Poly::Nested(*v, *cs),
                        kids == sv_kids(cs@),
                        scale_fits(sv(*self), k as int),
                        target == scaled(sv(*self), k as int)->Nested_1,
                        i <= cs@.len(),
                        ds@.len() == i,
                        forall|j: int| 0 <= j < i ==> sv(*#[trigger] ds@[j]) == target[j],
                    decreases cs@.len() - i,
                {
                    proof {
                        lemma_kid_smaller(*self, i as int);
                    }
                    let c = cs[i].scaled_poly(k);
                    ds.push(Rc::new(c));
                    i = i + 1;
                }
                assert(sv_kids(ds@) =~= target);
                Poly::Nested(*v, ds)
            },
        }
    }

    /// Multiplies every coefficient by `factor`.
    pub fn scale(&mut self, factor: i64)
        requires
            scale_fits(sv(*old(self)), factor as int),
        ensures
            sv(*final(self)) == scaled(sv(*old(self)), factor as int),
    {
        *self = self.scaled_poly(factor);
    }

    /// `a + k * b` in normal form; `ba` and `bb` bound the coefficients of `a` and `b`.
    #[verifier::rlimit(40)]
    fn sum_poly(a: &Poly, b: &Poly, k: i64, Ghost(ba): Ghost<int>, Ghost(bb): Ghost<int>) -> (r: Poly)
        requires
            ordered(sv(*a)),
            ordered(sv(*b)),
            ba >= 0,
            bb >= 0,
            bounded(sv(*a), ba),
            bounded(sv(*b), bb),
            ba + bb * abs(k as int) <= i64::MAX,
        ensures
            canonical(sv(r)),
            is_sum(sv(r), sv(*a), sv(*b), k as int),
            bounded(sv(r), ba + bb * abs(k as int)),
            forall|w: u8| above(sv(*a), w) && above(sv(*b), w) ==> #[trigger] above(sv(r), w),
            forall|w: u8| above_eq(sv(*a), w) && above_eq(sv(*b), w) ==> #[trigger] above_eq(sv(r), w),
            sum_degrees(sv(r), sv(*a), sv(*b)),
        decreases size(sv(*a)) + size(sv(*b)), swap_rank(sv(*a), sv(*b)), 1int,
    {
        let ghost bound = ba + bb * abs(k as int);
        let ghost kb = k as int;
        proof {
            assert(bb * abs(kb) >= 0) by (nonlinear_arith)
                requires
                    bb >= 0,
            ;
            lemma_size_pos(sv(*a));
            lemma_size_pos(sv(*b));
        }
        let swap = match (a, b) {
            (Poly::Constant(_), Poly::Nested(_, _)) => true,
            (Poly::Nested(v, _), Poly::Nested(w, _)) => *v > *w,
            _ => false,
        };
        if swap {
            proof {
                lemma_bounded_scale_fits(sv(*b), bb, kb);
                lemma_scaled_shape(sv(*b), kb);
                lemma_scaled_bounded(sv(*b), kb, bb);
                assert(abs(1 as int) == 1);
                assert(ba * abs(1 as int) == ba);
            }
            let sb = b.scaled_poly(k);
            let r = Poly::sum_poly(&sb, a, 1, Ghost(bb * abs(kb)), Ghost(ba));
            proof {
                assert forall|env: spec_fn(u8) -> int| #[trigger] eval(sv(r), env) == eval(sv(*a), env) + kb * eval(
                    sv(*b),
                    env,
                ) by {
                    lemma_eval_scaled(sv(*b), kb, env);
                    assert(eval(sv(r), env) == eval(sv(sb), env) + 1 * eval(sv(*a), env));
                }
                assert forall|w: u8| #[trigger] degree_in(sv(r), w) <= imax(degree_in(sv(*a), w), degree_in(sv(*b), w)) by {
                    lemma_degree_scaled(sv(*b), kb, w);
                    assert(degree_in(sv(r), w) <= imax(degree_in(sv(sb), w), degree_in(sv(*a), w)));
                }
            }
            return r;
        }
        match a {
            Poly::Constant(n1) => {
                match b {
                    Poly::Constant(n2) => {
                        proof {
                            assert(-(bb * abs(kb)) <= kb * (*n2 as int) <= bb * abs(kb)) by (nonlinear_arith)
                                requires
                                    -bb <= *n2 as int <= bb,
                                    bb >= 0,
                            ;
                        }
                        Poly::Constant(*n1 + k * *n2)
                    },
                    Poly::Nested(_, _) => {
                        // exchanged above
                        Poly::Constant(0)
                    },
                }
            },
            Poly::Nested(v, cs) => {
                let ghost ka = sv_kids(cs@);
                let into_first = match b {
                    Poly::Constant(_) => true,
                    Poly::Nested(w, _) => *w > *v,
                };
                if into_first {
                    proof {
                        lemma_kid_smaller(*a, 0);
                    }
                    let c0: &Poly = &cs[0];
                    let first = Poly::sum_poly(c0, b, k, Ghost(ba), Ghost(bb));
                    let mut es: Vec<Rc<Poly>> = Vec::new();
                    es.push(Rc::new(first));
                    let mut i: usize = 1;
                    while i < cs.len()
                        invariant
                            1 <= i <= cs@.len(),
                            es@.len() == i,
                            sv(*es@[0]) == sv(first),
                            forall|j: int| 1 <= j < i ==> #[trigger] es@[j] == cs@[j],
                        decreases cs@.len() - i,
                    {
                        es.push(Rc::clone(&cs[i]));
                        i = i + 1;
                    }
                    let r0 = Poly::Nested(*v, es);
                    proof {
                        let ke = sv_kids(es@);
                        let bs = seq![sv(*b)];
                        assert(ordered(sv(*a)));
                        assert forall|j: int| 0 <= j < ke.len() implies above(#[trigger] ke[j], *v) && ordered(ke[j])
                            && bounded(ke[j], bound) by {
                            if j == 0 {
                                lemma_canonical_ordered(sv(first));
                                assert(above(ka[0], *v));
                            } else {
                                assert(ke[j] == ka[j]);
                                lemma_bounded_mono(ka[j], ba, bound);
                            }
                        }
                        assert forall|env: spec_fn(u8) -> int| #[trigger] eval(sv(r0), env) == eval(sv(*a), env) + kb * eval(
                            sv(*b),
                            env,
                        ) by {
                            assert forall|j: int| 0 <= j < ke.len() implies #[trigger] eval(ke[j], env) == eval_at(ka, j, env)
                                + kb * eval_at(bs, j, env) by {
                                if j > 0 {
                                    assert(ke[j] == ka[j]);
                                }
                            }
                            lemma_eval_from_lin(ke, ka, bs, kb, *v, env, 0);
                            lemma_eval_from_single(bs, *v, env);
                        }
                        lemma_finish_sum(sv(r0), sv(*a), sv(*b), kb, bound);
                        assert forall|w: u8| #[trigger] degree_in(sv(r0), w) <= imax(degree_in(sv(*a), w), degree_in(sv(*b), w)) by {
                            lemma_degree_nonneg(sv(*a), w);
                            lemma_degree_nonneg(sv(*b), w);
                            let m = imax(degree_in(sv(*a), w), degree_in(sv(*b), w));
                            if w > *v {
                                assert forall|q: int| 0 <= q < ke.len() implies degree_in(#[trigger] ke[q], w) <= m by {
                                    lemma_dmax_ge(ka, w, ka.len() as int, q);
                                    if q == 0 {
                                        assert(degree_in(sv(first), w) <= imax(degree_in(ka[0], w), degree_in(sv(*b), w)));
                                    } else {
                                        assert(ke[q] == ka[q]);
                                    }
                                }
                                lemma_dmax_le(ke, w, ke.len() as int, m);
                            }
                        }
                        lemma_cleaned_sum_degrees(sv(r0), sv(*a), sv(*b));
                    }
                    r0.cleaned_poly()
                } else {
                    Poly::sum_same_var(a, b, k, Ghost(ba), Ghost(bb))
                }
            },
        }
    }

    /// `a + k * b` in normal form, for two nodes in the same variable.
    #[verifier::rlimit(40)]
    fn sum_same_var(a: &Poly, b: &Poly, k: i64, Ghost(ba): Ghost<int>, Ghost(bb): Ghost<int>) -> (r: Poly)
        requires
            a is Nested,
            b is Nested,
            a->Nested_0 == b->Nested_0,
            ordered(sv(*a)),
            ordered(sv(*b)),
            ba >= 0,
            bb >= 0,
            bounded(sv(*a), ba),
            bounded(sv(*b), bb),
            ba + bb * abs(k as int) <= i64::MAX,
        ensures
            canonical(sv(r)),
            is_sum(sv(r), sv(*a), sv(*b), k as int),
            bounded(sv(r), ba + bb * abs(k as int)),
            forall|w: u8| above(sv(*a), w) && above(sv(*b), w) ==> #[trigger] above(sv(r), w),
            forall|w: u8| above_eq(sv(*a), w) && above_eq(sv(*b), w) ==> #[trigger] above_eq(sv(r), w),
            sum_degrees(sv(r), sv(*a), sv(*b)),
        decreases size(sv(*a)) + size(sv(*b)), 0int, 0int,
    {
        let ghost bound = ba + bb * abs(k as int);
        let ghost kb = k as int;
        proof {
            assert(bb * abs(kb) >= 0) by (nonlinear_arith)
                requires
                    bb >= 0,
            ;
            lemma_size_pos(sv(*a));
            lemma_size_pos(sv(*b));
        }
        match a {
            Poly::Constant(_) => Poly::Constant(0),
            Poly::Nested(v, cs) => {
                match b {
                    Poly::Constant(_) => Poly::Constant(0),
                    Poly::Nested(_, ds) => {
                        let ghost ka = sv_kids(cs@);
                        let ghost kd = sv_kids(ds@);
                        let n: usize = if cs.len() >= ds.len() {
                            cs.len()
                        } else {
                            ds.len()
                        };
                        let mut es: Vec<Rc<Poly>> = Vec::new();
                        let mut i: usize = 0;
                        while i < n
                            invariant
                                *a == Poly::Nested(*v, *cs),
                                *b == Poly::Nested(*v, *ds),
                                ka == sv_kids(cs@),
                                kd == sv_kids(ds@),
                                ordered(sv(*a)),
                                ordered(sv(*b)),
                                ba >= 0,
                                bb >= 0,
                                bounded(sv(*a), ba),
                                bounded(sv(*b), bb),
                                bound == ba + bb * abs(kb),
                                kb == k as int,
                                ba + bb * abs(k as int) <= i64::MAX,
                                n == (if cs@.len() >= ds@.len() { cs@.len() } else { ds@.len() }),
                                i <= n,
                                es@.len() == i,
                                size(sv(*a)) >= 1,
                                size(sv(*b)) >= 1,
                                forall|j: int| 0 <= j < i ==> ordered(sv(*#[trigger] es@[j])) && above(sv(*es@[j]), *v)
                                    && bounded(sv(*es@[j]), bound),
                                forall|j: int, env: spec_fn(u8) -> int| 0 <= j < i ==> #[trigger] eval(sv(*es@[j]), env)
                                    == eval_at(ka, j, env) + kb * eval_at(kd, j, env),
                                forall|j: int, w: u8| 0 <= j < i && w > *v ==> #[trigger] degree_in(sv(*es@[j]), w)
                                    <= imax(degree_in(sv(*a), w), degree_in(sv(*b), w)),
                            decreases n - i,
                        {
                            if i < cs.len() && i < ds.len() {
                                proof {
                                    lemma_kid_smaller(*a, i as int);
                                    lemma_kid_smaller(*b, i as int);
                                    assert(ordered(ka[i as int]) && ordered(kd[i as int]));
                                    assert(above(ka[i as int], *v) && above(kd[i as int], *v));
                                }
                                let ci: &Poly = &cs[i];
                                let di: &Poly = &ds[i];
                                let t = Poly::sum_poly(ci, di, k, Ghost(ba), Ghost(bb));
                                let ghost before = es@;
                                proof {
                                    lemma_canonical_ordered(sv(t));
                                }
                                es.push(Rc::new(t));
                                proof {
                                    assert forall|j: int, w: u8| 0 <= j < i + 1 && w > *v implies #[trigger] degree_in(
                                        sv(*es@[j]),
                                        w,
                                    ) <= imax(degree_in(sv(*a), w), degree_in(sv(*b), w)) by {
                                        if j < i {
                                            assert(es@[j] == before[j]);
                                        } else {
                                            lemma_dmax_ge(ka, w, ka.len() as int, i as int);
                                            lemma_dmax_ge(kd, w, kd.len() as int, i as int);
                                            assert(degree_in(sv(t), w) <= imax(degree_in(ka[i as int], w), degree_in(kd[i as int], w)));
                                        }
                                    }
                                }
                            } else if i < cs.len() {
                                proof {
                                    lemma_kid_smaller(*a, i as int);
                                    assert(ordered(ka[i as int]) && above(ka[i as int], *v));
                                    lemma_bounded_mono(ka[i as int], ba, bound);
                                }
                                let ghost before = es@;
                                es.push(Rc::clone(&cs[i]));
                                proof {
                                    assert forall|j: int, w: u8| 0 <= j < i + 1 && w > *v implies #[trigger] degree_in(
                                        sv(*es@[j]),
                                        w,
                                    ) <= imax(degree_in(sv(*a), w), degree_in(sv(*b), w)) by {
                                        if j < i {
                                            assert(es@[j] == before[j]);
                                        } else {
                                            lemma_dmax_ge(ka, w, ka.len() as int, i as int);
                                        }
                                    }
                                }
                            } else {
                                proof {
                                    lemma_kid_smaller(*b, i as int);
                                    assert(ordered(kd[i as int]) && above(kd[i as int], *v));
                                }
                                let z = Poly::Constant(0);
                                let di: &Poly = &ds[i];
                                let t = Poly::sum_poly(&z, di, k, Ghost(ba), Ghost(bb));
                                proof {
                                    lemma_canonical_ordered(sv(t));
                                    assert forall|env: spec_fn(u8) -> int| #[trigger] eval(sv(t), env) == eval_at(
                                        ka,
                                        i as int,
                                        env,
                                    ) + kb * eval_at(kd, i as int, env) by {
                                        assert(eval(sv(t), env) == eval(sv(z), env) + kb * eval(sv(*di), env));
                                    }
                                }
                                let ghost before = es@;
                                es.push(Rc::new(t));
                                proof {
                                    assert forall|j: int, w: u8| 0 <= j < i + 1 && w > *v implies #[trigger] degree_in(
                                        sv(*es@[j]),
                                        w,
                                    ) <= imax(degree_in(sv(*a), w), degree_in(sv(*b), w)) by {
                                        if j < i {
                                            assert(es@[j] == before[j]);
                                        } else {
                                            lemma_dmax_ge(kd, w, kd.len() as int, i as int);
                                            lemma_degree_nonneg(sv(*a), w);
                                            assert(degree_in(sv(t), w) <= imax(degree_in(sv(z), w), degree_in(kd[i as int], w)));
                                        }
                                    }
                                }
                            }
                            i = i + 1;
                        }
                        let r0 = Poly::Nested(*v, es);
                        proof {
                            let ke = sv_kids(es@);
                            assert forall|j: int| 0 <= j < ke.len() implies above(#[trigger] ke[j], *v) && ordered(ke[j])
                                && bounded(ke[j], bound) by {
                                assert(ke[j] == sv(*es@[j]));
                            }
                            assert forall|env: spec_fn(u8) -> int| #[trigger] eval(sv(r0), env) == eval(sv(*a), env) + kb
                                * eval(sv(*b), env) by {
                                assert forall|j: int| 0 <= j < ke.len() implies #[trigger] eval(ke[j], env) == eval_at(
                                    ka,
                                    j,
                                    env,
                                ) + kb * eval_at(kd, j, env) by {
                                    assert(ke[j] == sv(*es@[j]));
                                    assert(eval(sv(*es@[j]), env) == eval_at(ka, j, env) + kb * eval_at(kd, j, env));
                                }
                                lemma_eval_from_lin(ke, ka, kd, kb, *v, env, 0);
                            }
                            lemma_finish_sum(sv(r0), sv(*a), sv(*b), kb, bound);
                            assert forall|w: u8| #[trigger] degree_in(sv(r0), w) <= imax(degree_in(sv(*a), w), degree_in(sv(*b), w)) by {
                                lemma_degree_nonneg(sv(*a), w);
                                lemma_degree_nonneg(sv(*b), w);
                                let m = imax(degree_in(sv(*a), w), degree_in(sv(*b), w));
                                if w > *v {
                                    assert forall|q: int| 0 <= q < ke.len() implies degree_in(#[trigger] ke[q], w) <= m by {
                                        assert(ke[q] == sv(*es@[q]));
                                    }
                                    lemma_dmax_le(ke, w, ke.len() as int, m);
                                }
                            }
                            lemma_cleaned_sum_degrees(sv(r0), sv(*a), sv(*b));
                        }
                        r0.cleaned_poly()
                    },
                }
            },
        }
    }

    /// Adds `factor` times `poly` to the polynomial, and brings the result to
    /// its normal form.
    pub fn add_poly_scaled(&mut self, poly: &Poly, factor: i64)
        requires
            ordered(sv(*old(self))),
            ordered(sv(*poly)),
            max_abs(sv(*old(self))) + max_abs(sv(*poly)) * abs(factor as int) <= i64::MAX,
        ensures
            canonical(sv(*final(self))),
            is_sum(sv(*final(self)), sv(*old(self)), sv(*poly), factor as int),
            bounded(sv(*final(self)), max_abs(sv(*old(self))) + max_abs(sv(*poly)) * abs(factor as int)),
            sum_degrees(sv(*final(self)), sv(*old(self)), sv(*poly)),
            forall|w: u8| above(sv(*old(self)), w) && above(sv(*poly), w) ==> #[trigger] above(sv(*final(self)), w),
            forall|w: u8| above_eq(sv(*old(self)), w) && above_eq(sv(*poly), w) ==> #[trigger] above_eq(
                sv(*final(self)),
                w,
            ),
    {
        proof {
            lemma_max_abs(sv(*self));
            lemma_max_abs(sv(*poly));
        }
        let r = Poly::sum_poly(self, poly, factor, Ghost(max_abs(sv(*self))), Ghost(max_abs(sv(*poly))));
        *self = r;
    }

    /// `t` times the `j`-th power of the variable `v`, as a node in `v`.
    pub(crate) fn shift_poly(t: Poly, v: u8, j: usize) -> (r: Poly)
        requires
            ordered(sv(t)),
            above_eq(sv(t), v),
        ensures
            ordered(sv(r)),
            sv(r) is Nested,
            sv(r)->Nested_0 == v,
            forall|env: spec_fn(u8) -> int| #[trigger] eval(sv(r), env) == pow(env(v), j as nat) * eval(sv(t), env),
            forall|b: int| b >= 0 && bounded(sv(t), b) ==> #[trigger] bounded(sv(r), b),
            degree_in(sv(r), v) <= j + degree_in(sv(t), v),
            forall|w: u8| w != v ==> #[trigger] degree_in(sv(r), w) <= degree_in(sv(t), w),
    {
        let ghost st = sv(t);
        let mut es: Vec<Rc<Poly>> = Vec::new();
        let mut i: usize = 0;
        while i < j
            invariant
                i <= j,
                es@.len() == i,
                forall|m: int| 0 <= m < i ==> sv(*#[trigger] es@[m]) == SPoly::Constant(0),
            decreases j - i,
        {
            es.push(Rc::new(Poly::Constant(0)));
            i = i + 1;
        }
        let ghost tail: Seq<SPoly>;
        match t {
            Poly::Nested(w, ts) => {
                if w == v {
                    proof {
                        tail = sv_kids(ts@);
                    }
                    let mut m: usize = 0;
                    while m < ts.len()
                        invariant
                            tail == sv_kids(ts@),
                            m <= ts@.len(),
                            es@.len() == j + m,
                            forall|q: int| 0 <= q < j ==> sv(*#[trigger] es@[q]) == SPoly::Constant(0),
                            forall|q: int| 0 <= q < m ==> sv(*#[trigger] es@[j + q]) == tail[q],
                        decreases ts@.len() - m,
                    {
                        es.push(Rc::clone(&ts[m]));
                        m = m + 1;
                    }
                } else {
                    proof {
                        tail = seq![st];
                    }
                    es.push(Rc::new(Poly::Nested(w, ts)));
                }
            },
            Poly::Constant(c) => {
                proof {
                    tail = seq![st];
                }
                es.push(Rc::new(Poly::Constant(c)));
            },
        }
        let r = Poly::Nested(v, es);
        proof {
            let ke = sv_kids(es@);
            assert forall|q: int| 0 <= q < tail.len() implies #[trigger] ke[j + q] == tail[q] by {}
            assert forall|q: int| 0 <= q < j implies #[trigger] ke[q] == SPoly::Constant(0) by {}
            assert forall|q: int| 0 <= q < ke.len() implies above(#[trigger] ke[q], v) && ordered(ke[q]) by {
                if q >= j {
                    assert(ke[j + (q - j)] == tail[q - j]);
                }
            }
            assert forall|env: spec_fn(u8) -> int| #[trigger] eval(sv(r), env) == pow(env(v), j as nat) * eval(st, env) by {
                lemma_eval_zero_prefix(ke, tail, v, env, j as int, 0);
                if tail.len() == 1 && tail[0] == st {
                    lemma_eval_from_single(tail, v, env);
                }
            }
            lemma_degree_nonneg(st, v);
            assert(st is Nested && st->Nested_0 == v ==> tail == st->Nested_1);
            assert(!(st is Nested && st->Nested_0 == v) ==> tail == seq![st]);
            assert forall|w: u8| w != v implies #[trigger] degree_in(sv(r), w) <= degree_in(st, w) by {
                lemma_degree_nonneg(st, w);
                if w > v {
                    assert forall|q: int| 0 <= q < ke.len() implies degree_in(#[trigger] ke[q], w) <= degree_in(st, w) by {
                        if q >= j {
                            assert(ke[j + (q - j)] == tail[q - j]);
                            if st is Nested && st->Nested_0 == v {
                                lemma_dmax_ge(tail, w, tail.len() as int, q - j);
                            }
                        }
                    }
                    lemma_dmax_le(ke, w, ke.len() as int, degree_in(st, w));
                }
            }
            assert forall|b: int| b >= 0 && bounded(st, b) implies #[trigger] bounded(sv(r), b) by {
                assert forall|q: int| 0 <= q < ke.len() implies bounded(#[trigger] ke[q], b) by {
                    if q >= j {
                        assert(ke[j + (q - j)] == tail[q - j]);
                    }
                }
            }
        }
        r
    }

    /// The product of `a` and `b`; `ba` and `bb` bound their coefficients.
    #[verifier::rlimit(60)]
    fn mul_poly(a: &Poly, b: &Poly, Ghost(ba): Ghost<int>, Ghost(bb): Ghost<int>) -> (r: Poly)
        requires
            ordered(sv(*a)),
            ordered(sv(*b)),
            ba >= 0,
            bb >= 0,
            bounded(sv(*a), ba),
            bounded(sv(*b), bb),
            size(sv(*a)) * ba * bb <= i64::MAX,
        ensures
            ordered(sv(r)),
            is_product(sv(r), sv(*a), sv(*b)),
            bounded(sv(r), size(sv(*a)) * ba * bb),
            a is Constant ==> sv(r) == scaled(sv(*b), a->Constant_0 as int),
            !(a is Constant) && b is Constant ==> sv(r) == scaled(sv(*a), b->Constant_0 as int),
            !(a is Constant) && !(b is Constant) ==> canonical(sv(r)),
            forall|w: u8| above(sv(*a), w) && above(sv(*b), w) ==> #[trigger] above(sv(r), w),
            forall|w: u8| above_eq(sv(*a), w) && above_eq(sv(*b), w) ==> #[trigger] above_eq(sv(r), w),
            product_degrees(sv(r), sv(*a), sv(*b)),
        decreases size(sv(*a)) + size(sv(*b)), 1int,
    {
        let ghost bound = size(sv(*a)) * ba * bb;
        proof {
            lemma_size_pos(sv(*a));
            lemma_size_pos(sv(*b));
            lemma_mul3_mono(1, size(sv(*a)), ba, bb);
        }
        match a {
            Poly::Constant(n) => {
                let ghost nn = *n as int;
                proof {
                    assert(bb * abs(nn) <= ba * bb) by (nonlinear_arith)
                        requires
                            -ba <= nn <= ba,
                            bb >= 0,
                    ;
                    lemma_bounded_scale_fits(sv(*b), bb, nn);
                    lemma_scaled_bounded(sv(*b), nn, bb);
                    lemma_bounded_mono(scaled(sv(*b), nn), bb * abs(nn), bound);
                    lemma_scaled_shape(sv(*b), nn);
                    assert forall|env: spec_fn(u8) -> int| #[trigger] eval(scaled(sv(*b), nn), env) == eval(sv(*a), env)
                        * eval(sv(*b), env) by {
                        lemma_eval_scaled(sv(*b), nn, env);
                    }
                    assert forall|w: u8| #[trigger] degree_in(scaled(sv(*b), nn), w) <= degree_in(sv(*a), w) + degree_in(sv(*b), w) by {
                        lemma_degree_scaled(sv(*b), nn, w);
                    }
                }
                b.scaled_poly(*n)
            },
            Poly::Nested(v, cs) => {
                match b {
                    Poly::Constant(n) => {
                        let ghost nn = *n as int;
                        proof {
                            assert(ba * abs(nn) <= ba * bb) by (nonlinear_arith)
                                requires
                                    -bb <= nn <= bb,
                                    ba >= 0,
                            ;
                            lemma_bounded_scale_fits(sv(*a), ba, nn);
                            lemma_scaled_bounded(sv(*a), nn, ba);
                            lemma_bounded_mono(scaled(sv(*a), nn), ba * abs(nn), bound);
                            lemma_scaled_shape(sv(*a), nn);
                            assert forall|env: spec_fn(u8) -> int| #[trigger] eval(scaled(sv(*a), nn), env) == eval(
                                sv(*a),
                                env,
                            ) * eval(sv(*b), env) by {
                                lemma_eval_scaled(sv(*a), nn, env);
                                let ea = eval(sv(*a), env);
                                assert(nn * ea == ea * nn) by (nonlinear_arith);
                            }
                            assert forall|w: u8| #[trigger] degree_in(scaled(sv(*a), nn), w) <= degree_in(sv(*a), w) + degree_in(sv(*b), w) by {
                                lemma_degree_scaled(sv(*a), nn, w);
                            }
                        }
                        a.scaled_poly(*n)
                    },
                    Poly::Nested(w, ds) => {
                        let r = if *v < *w {
                            Poly::mul_kids_left(a, b, Ghost(ba), Ghost(bb))
                        } else if *v > *w {
                            Poly::mul_kids_right(a, b, Ghost(ba), Ghost(bb))
                        } else {
                            Poly::mul_same_var(a, b, Ghost(ba), Ghost(bb))
                        };
                        proof {
                            lemma_canonical_ordered(sv(r));
                        }
                        r
                    },
                }
            },
        }
    }

    /// The product of a node in `v` and a polynomial above `v`: each coefficient
    /// of the node is multiplied.
    #[verifier::rlimit(40)]
    fn mul_kids_left(a: &Poly, b: &Poly, Ghost(ba): Ghost<int>, Ghost(bb): Ghost<int>) -> (r: Poly)
        requires
            a is Nested,
            above(sv(*b), a->Nested_0),
            ordered(sv(*a)),
            ordered(sv(*b)),
            ba >= 0,
            bb >= 0,
            bounded(sv(*a), ba),
            bounded(sv(*b), bb),
            size(sv(*a)) * ba * bb <= i64::MAX,
        ensures
            canonical(sv(r)),
            is_product(sv(r), sv(*a), sv(*b)),
            bounded(sv(r), size(sv(*a)) * ba * bb),
            forall|w: u8| above(sv(*a), w) && above(sv(*b), w) ==> #[trigger] above(sv(r), w),
            forall|w: u8| above_eq(sv(*a), w) && above_eq(sv(*b), w) ==> #[trigger] above_eq(sv(r), w),
            product_degrees(sv(r), sv(*a), sv(*b)),
        decreases size(sv(*a)) + size(sv(*b)), 0int,
    {
        let ghost bound = size(sv(*a)) * ba * bb;
        proof {
            lemma_size_pos(sv(*a));
            lemma_size_pos(sv(*b));
            lemma_mul3_mono(1, size(sv(*a)), ba, bb);
        }
        match a {
            Poly::Constant(_) => Poly::Constant(0),
            Poly::Nested(v, cs) => {
                let ghost ka = sv_kids(cs@);
                let mut es: Vec<Rc<Poly>> = Vec::new();
                let mut i: usize = 0;
                while i < cs.len()
                    invariant
                        *a == Poly::Nested(*v, *cs),
                        ka == sv_kids(cs@),
                        ordered(sv(*a)),
                        ordered(sv(*b)),
                        above(sv(*b), *v),
                        ba >= 0,
                        bb >= 0,
                        bounded(sv(*a), ba),
                        bounded(sv(*b), bb),
                        bound == size(sv(*a)) * ba * bb,
                        bound <= i64::MAX,
                        size(sv(*a)) >= 1,
                        size(sv(*b)) >= 1,
                        i <= cs@.len(),
                        es@.len() == i,
                        forall|j: int| 0 <= j < i ==> ordered(sv(*#[trigger] es@[j])) && above(sv(*es@[j]), *v)
                            && bounded(sv(*es@[j]), bound),
                        forall|j: int, env: spec_fn(u8) -> int| 0 <= j < i ==> #[trigger] eval(sv(*es@[j]), env) == eval(
                            ka[j],
                            env,
                        ) * eval(sv(*b), env),
                        forall|j: int, w: u8| 0 <= j < i && w > *v ==> #[trigger] degree_in(sv(*es@[j]), w) <= degree_in(
                            sv(*a),
                            w,
                        ) + degree_in(sv(*b), w),
                    decreases cs@.len() - i,
                {
                    proof {
                        lemma_kid_smaller(*a, i as int);
                        assert(ordered(ka[i as int]) && above(ka[i as int], *v));
                        lemma_mul3_mono(size(ka[i as int]), size(sv(*a)), ba, bb);
                    }
                    let ci: &Poly = &cs[i];
                    let t = Poly::mul_poly(ci, b, Ghost(ba), Ghost(bb));
                    proof {
                        lemma_bounded_mono(sv(t), size(ka[i as int]) * ba * bb, bound);
                    }
                    let ghost before = es@;
                    es.push(Rc::new(t));
                    proof {
                        assert forall|j: int, w: u8| 0 <= j < i + 1 && w > *v implies #[trigger] degree_in(sv(*es@[j]), w)
                            <= degree_in(sv(*a), w) + degree_in(sv(*b), w) by {
                            if j < i {
                                assert(es@[j] == before[j]);
                            } else {
                                lemma_dmax_ge(ka, w, ka.len() as int, i as int);
                                assert(degree_in(sv(t), w) <= degree_in(ka[i as int], w) + degree_in(sv(*b), w));
                            }
                        }
                    }
                    i = i + 1;
                }
                let r0 = Poly::Nested(*v, es);
                proof {
                    let ke = sv_kids(es@);
                    assert forall|j: int| 0 <= j < ke.len() implies above(#[trigger] ke[j], *v) && ordered(ke[j])
                        && bounded(ke[j], bound) by {
                        assert(ke[j] == sv(*es@[j]));
                    }
                    assert forall|env: spec_fn(u8) -> int| #[trigger] eval(sv(r0), env) == eval(sv(*a), env) * eval(
                        sv(*b),
                        env,
                    ) by {
                        let eb = eval(sv(*b), env);
                        assert forall|j: int| 0 <= j < ke.len() implies #[trigger] eval(ke[j], env) == eval_at(
                            Seq::<SPoly>::empty(),
                            j,
                            env,
                        ) + eb * eval_at(ka, j, env) by {
                            assert(ke[j] == sv(*es@[j]));
                            let ej = eval(ka[j], env);
                            assert(ej * eb == eb * ej) by (nonlinear_arith);
                        }
                        lemma_eval_from_lin(ke, Seq::<SPoly>::empty(), ka, eb, *v, env, 0);
                        assert(eval_from(Seq::<SPoly>::empty(), *v, env, 0) == 0);
                        let ea = eval(sv(*a), env);
                        assert(eb * ea == ea * eb) by (nonlinear_arith);
                    }
                    lemma_finish_product(sv(r0), sv(*a), sv(*b), bound);
                    assert forall|w: u8| #[trigger] degree_in(sv(r0), w) <= degree_in(sv(*a), w) + degree_in(sv(*b), w) by {
                        lemma_degree_nonneg(sv(*a), w);
                        lemma_degree_nonneg(sv(*b), w);
                        if w > *v {
                            assert forall|q: int| 0 <= q < ke.len() implies degree_in(#[trigger] ke[q], w) <= degree_in(sv(*a), w)
                                + degree_in(sv(*b), w) by {
                                assert(ke[q] == sv(*es@[q]));
                            }
                            lemma_dmax_le(ke, w, ke.len() as int, degree_in(sv(*a), w) + degree_in(sv(*b), w));
                        }
                    }
                    lemma_cleaned_product_degrees(sv(r0), sv(*a), sv(*b));
                }
                r0.cleaned_poly()
            },
        }
    }

    /// The product of a polynomial above `w` and a node in `w`: each
    /// coefficient of the node is multiplied.
    #[verifier::rlimit(40)]
    fn mul_kids_right(a: &Poly, b: &Poly, Ghost(ba): Ghost<int>, Ghost(bb): Ghost<int>) -> (r: Poly)
        requires
            b is Nested,
            above(sv(*a), b->Nested_0),
            ordered(sv(*a)),
            ordered(sv(*b)),
            ba >= 0,
            bb >= 0,
            bounded(sv(*a), ba),
            bounded(sv(*b), bb),
            size(sv(*a)) * ba * bb <= i64::MAX,
        ensures
            canonical(sv(r)),
            is_product(sv(r), sv(*a), sv(*b)),
            bounded(sv(r), size(sv(*a)) * ba * bb),
            forall|w: u8| above(sv(*a), w) && above(sv(*b), w) ==> #[trigger] above(sv(r), w),
            forall|w: u8| above_eq(sv(*a), w) && above_eq(sv(*b), w) ==> #[trigger] above_eq(sv(r), w),
            product_degrees(sv(r), sv(*a), sv(*b)),
        decreases size(sv(*a)) + size(sv(*b)), 0int,
    {
        let ghost bound = size(sv(*a)) * ba * bb;
        proof {
            lemma_size_pos(sv(*a));
            lemma_size_pos(sv(*b));
            lemma_mul3_mono(1, size(sv(*a)), ba, bb);
        }
        match b {
            Poly::Constant(_) => Poly::Constant(0),
            Poly::Nested(w, ds) => {
                let ghost kd = sv_kids(ds@);
                let mut es: Vec<Rc<Poly>> = Vec::new();
                let mut i: usize = 0;
                while i < ds.len()
                    invariant
                        *b == Poly::Nested(*w, *ds),
                        kd == sv_kids(ds@),
                        ordered(sv(*a)),
                        ordered(sv(*b)),
                        above(sv(*a), *w),
                        ba >= 0,
                        bb >= 0,
                        bounded(sv(*a), ba),
                        bounded(sv(*b), bb),
                        bound == size(sv(*a)) * ba * bb,
                        bound <= i64::MAX,
                        size(sv(*a)) >= 1,
                        size(sv(*b)) >= 1,
                        i <= ds@.len(),
                        es@.len() == i,
                        forall|j: int| 0 <= j < i ==> ordered(sv(*#[trigger] es@[j])) && above(sv(*es@[j]), *w)
                            && bounded(sv(*es@[j]), bound),
                        forall|j: int, env: spec_fn(u8) -> int| 0 <= j < i ==> #[trigger] eval(sv(*es@[j]), env) == eval(
                            sv(*a),
                            env,
                        ) * eval(kd[j], env),
                        forall|j: int, u: u8| 0 <= j < i && u > *w ==> #[trigger] degree_in(sv(*es@[j]), u) <= degree_in(
                            sv(*a),
                            u,
                        ) + degree_in(sv(*b), u),
                    decreases ds@.len() - i,
                {
                    proof {
                        lemma_kid_smaller(*b, i as int);
                        assert(ordered(kd[i as int]) && above(kd[i as int], *w));
                    }
                    let di: &Poly = &ds[i];
                    let t = Poly::mul_poly(a, di, Ghost(ba), Ghost(bb));
                    let ghost before = es@;
                    es.push(Rc::new(t));
                    proof {
                        assert forall|j: int, u: u8| 0 <= j < i + 1 && u > *w implies #[trigger] degree_in(sv(*es@[j]), u)
                            <= degree_in(sv(*a), u) + degree_in(sv(*b), u) by {
                            if j < i {
                                assert(es@[j] == before[j]);
                            } else {
                                lemma_dmax_ge(kd, u, kd.len() as int, i as int);
                                assert(degree_in(sv(t), u) <= degree_in(sv(*a), u) + degree_in(kd[i as int], u));
                            }
                        }
                    }
                    i = i + 1;
                }
                let r0 = Poly::Nested(*w, es);
                proof {
                    let ke = sv_kids(es@);
                    assert forall|j: int| 0 <= j < ke.len() implies above(#[trigger] ke[j], *w) && ordered(ke[j])
                        && bounded(ke[j], bound) by {
                        assert(ke[j] == sv(*es@[j]));
                    }
                    assert forall|env: spec_fn(u8) -> int| #[trigger] eval(sv(r0), env) == eval(sv(*a), env) * eval(
                        sv(*b),
                        env,
                    ) by {
                        let ea = eval(sv(*a), env);
                        assert forall|j: int| 0 <= j < ke.len() implies #[trigger] eval(ke[j], env) == eval_at(
                            Seq::<SPoly>::empty(),
                            j,
                            env,
                        ) + ea * eval_at(kd, j, env) by {
                            assert(ke[j] == sv(*es@[j]));
                        }
                        lemma_eval_from_lin(ke, Seq::<SPoly>::empty(), kd, ea, *w, env, 0);
                        assert(eval_from(Seq::<SPoly>::empty(), *w, env, 0) == 0);
                    }
                    lemma_finish_product(sv(r0), sv(*a), sv(*b), bound);
                    assert forall|u: u8| #[trigger] degree_in(sv(r0), u) <= degree_in(sv(*a), u) + degree_in(sv(*b), u) by {
                        lemma_degree_nonneg(sv(*a), u);
                        lemma_degree_nonneg(sv(*b), u);
                        if u > *w {
                            assert forall|q: int| 0 <= q < ke.len() implies degree_in(#[trigger] ke[q], u) <= degree_in(sv(*a), u)
                                + degree_in(sv(*b), u) by {
                                assert(ke[q] == sv(*es@[q]));
                            }
                            lemma_dmax_le(ke, u, ke.len() as int, degree_in(sv(*a), u) + degree_in(sv(*b), u));
                        }
                    }
                    lemma_cleaned_product_degrees(sv(r0), sv(*a), sv(*b));
                }
                r0.cleaned_poly()
            },
        }
    }

    /// The product of two nodes in the same variable: the products of each
    /// coefficient of `a` with `b`, shifted to their powers and summed.
    #[verifier::rlimit(60)]
    fn mul_same_var(a: &Poly, b: &Poly, Ghost(ba): Ghost<int>, Ghost(bb): Ghost<int>) -> (r: Poly)
        requires
            a is Nested,
            b is Nested,
            a->Nested_0 == b->Nested_0,
            ordered(sv(*a)),
            ordered(sv(*b)),
            ba >= 0,
            bb >= 0,
            bounded(sv(*a), ba),
            bounded(sv(*b), bb),
            size(sv(*a)) * ba * bb <= i64::MAX,
        ensures
            canonical(sv(r)),
            is_product(sv(r), sv(*a), sv(*b)),
            bounded(sv(r), size(sv(*a)) * ba * bb),
            forall|w: u8| above(sv(*a), w) && above(sv(*b), w) ==> #[trigger] above(sv(r), w),
            forall|w: u8| above_eq(sv(*a), w) && above_eq(sv(*b), w) ==> #[trigger] above_eq(sv(r), w),
            product_degrees(sv(r), sv(*a), sv(*b)),
        decreases size(sv(*a)) + size(sv(*b)), 0int,
    {
        let ghost bound = size(sv(*a)) * ba * bb;
        proof {
            lemma_size_pos(sv(*a));
            lemma_size_pos(sv(*b));
            lemma_mul3_mono(1, size(sv(*a)), ba, bb);
        }
        match a {
            Poly::Constant(_) => Poly::Constant(0),
            Poly::Nested(v, cs) => {
                let ghost ka = sv_kids(cs@);
                let ghost total = size_from(ka, 0);
                let mut acc = Poly::Constant(0);
                let mut j: usize = 0;
                proof {
                    lemma_size_from_nonneg(ka, 0);
                    assert forall|env: spec_fn(u8) -> int| #[trigger] eval(sv(acc), env) == partial_value(ka, 0, *v, env)
                        * eval(sv(*b), env) by {}
                    assert forall|w: u8| #[trigger] degree_in(sv(acc), w) <= degree_in(sv(*a), w) + degree_in(sv(*b), w) by {
                        lemma_degree_nonneg(sv(*a), w);
                        lemma_degree_nonneg(sv(*b), w);
                    }
                }
                while j < cs.len()
                    invariant
                        *a == Poly::Nested(*v, *cs),
                        b is Nested,
                        b->Nested_0 == *v,
                        ka == sv_kids(cs@),
                        total == size_from(ka, 0),
                        size(sv(*a)) == 1 + total,
                        ordered(sv(*a)),
                        ordered(sv(*b)),
                        ba >= 0,
                        bb >= 0,
                        bounded(sv(*a), ba),
                        bounded(sv(*b), bb),
                        bound == size(sv(*a)) * ba * bb,
                        bound <= i64::MAX,
                        size(sv(*a)) >= 1,
                        size(sv(*b)) >= 1,
                        j <= cs@.len(),
                        ordered(sv(acc)),
                        j > 0 ==> canonical(sv(acc)),
                        above_eq(sv(acc), *v),
                        0 <= total - size_from(ka, j as int),
                        bounded(sv(acc), (total - size_from(ka, j as int)) * ba * bb),
                        forall|env: spec_fn(u8) -> int| #[trigger] eval(sv(acc), env) == partial_value(ka, j as int, *v, env)
                            * eval(sv(*b), env),
                        product_degrees(sv(acc), sv(*a), sv(*b)),
                    decreases cs@.len() - j,
                {
                    let ghost done = total - size_from(ka, j as int);
                    let ghost sj = size(ka[j as int]);
                    proof {
                        lemma_kid_smaller(*a, j as int);
                        assert(ordered(ka[j as int]) && above(ka[j as int], *v));
                        lemma_mul3_mono(sj, size(sv(*a)), ba, bb);
                        lemma_size_from_nonneg(ka, j as int + 1);
                        assert(size_from(ka, j as int) == sj + size_from(ka, j as int + 1));
                        lemma_mul3_mono(done + sj, total, ba, bb);
                        lemma_mul3_mono(total, size(sv(*a)), ba, bb);
                        assert(done * ba * bb + sj * ba * bb == (done + sj) * ba * bb) by (nonlinear_arith);
                        assert(abs(1int) == 1);
                        assert(sj * ba * bb * abs(1int) == sj * ba * bb);
                        lemma_mul3_mono(0, done, ba, bb);
                    }
                    let cj: &Poly = &cs[j];
                    let t = Poly::mul_poly(cj, b, Ghost(ba), Ghost(bb));
                    let sh = Poly::shift_poly(t, *v, j);
                    let next = Poly::sum_poly(&acc, &sh, 1, Ghost(done * ba * bb), Ghost(sj * ba * bb));
                    proof {
                        lemma_canonical_ordered(sv(next));
                        assert forall|env: spec_fn(u8) -> int| #[trigger] eval(sv(next), env) == partial_value(
                            ka,
                            j as int + 1,
                            *v,
                            env,
                        ) * eval(sv(*b), env) by {
                            let p = partial_value(ka, j as int, *v, env);
                            let x = pow(env(*v), j as nat);
                            let e = eval(ka[j as int], env);
                            let eb = eval(sv(*b), env);
                            assert(eval(sv(sh), env) == x * eval(sv(t), env));
                            assert(eval(sv(t), env) == e * eb);
                            assert(p * eb + 1 * (x * (e * eb)) == (p + x * e) * eb) by (nonlinear_arith);
                        }
                        assert forall|w: u8| #[trigger] degree_in(sv(next), w) <= degree_in(sv(*a), w) + degree_in(sv(*b), w) by {
                            lemma_degree_nonneg(sv(*a), w);
                            lemma_degree_nonneg(sv(*b), w);
                            assert(degree_in(sv(acc), w) <= degree_in(sv(*a), w) + degree_in(sv(*b), w));
                            assert(degree_in(sv(next), w) <= imax(degree_in(sv(acc), w), degree_in(sv(sh), w)));
                            assert(degree_in(sv(t), w) <= degree_in(ka[j as int], w) + degree_in(sv(*b), w));
                            if w == *v {
                                assert(degree_in(ka[j as int], w) == 0);
                                assert(degree_in(sv(sh), w) <= j + degree_in(sv(t), w));
                            } else {
                                assert(degree_in(sv(sh), w) <= degree_in(sv(t), w));
                                if w > *v {
                                    lemma_dmax_ge(ka, w, ka.len() as int, j as int);
                                } else {
                                    assert(degree_in(ka[j as int], w) == 0);
                                }
                            }
                        }
                    }
                    acc = next;
                    j = j + 1;
                }
                proof {
                    lemma_size_from_nonneg(ka, 0);
                    lemma_mul3_mono(total, size(sv(*a)), ba, bb);
                    lemma_bounded_mono(sv(acc), total * ba * bb, bound);
                    assert forall|env: spec_fn(u8) -> int| #[trigger] eval(sv(acc), env) == eval(sv(*a), env) * eval(
                        sv(*b),
                        env,
                    ) by {
                        lemma_partial_value(ka, *v, env, ka.len() as int);
                    }
                }
                acc
            },
        }
    }

    /// The product of two polynomials.
    pub fn multiply(&self, poly: &Poly) -> (r: Poly)
        requires
            ordered(sv(*self)),
            ordered(sv(*poly)),
            product_bound(sv(*self), sv(*poly)) <= i64::MAX,
        ensures
            ordered(sv(r)),
            is_product(sv(r), sv(*self), sv(*poly)),
            bounded(sv(r), product_bound(sv(*self), sv(*poly))),
            self is Constant ==> sv(r) == scaled(sv(*poly), self->Constant_0 as int),
            !(self is Constant) && poly is Constant ==> sv(r) == scaled(sv(*self), poly->Constant_0 as int),
            !(self is Constant) && !(poly is Constant) ==> canonical(sv(r)),
            product_degrees(sv(r), sv(*self), sv(*poly)),
    {
        proof {
            lemma_max_abs(sv(*self));
            lemma_max_abs(sv(*poly));
        }
        Poly::mul_poly(self, poly, Ghost(max_abs(sv(*self))), Ghost(max_abs(sv(*poly))))
    }
}

} // verus!
