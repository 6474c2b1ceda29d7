//! Replacing a variable by a quotient `p / k` and clearing the denominator.

use vstd::prelude::*;
use crate::degree_laws::{sum_degrees, product_degrees};
use std::rc::Rc;
use vstd::arithmetic::power::pow;
use crate::poly::{Poly, sv, sv_kids, lemma_kid_smaller, is_product, is_sum, product_bound};
use crate::spoly::{
    SPoly, bounded, canonical, cleaned, eval, max_abs, max_abs_from, ordered, scaled, size, size_from, lemma_max_abs,
    lemma_size_pos, lemma_size_from_nonneg, lemma_bounded_scale_fits, lemma_eval_scaled, lemma_scaled_shape,
    lemma_eval_cleaned, lemma_cleaned_canonical, lemma_canonical_ordered, abs, lemma_max_abs_least,
    lemma_cleaned_bounded, lemma_scaled_bounded, lemma_bounded_mono,
};
use crate::poly_ops::{degree_in, degrees_fit, coeffs_of, gcd_upto, max_abs_upto, leaf_div, no_min_coeff, ints, lemma_coeffs_bounded};
use crate::poly_struct::{coef_tree, factors_fit, rc_tree, lemma_degree_nonneg, lemma_degree_max_bound};

verus! {

/// `x` capped at `u64::MAX`.
pub open spec fn capped(x: int) -> int {
    if x > u64::MAX { u64::MAX as int } else { x }
}

/// The absolute value of an `i64`, as a `u64`.
fn abs_u64(c: i64) -> (r: u64)
    ensures
        r as int == abs(c as int),
{
    if c >= 0 {
        c as u64
    } else {
        ((-(c + 1)) as u64) + 1
    }
}

impl Poly {
    /// The largest absolute value of a constant of the polynomial.
    pub fn max_abs_coefficient(&self) -> (r: u64)
        ensures
            r as int == max_abs(sv(*self)),
        decreases size(sv(*self)),
    {
        match self {
            Poly::Constant(c) => abs_u64(*c),
            Poly::Nested(w, polys) => {
                let ghost kids = sv_kids(polys@);
                let mut acc: u64 = 0;
                let mut i: usize = polys.len();
                while i > 0
                    invariant
                        *self == Poly::Nested(*w, *polys),
                        kids == sv_kids(polys@),
                        i <= polys@.len(),
                        acc as int == max_abs_from(kids, i as int),
                    decreases i,
                {
                    i = i - 1;
                    proof {
                        lemma_kid_smaller(*self, i as int);
                    }
                    let child: &Poly = &polys[i];
                    let m = child.max_abs_coefficient();
                    assert(kids[i as int] == sv(*child));
                    if m > acc {
                        acc = m;
                    }
                }
                acc
            },
        }
    }

    /// The number of nodes of the polynomial, capped at `u64::MAX`.
    pub fn node_count(&self) -> (r: u64)
        ensures
            r as int == capped(size(sv(*self))),
        decreases size(sv(*self)),
    {
        match self {
            Poly::Constant(_) => 1,
            Poly::Nested(w, polys) => {
                let ghost kids = sv_kids(polys@);
                let mut acc: u64 = 0;
                let mut i: usize = polys.len();
                while i > 0
                    invariant
                        *self == Poly::Nested(*w, *polys),
                        kids == sv_kids(polys@),
                        i <= polys@.len(),
                        acc as int == capped(size_from(kids, i as int)),
                    decreases i,
                {
                    i = i - 1;
                    proof {
                        lemma_kid_smaller(*self, i as int);
                        lemma_size_pos(kids[i as int]);
                        lemma_size_from_nonneg(kids, i + 1);
                    }
                    let child: &Poly = &polys[i];
                    let m = child.node_count();
                    assert(kids[i as int] == sv(*child));
                    acc = m.saturating_add(acc);
                }
                proof {
                    lemma_size_from_nonneg(kids, 0);
                }
                1u64.saturating_add(acc)
            },
        }
    }
}

/// `size(a) * max_abs(a) * m` fits in an `i64`, tested with the capped size.
pub(crate) fn product_fits(n: u64, ma: u64, mb: u64, Ghost(sa): Ghost<int>) -> (r: bool)
    requires
        sa >= 1,
        n as int == capped(sa),
    ensures
        r <==> sa * ma * mb <= i64::MAX,
{
    match n.checked_mul(ma) {
        Some(x) => match x.checked_mul(mb) {
            Some(y) => {
                proof {
                    if sa > u64::MAX {
                        assert(ma * mb == 0 || sa * ma * mb >= n * ma * mb) by (nonlinear_arith)
                            requires
                                sa > n,
                                ma >= 0,
                                mb >= 0,
                        ;
                        assert(ma * mb == 0 ==> sa * ma * mb == 0 && n * ma * mb == 0) by (nonlinear_arith);
                        assert(ma * mb != 0 ==> n * ma * mb >= n) by (nonlinear_arith)
                            requires
                                ma >= 0,
                                mb >= 0,
                                n >= 0,
                        ;
                    }
                }
                y <= i64::MAX as u64
            },
            None => {
                proof {
                    assert(sa * ma * mb >= n * ma * mb) by (nonlinear_arith)
                        requires
                            sa >= n,
                            ma >= 0,
                            mb >= 0,
                    ;
                }
                false
            },
        },
        None => {
            proof {
                assert(mb == 0 || sa * ma * mb >= n * ma) by (nonlinear_arith)
                    requires
                        sa >= n,
                        ma >= 0,
                        mb >= 0,
                ;
                assert(mb == 0 ==> sa * ma * mb == 0) by (nonlinear_arith);
                assert(mb != 0 ==> ma * mb >= ma) by (nonlinear_arith)
                    requires
                        ma >= 0,
                        mb >= 0,
                ;
            }
            if mb == 0 {
                true
            } else {
                proof {
                    assert(n * ma > u64::MAX);
                }
                false
            }
        },
    }
}

impl Poly {
    /// `self * poly` (see `multiply`), or `None` when the constants of the
    /// product could leave the bound that `multiply` keeps.
    pub fn try_multiply(&self, poly: &Poly) -> (r: Option<Poly>)
        requires
            ordered(sv(*self)),
            ordered(sv(*poly)),
        ensures
            r is Some <==> product_bound(sv(*self), sv(*poly)) <= i64::MAX,
            r matches Some(p) ==> ordered(sv(p)) && is_product(sv(p), sv(*self), sv(*poly)) && bounded(
                sv(p),
                product_bound(sv(*self), sv(*poly)),
            ),
            r matches Some(p) ==> (!(*self is Constant) && !(*poly is Constant) ==> canonical(sv(p))),
            r matches Some(p) ==> product_degrees(sv(p), sv(*self), sv(*poly)),
            r matches Some(p) ==> (*self is Constant ==> sv(p) == scaled(sv(*poly), self->Constant_0 as int)),
            r matches Some(p) ==> (!(*self is Constant) && *poly is Constant ==> sv(p) == scaled(
                sv(*self),
                poly->Constant_0 as int,
            )),
    {
        proof {
            lemma_size_pos(sv(*self));
        }
        let n = self.node_count();
        let ma = self.max_abs_coefficient();
        let mb = poly.max_abs_coefficient();
        if product_fits(n, ma, mb, Ghost(size(sv(*self)))) {
            Some(self.multiply(poly))
        } else {
            None
        }
    }

    /// Adds `factor * poly` (see `add_poly_scaled`) and answers `true`; when a
    /// constant could leave an `i64`, leaves the polynomial as it is and
    /// answers `false`.
    pub fn try_add_poly_scaled(&mut self, poly: &Poly, factor: i64) -> (r: bool)
        requires
            ordered(sv(*old(self))),
            ordered(sv(*poly)),
        ensures
            r <==> max_abs(sv(*old(self))) + max_abs(sv(*poly)) * abs(factor as int) <= i64::MAX,
            r ==> canonical(sv(*final(self))) && is_sum(sv(*final(self)), sv(*old(self)), sv(*poly), factor as int),
            r ==> bounded(sv(*final(self)), max_abs(sv(*old(self))) + max_abs(sv(*poly)) * abs(factor as int)),
            r ==> sum_degrees(sv(*final(self)), sv(*old(self)), sv(*poly)),
            !r ==> *final(self) == *old(self),
    {
        let ma = self.max_abs_coefficient();
        let mb = poly.max_abs_coefficient();
        let ak = abs_u64(factor);
        let fits = match mb.checked_mul(ak) {
            Some(x) => match ma.checked_add(x) {
                Some(y) => y <= i64::MAX as u64,
                None => false,
            },
            None => {
                proof {
                    assert(ma + mb * ak > i64::MAX) by (nonlinear_arith)
                        requires
                            mb * ak > u64::MAX,
                            ma >= 0,
                    ;
                }
                false
            },
        };
        if fits {
            self.add_poly_scaled(poly, factor);
        }
        fits
    }
}

/// Whether no constant of the polynomial is `i64::MIN` (see `no_min_coeff`).
pub fn min_coeff_free(p: &Poly) -> (r: bool)
    ensures
        r == no_min_coeff(sv(*p)),
{
    let cs = p.coefficients();
    let mut j: usize = 0;
    while j < cs.len()
        invariant
            j <= cs@.len(),
            ints(cs@) == coeffs_of(sv(*p)),
            forall|q: int| 0 <= q < j ==> #[trigger] coeffs_of(sv(*p))[q] > i64::MIN,
        decreases cs@.len() - j,
    {
        assert(ints(cs@)[j as int] == cs@[j as int] as int);
        if cs[j] == i64::MIN {
            return false;
        }
        j = j + 1;
    }
    true
}

/// Dividing the constants keeps the shape of an ordered tree.
pub proof fn lemma_leaf_div_shape(s: SPoly, g: int)
    requires
        ordered(s),
    ensures
        ordered(leaf_div(s, g)),
        forall|u: u8| crate::spoly::above(s, u) ==> #[trigger] crate::spoly::above(leaf_div(s, g), u),
    decreases s,
{
    match s {
        SPoly::Constant(_) => {},
        SPoly::Nested(w, cs) => {
            let ds = leaf_div(s, g)->Nested_1;
            assert forall|i: int| 0 <= i < ds.len() implies crate::spoly::above(#[trigger] ds[i], w) && ordered(ds[i]) by {
                lemma_leaf_div_shape(cs[i], g);
            }
        },
    }
}

/// A tree that `reduce_coefficients_if_large` leaves from a canonical one is canonical.
pub proof fn lemma_large_reduced_ordered(t: SPoly)
    requires
        canonical(t),
    ensures
        canonical(large_reduced(t)),
        ordered(large_reduced(t)),
{
    lemma_canonical_ordered(t);
    let cs = coeffs_of(t);
    let g = gcd_upto(cs, cs.len() as int).0;
    lemma_leaf_div_shape(t, g as int);
    lemma_cleaned_canonical(leaf_div(t, g as int));
    lemma_canonical_ordered(cleaned(leaf_div(t, g as int)));
}

/// Reducing large constants keeps the degrees from rising.
pub proof fn lemma_large_reduced_degree(t: SPoly, w: u8)
    requires
        ordered(t),
    ensures
        degree_in(large_reduced(t), w) <= degree_in(t, w),
{
    let cs = coeffs_of(t);
    let g = gcd_upto(cs, cs.len() as int).0;
    lemma_leaf_div_shape(t, g as int);
    crate::degree_laws::lemma_degree_large_reduced(t, g as int, w);
}

/// Powers of a number between -1 and 1 stay between -1 and 1.
proof fn lemma_pow_unit(k: int, j: nat)
    requires
        -1 <= k <= 1,
    ensures
        -1 <= pow(k, j) <= 1,
    decreases j,
{
    reveal(pow);
    if j > 0 {
        lemma_pow_unit(k, (j - 1) as nat);
        let a = pow(k, (j - 1) as nat);
        assert(-1 <= k * a <= 1) by (nonlinear_arith)
            requires
                -1 <= k <= 1,
                -1 <= a <= 1,
        ;
    }
}

/// For `|k| >= 2` each further power at least doubles the absolute value.
proof fn lemma_pow_abs_grows(k: int, j: nat, e: nat)
    requires
        k >= 2 || k <= -2,
        j < e,
    ensures
        abs_int(pow(k, e)) >= 2 * abs_int(pow(k, j)),
    decreases e,
{
    reveal(pow);
    let a = pow(k, (e - 1) as nat);
    assert(pow(k, e) == k * a);
    assert(abs_int(k * a) >= 2 * abs_int(a)) by (nonlinear_arith)
        requires
            k >= 2 || k <= -2,
    ;
    if j + 1 < e {
        lemma_pow_abs_grows(k, j, (e - 1) as nat);
    }
}

/// The absolute value of an integer.
pub open spec fn abs_int(x: int) -> int {
    if x < 0 {
        -x
    } else {
        x
    }
}

/// `k^e`, when it fits in an `i64`.
pub(crate) fn checked_power(k: i64, e: u32) -> (r: Option<i64>)
    ensures
        r is Some <==> i64::MIN <= pow(k as int, e as nat) <= i64::MAX,
        r matches Some(x) ==> x == pow(k as int, e as nat),
{
    let mut acc: i64 = 1;
    let mut j: u32 = 0;
    proof {
        reveal(pow);
    }
    while j < e
        invariant
            j <= e,
            acc == pow(k as int, j as nat),
        decreases e - j,
    {
        proof {
            reveal(pow);
            assert(pow(k as int, (j + 1) as nat) == k * pow(k as int, j as nat));
            assert(acc * k == k * acc) by (nonlinear_arith);
        }
        match acc.checked_mul(k) {
            Some(x) => {
                acc = x;
            },
            None => {
                proof {
                    if -1 <= k <= 1 {
                        lemma_pow_unit(k as int, j as nat);
                        assert(-1 <= acc * k <= 1) by (nonlinear_arith)
                            requires
                                -1 <= k <= 1,
                                -1 <= acc <= 1,
                        ;
                    }
                    if j + 1 < e {
                        lemma_pow_abs_grows(k as int, (j + 1) as nat, e as nat);
                    }
                }
                return None;
            },
        }
        j = j + 1;
    }
    Some(acc)
}

/// `c_0 k^d + c_1 p k^(d-1) + ... ` over the first `n` coefficients `c_i` of
/// the powers of `v` (see `coef_tree`), at the values `env`.
pub open spec fn linear_sub_upto(s: SPoly, v: u8, p: SPoly, k: int, d: nat, n: nat, env: spec_fn(u8) -> int) -> int
    decreases n,
{
    if n == 0 {
        0
    } else {
        let i = (n - 1) as nat;
        linear_sub_upto(s, v, p, k, d, i, env) + eval(coef_tree(s, v, i as int), env) * pow(eval(p, env), i) * pow(
            k,
            (d - i) as nat,
        )
    }
}

/// The polynomial with `v` replaced by `p / k`, multiplied by `k^d` where `d`
/// is its degree in `v`: `c_0 k^d + c_1 p k^(d-1) + ... + c_d p^d`.
pub open spec fn linear_sub_value(s: SPoly, v: u8, p: SPoly, k: int, env: spec_fn(u8) -> int) -> int {
    let d = degree_in(s, v);
    linear_sub_upto(s, v, p, k, d as nat, (d + 1) as nat, env)
}

/// What `reduce_coefficients_if_large` makes of a tree.
pub open spec fn large_reduced(t: SPoly) -> SPoly {
    let cs = coeffs_of(t);
    let g = gcd_upto(cs, cs.len() as int).0;
    if max_abs_upto(cs, cs.len() as int) <= 10000 || g == 1 {
        t
    } else {
        cleaned(leaf_div(t, g as int))
    }
}

/// A polynomial has room for the coefficient of each power of `v` up to its degree.
pub proof fn lemma_factors_fit(s: SPoly, v: u8)
    requires
        ordered(s),
    ensures
        factors_fit(s, v, degree_in(s, v) + 1),
    decreases s,
{
    lemma_degree_nonneg(s, v);
    match s {
        SPoly::Constant(_) => {},
        SPoly::Nested(w, cs) => {
            if w < v {
                assert forall|k: int| 0 <= k < cs.len() implies factors_fit(
                    #[trigger] cs[k],
                    v,
                    degree_in(cs[k], v) + 1,
                ) by {
                    lemma_factors_fit(cs[k], v);
                }
            }
        },
    }
}

impl Poly {
    /// Replaces variable `v` by `poly / k` and multiplies by `k^d`, `d` being
    /// the degree of `v`, which leaves a polynomial without `v` (see
    /// `linear_sub_value`); then brings it to its normal form and reduces
    /// large constants (see `large_reduced`). `None` when a constant on the
    /// way would not fit in an `i64`.
    pub fn substitute_linear(&self, v: u8, poly: Rc<Poly>, k: i64) -> (r: Option<Poly>)
        requires
            ordered(sv(*self)),
            degrees_fit(sv(*self)),
            ordered(sv(*poly)),
        ensures
            r matches Some(q) ==> exists|t: SPoly|
                #![trigger large_reduced(t)]
                canonical(t) && no_min_coeff(t) && sv(q) == large_reduced(t) && forall|env: spec_fn(u8) -> int|
                    #[trigger] eval(t, env) == linear_sub_value(sv(*self), v, sv(*poly), k as int, env),
            degree_in(sv(*self), v) == 0 && size(sv(*self)) * max_abs(sv(*self)) <= i64::MAX ==> r is Some,
    {
        let d = self.get_degree(v);
        if d as usize == usize::MAX {
            return None;
        }
        let n_self = self.node_count();
        let m_self = self.max_abs_coefficient();
        proof {
            lemma_size_pos(sv(*self));
            lemma_degree_nonneg(sv(*self), v);
            lemma_factors_fit(sv(*self), v);
        }
        if !product_fits(n_self, m_self, 1, Ghost(size(sv(*self)))) {
            return None;
        }
        assert(size(sv(*self)) * max_abs(sv(*self)) * 1 == size(sv(*self)) * max_abs(sv(*self)));
        let n_factors: usize = d as usize + 1;
        let mut factors: Vec<Rc<Poly>> = Vec::new();
        let mut z: usize = 0;
        while z < n_factors
            invariant
                z <= n_factors,
                factors@.len() == z,
                forall|q: int| 0 <= q < z ==> sv(*#[trigger] factors@[q]) == SPoly::Constant(0),
            decreases n_factors - z,
        {
            factors.push(Rc::new(Poly::Constant(0)));
            z = z + 1;
        }
        let ghost zeros = factors@;
        proof {
            assert forall|j: int| 0 <= j < factors@.len() implies ordered(sv(*#[trigger] factors@[j])) && max_abs(
                sv(*factors@[j]),
            ) + size(sv(*self)) * max_abs(sv(*self)) <= i64::MAX by {
                assert(sv(*factors@[j]) == SPoly::Constant(0));
            }
        }
        self.compute_factors(v, &mut factors);
        proof {
            assert forall|j: int, env: spec_fn(u8) -> int| 0 <= j < factors@.len() implies #[trigger] eval(
                sv(*factors@[j]),
                env,
            ) == eval(coef_tree(sv(*self), v, j), env) by {
                assert(sv(*zeros[j]) == SPoly::Constant(0));
            }
        }
        let ghost dn = d as nat;
        let ghost p = rc_tree(&poly);
        let f0: &Poly = &factors[0];
        let mut result = f0.copy();
        proof {
            reveal(pow);
            assert(pow(k as int, 0) == 1);
        }
        let kd = match checked_power(k, d) {
            Some(x) => x,
            None => {
                return None;
            },
        };
        proof {
            if d == 0 {
                reveal(pow);
                assert(sv(*zeros[0]) == SPoly::Constant(0));
                assert(max_abs(sv(*zeros[0])) == 0);
                lemma_max_abs(sv(*self));
                let sm = size(sv(*self)) * max_abs(sv(*self));
                assert(sm >= 0) by (nonlinear_arith)
                    requires
                        size(sv(*self)) >= 1,
                        max_abs(sv(*self)) >= 0,
                        sm == size(sv(*self)) * max_abs(sv(*self)),
                ;
                assert(bounded(sv(*factors@[0]), sm));
                assert(sv(result) == sv(*factors@[0]));
                lemma_max_abs_least(sv(result), sm);
            }
        }
        let m0 = result.max_abs_coefficient();
        let ak = abs_u64(kd);
        proof {
            if d == 0 && size(sv(*self)) * max_abs(sv(*self)) <= i64::MAX {
                assert(ak == 1);
                assert(m0 * ak == m0) by (nonlinear_arith)
                    requires
                        ak == 1,
                ;
            }
        }
        match m0.checked_mul(ak) {
            Some(x) => {
                if x > i64::MAX as u64 {
                    return None;
                }
            },
            None => {
                return None;
            },
        }
        proof {
            lemma_max_abs(sv(result));
            lemma_bounded_scale_fits(sv(result), max_abs(sv(result)), kd as int);
            if d == 0 {
                lemma_scaled_bounded(sv(result), kd as int, max_abs(sv(result)));
            }
        }
        let ghost r0 = sv(result);
        result.scale(kd);
        proof {
            lemma_scaled_shape(r0, kd as int);
            if d == 0 {
                assert(max_abs(r0) * 1 == max_abs(r0));
                lemma_bounded_mono(sv(result), max_abs(r0), i64::MAX as int);
            }
            assert forall|env: spec_fn(u8) -> int| #[trigger] eval(sv(result), env) == linear_sub_upto(
                sv(*self),
                v,
                p,
                k as int,
                dn,
                1,
                env,
            ) by {
                lemma_eval_scaled(r0, kd as int, env);
                reveal(pow);
                assert(pow(eval(p, env), 0) == 1);
                assert(linear_sub_upto(sv(*self), v, p, k as int, dn, 0, env) == 0);
                let x = eval(coef_tree(sv(*self), v, 0), env);
                assert(kd * x == x * 1 * kd) by (nonlinear_arith);
            }
        }
        let mut poly_power = poly.copy();
        proof {
            assert forall|env: spec_fn(u8) -> int| #[trigger] eval(sv(poly_power), env) == pow(eval(p, env), 1) by {
                reveal(pow);
                assert(pow(eval(p, env), 0) == 1);
            }
        }
        let mut i: u64 = 1;
        while i <= d as u64
            invariant
                1 <= i <= d as u64 + 1,
                dn == d as nat,
                p == sv(*poly),
                ordered(p),
                factors@.len() == d as int + 1,
                forall|j: int| 0 <= j < factors@.len() ==> ordered(sv(*#[trigger] factors@[j])),
                forall|j: int, env: spec_fn(u8) -> int| 0 <= j < factors@.len() ==> #[trigger] eval(
                    sv(*factors@[j]),
                    env,
                ) == eval(coef_tree(sv(*self), v, j), env),
                ordered(sv(result)),
                ordered(sv(poly_power)),
                forall|env: spec_fn(u8) -> int| #[trigger] eval(sv(result), env) == linear_sub_upto(
                    sv(*self),
                    v,
                    p,
                    k as int,
                    dn,
                    i as nat,
                    env,
                ),
                forall|env: spec_fn(u8) -> int| #[trigger] eval(sv(poly_power), env) == pow(eval(p, env), i as nat),
                d == 0 ==> bounded(sv(result), i64::MAX as int),
                d as int == degree_in(sv(*self), v),
            decreases d as u64 + 1 - i,
        {
            let fi: &Poly = &factors[i as usize];
            let n_fi = fi.node_count();
            let m_fi = fi.max_abs_coefficient();
            let m_pp = poly_power.max_abs_coefficient();
            proof {
                lemma_size_pos(sv(*fi));
            }
            if !product_fits(n_fi, m_fi, m_pp, Ghost(size(sv(*fi)))) {
                return None;
            }
            let product = fi.multiply(&poly_power);
            let ke = match checked_power(k, d - i as u32) {
                Some(x) => x,
                None => {
                    return None;
                },
            };
            let m_r = result.max_abs_coefficient();
            let m_prod = product.max_abs_coefficient();
            let ake = abs_u64(ke);
            match m_prod.checked_mul(ake) {
                Some(x) => match m_r.checked_add(x) {
                    Some(y) => {
                        if y > i64::MAX as u64 {
                            return None;
                        }
                    },
                    None => {
                        return None;
                    },
                },
                None => {
                    return None;
                },
            }
            let ghost before = sv(result);
            result.add_poly_scaled(&product, ke);
            proof {
                lemma_canonical_ordered(sv(result));
                assert forall|env: spec_fn(u8) -> int| #[trigger] eval(sv(result), env) == linear_sub_upto(
                    sv(*self),
                    v,
                    p,
                    k as int,
                    dn,
                    (i + 1) as nat,
                    env,
                ) by {
                    let x = eval(coef_tree(sv(*self), v, i as int), env);
                    let pp = pow(eval(p, env), i as nat);
                    assert(eval(sv(*factors@[i as int]), env) == x);
                    assert(eval(sv(product), env) == x * pp);
                    assert(ke * (x * pp) == x * pp * ke) by (nonlinear_arith);
                    assert(eval(sv(result), env) == eval(before, env) + ke * eval(sv(product), env));
                }
            }
            let n_pp = poly_power.node_count();
            let m_poly = poly.max_abs_coefficient();
            proof {
                lemma_size_pos(sv(poly_power));
            }
            if !product_fits(n_pp, m_pp, m_poly, Ghost(size(sv(poly_power)))) {
                return None;
            }
            let ghost pp0 = sv(poly_power);
            poly_power = poly_power.multiply(&poly);
            proof {
                assert forall|env: spec_fn(u8) -> int| #[trigger] eval(sv(poly_power), env) == pow(
                    eval(p, env),
                    (i + 1) as nat,
                ) by {
                    reveal(pow);
                    let b = eval(p, env);
                    assert(pow(b, (i + 1) as nat) == b * pow(b, i as nat));
                    assert(eval(sv(poly_power), env) == eval(pp0, env) * b);
                    assert(pow(b, i as nat) * b == b * pow(b, i as nat)) by (nonlinear_arith);
                }
            }
            i = i + 1;
        }
        let ghost pre = sv(result);
        result.cleanup();
        proof {
            lemma_cleaned_canonical(pre);
            if d == 0 {
                lemma_cleaned_bounded(pre, i64::MAX as int);
                lemma_coeffs_bounded(sv(result), i64::MAX as int);
            }
            assert forall|env: spec_fn(u8) -> int| #[trigger] eval(sv(result), env) == linear_sub_value(
                sv(*self),
                v,
                p,
                k as int,
                env,
            ) by {
                lemma_eval_cleaned(pre, env);
            }
        }
        let cs = result.coefficients();
        let mut j: usize = 0;
        while j < cs.len()
            invariant
                j <= cs@.len(),
                ints(cs@) == coeffs_of(sv(result)),
                forall|q: int| 0 <= q < j ==> #[trigger] coeffs_of(sv(result))[q] > i64::MIN,
                d == 0 ==> forall|q: int| 0 <= q < coeffs_of(sv(result)).len() ==> #[trigger] coeffs_of(sv(result))[q]
                    > i64::MIN,
                d as int == degree_in(sv(*self), v),
            decreases cs@.len() - j,
        {
            assert(ints(cs@)[j as int] == cs@[j as int] as int);
            if cs[j] == i64::MIN {
                return None;
            }
            assert(ints(cs@)[j as int] == cs@[j as int] as int);
            j = j + 1;
        }
        let ghost t = sv(result);
        result.reduce_coefficients_if_large();
        proof {
            assert(sv(result) == large_reduced(t));
        }
        Some(result)
    }
}

} // verus!
