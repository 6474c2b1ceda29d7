//! Queries and coefficient-wise operations on polynomials: degrees,
//! variables, the list of coefficients, and maps over it.

use vstd::prelude::*;
use std::rc::Rc;
use crate::poly::{Poly, sv, sv_kids, lemma_kid_smaller};
use crate::spoly::{SPoly, bounded, cleaned, is_zero, size};
use crate::modular_poly::{ModularPoly, add_seq, mul_seq, seq_is_zero, trim};
use crate::text::{decimal, push_decimal, push_str};
use std::collections::HashMap;
use gcd::Gcd;

verus! {

/// The degree of variable `v` in a tree: the highest power of `v` that a
/// branch reaches, zero when `v` does not occur.
pub open spec fn degree_in(s: SPoly, v: u8) -> int
    decreases s, 0int,
{
    match s {
        SPoly::Constant(_) => 0,
        SPoly::Nested(w, cs) => if w > v {
            0
        } else if w == v {
            cs.len() - 1
        } else {
            degree_max(cs, v, cs.len() as int)
        },
    }
}

/// The largest degree of `v` among `cs[..n]`, or zero.
pub open spec fn degree_max(cs: Seq<SPoly>, v: u8, n: int) -> int
    decreases cs, n,
{
    if n <= 0 || n > cs.len() {
        0
    } else {
        let a = degree_max(cs, v, n - 1);
        let b = degree_in(cs[n - 1], v);
        if a >= b { a } else { b }
    }
}

/// Variable `v` is the variable of a node that is reached without passing a
/// node of a larger variable.
pub open spec fn has_var_spec(s: SPoly, v: u8) -> bool
    decreases s,
{
    match s {
        SPoly::Constant(_) => false,
        SPoly::Nested(w, cs) => w == v || (w < v && exists|i: int|
            #![trigger cs[i]]
            0 <= i < cs.len() && has_var_spec(cs[i], v)),
    }
}

/// Variable `u` is the variable of some node.
pub open spec fn mentions(s: SPoly, u: int) -> bool
    decreases s,
{
    match s {
        SPoly::Constant(_) => false,
        SPoly::Nested(w, cs) => w == u || exists|i: int| #![trigger cs[i]] 0 <= i < cs.len() && mentions(cs[i], u),
    }
}

/// The constants of a tree, in order.
pub open spec fn coeffs_of(s: SPoly) -> Seq<int>
    decreases s, 0int,
{
    match s {
        SPoly::Constant(c) => seq![c],
        SPoly::Nested(_, cs) => coeffs_upto(cs, cs.len() as int),
    }
}

/// The constants of `cs[..n]`, in order.
pub open spec fn coeffs_upto(cs: Seq<SPoly>, n: int) -> Seq<int>
    decreases cs, n,
{
    if n <= 0 || n > cs.len() {
        seq![]
    } else {
        coeffs_upto(cs, n - 1) + coeffs_of(cs[n - 1])
    }
}

/// The constants of a bounded tree are bounded.
pub proof fn lemma_coeffs_bounded(s: SPoly, b: int)
    requires
        bounded(s, b),
    ensures
        forall|q: int| #![trigger coeffs_of(s)[q]] 0 <= q < coeffs_of(s).len() ==> -b <= coeffs_of(s)[q] && coeffs_of(s)[q] <= b,
    decreases s, 0int,
{
    match s {
        SPoly::Constant(c) => {
            assert(coeffs_of(s) == seq![c]);
            assert(coeffs_of(s).len() == 1);
            assert(-b <= c <= b);
            assert forall|q: int| #![trigger coeffs_of(s)[q]] 0 <= q < coeffs_of(s).len() implies -b <= coeffs_of(s)[q]
                && coeffs_of(s)[q] <= b by {
                assert(q == 0);
            }
        },
        SPoly::Nested(_, cs) => {
            lemma_coeffs_upto_bounded(cs, cs.len() as int, b);
            assert(coeffs_of(s) == coeffs_upto(cs, cs.len() as int));
        },
    }
}

/// The constants of bounded trees `cs[..n]` are bounded.
pub proof fn lemma_coeffs_upto_bounded(cs: Seq<SPoly>, n: int, b: int)
    requires
        forall|i: int| 0 <= i < cs.len() ==> bounded(#[trigger] cs[i], b),
    ensures
        forall|q: int| 0 <= q < coeffs_upto(cs, n).len() ==> -b <= #[trigger] coeffs_upto(cs, n)[q] <= b,
    decreases cs, n,
{
    if n <= 0 || n > cs.len() {
    } else {
        lemma_coeffs_upto_bounded(cs, n - 1, b);
        lemma_coeffs_bounded(cs[n - 1], b);
        let a = coeffs_upto(cs, n - 1);
        let c = coeffs_of(cs[n - 1]);
        assert forall|q: int| 0 <= q < (a + c).len() implies -b <= #[trigger] (a + c)[q] <= b by {
            if q >= a.len() {
                assert((a + c)[q] == c[q - a.len()]);
            }
        }
    }
}

/// The values of a list of `i64`s.
pub open spec fn ints(v: Seq<i64>) -> Seq<int> {
    Seq::new(v.len(), |i: int| v[i] as int)
}

/// `b` is `a` with every constant `c` replaced by a value `f` may return for `c`.
pub open spec fn leafwise<F: Fn(i64) -> i64>(a: SPoly, b: SPoly, f: F) -> bool
    decreases a,
{
    match a {
        SPoly::Constant(c) => match b {
            SPoly::Constant(d) => i64::MIN <= c <= i64::MAX && i64::MIN <= d <= i64::MAX && call_ensures(
                f,
                (c as i64,),
                d as i64,
            ),
            SPoly::Nested(_, _) => false,
        },
        SPoly::Nested(v, cs) => match b {
            SPoly::Constant(_) => false,
            SPoly::Nested(w, ds) => v == w && cs.len() == ds.len() && forall|i: int|
                #![trigger cs[i]]
                0 <= i < cs.len() ==> leafwise(cs[i], ds[i], f),
        },
    }
}

/// Every node has between one and `u32::MAX` coefficients, so that every
/// degree is a `u32`.
pub open spec fn degrees_fit(s: SPoly) -> bool
    decreases s,
{
    match s {
        SPoly::Constant(_) => true,
        SPoly::Nested(_, cs) => 1 <= cs.len() <= u32::MAX && forall|i: int|
            #![trigger cs[i]]
            0 <= i < cs.len() ==> degrees_fit(cs[i]),
    }
}

/// Degrees lie between zero and `u32::MAX - 1`.
proof fn lemma_degree_range(s: SPoly, v: u8)
    requires
        degrees_fit(s),
    ensures
        0 <= degree_in(s, v) < u32::MAX,
    decreases s, 0int,
{
    match s {
        SPoly::Constant(_) => {},
        SPoly::Nested(w, cs) => {
            if w < v {
                lemma_degree_max_range(cs, v, cs.len() as int);
            }
        },
    }
}

/// The largest degree among `cs[..n]` lies between zero and `u32::MAX - 1`.
proof fn lemma_degree_max_range(cs: Seq<SPoly>, v: u8, n: int)
    requires
        forall|i: int| #![trigger cs[i]] 0 <= i < cs.len() ==> degrees_fit(cs[i]),
    ensures
        0 <= degree_max(cs, v, n) < u32::MAX,
    decreases cs, n,
{
    if 0 < n <= cs.len() {
        lemma_degree_max_range(cs, v, n - 1);
        lemma_degree_range(cs[n - 1], v);
    }
}

impl Poly {
    /// The degree of variable `v` (see `degree_in`).
    pub fn get_degree(&self, v: u8) -> (r: u32)
        requires
            degrees_fit(sv(*self)),
        ensures
            r as int == degree_in(sv(*self), v),
        decreases size(sv(*self)),
    {
        proof {
            lemma_degree_range(sv(*self), v);
        }
        match self {
            Poly::Constant(_) => 0,
            Poly::Nested(v1, polys) => {
                if *v1 > v {
                    0
                } else if *v1 == v {
                    (polys.len() - 1) as u32
                } else {
                    let ghost kids = sv_kids(polys@);
                    let mut best: u32 = 0;
                    let mut i: usize = 0;
                    while i < polys.len()
                        invariant
                            *self == Poly::Nested(*v1, *polys),
                            kids == sv_kids(polys@),
                            degrees_fit(sv(*self)),
                            *v1 < v,
                            i <= polys@.len(),
                            best as int == degree_max(kids, v, i as int),
                        decreases polys@.len() - i,
                    {
                        proof {
                            lemma_kid_smaller(*self, i as int);
                            assert(degrees_fit(kids[i as int]));
                        }
                        let child: &Poly = &polys[i];
                        let d = child.get_degree(v);
                        if d > best {
                            best = d;
                        }
                        i = i + 1;
                    }
                    best
                }
            },
        }
    }

    /// Whether variable `v` occurs (see `has_var_spec`).
    pub fn has_var(&self, v: u8) -> (r: bool)
        ensures
            r == has_var_spec(sv(*self), v),
        decreases size(sv(*self)),
    {
        match self {
            Poly::Constant(_) => false,
            Poly::Nested(v1, polys) => {
                if *v1 == v {
                    return true;
                }
                if *v1 > v {
                    return false;
                }
                let ghost kids = sv_kids(polys@);
                let mut i: usize = 0;
                while i < polys.len()
                    invariant
                        *self == Poly::Nested(*v1, *polys),
                        kids == sv_kids(polys@),
                        *v1 < v,
                        i <= polys@.len(),
                        forall|j: int| 0 <= j < i ==> !has_var_spec(#[trigger] kids[j], v),
                    decreases polys@.len() - i,
                {
                    proof {
                        lemma_kid_smaller(*self, i as int);
                    }
                    let child: &Poly = &polys[i];
                    if child.has_var(v) {
                        return true;
                    }
                    i = i + 1;
                }
                false
            },
        }
    }

    /// Marks in `vars` every variable that the polynomial mentions.
    pub fn fill_in_variables(&self, vars: &mut [bool; 256])
        ensures
            forall|u: int| 0 <= u < 256 ==> #[trigger] final(vars)@[u] == (old(vars)@[u] || mentions(sv(*self), u)),
        decreases size(sv(*self)),
    {
        match self {
            Poly::Constant(_) => {},
            Poly::Nested(v, polys) => {
                vars.set(*v as usize, true);
                let ghost kids = sv_kids(polys@);
                let ghost start = old(vars)@;
                let mut i: usize = 0;
                while i < polys.len()
                    invariant
                        *self == Poly::Nested(*v, *polys),
                        kids == sv_kids(polys@),
                        i <= polys@.len(),
                        vars@.len() == 256,
                        start.len() == 256,
                        forall|u: int| 0 <= u < 256 ==> #[trigger] vars@[u] == (start[u] || u == *v as int || exists|j: int|
                            0 <= j < i && mentions(#[trigger] kids[j], u)),
                    decreases polys@.len() - i,
                {
                    proof {
                        lemma_kid_smaller(*self, i as int);
                    }
                    let child: &Poly = &polys[i];
                    let ghost before = vars@;
                    child.fill_in_variables(vars);
                    proof {
                        assert forall|u: int| 0 <= u < 256 implies #[trigger] vars@[u] == (start[u] || u == *v as int
                            || exists|j: int| 0 <= j < i + 1 && mentions(#[trigger] kids[j], u)) by {
                            if mentions(kids[i as int], u) {
                                assert(exists|j: int| 0 <= j < i + 1 && mentions(#[trigger] kids[j], u));
                            }
                            if exists|j: int| 0 <= j < i + 1 && mentions(#[trigger] kids[j], u) {
                                let j = choose|j: int| 0 <= j < i + 1 && mentions(#[trigger] kids[j], u);
                                if j < i {
                                    assert(exists|j: int| 0 <= j < i && mentions(#[trigger] kids[j], u));
                                }
                            }
                        }
                    }
                    i = i + 1;
                }
            },
        }
    }
}


/// The greatest common divisor, by Euclid's rule; `gcd_spec(a, 0) == a`.
pub open spec fn gcd_spec(a: nat, b: nat) -> nat
    decreases b,
{
    if b == 0 {
        a
    } else {
        gcd_spec(b, a % b)
    }
}

/// `gcd::Gcd::gcd` on `u64`: the greatest common divisor of `a` and `b`,
/// where the divisor of a number and zero is that number.
#[verifier::external_body]
pub(crate) fn gcd_u64(a: u64, b: u64) -> (r: u64)
    ensures
        r == gcd_spec(a as nat, b as nat),
{
    a.gcd(b)
}

/// Division that rounds towards zero, as Rust's `/` on integers.
pub open spec fn trunc_div(c: int, g: int) -> int {
    if c >= 0 {
        c / g
    } else {
        -((-c) / g)
    }
}

/// Every constant divided by `g`, rounding towards zero.
pub open spec fn leaf_div(s: SPoly, g: int) -> SPoly
    decreases s,
{
    match s {
        SPoly::Constant(c) => SPoly::Constant(trunc_div(c, g)),
        SPoly::Nested(v, cs) => SPoly::Nested(
            v,
            Seq::new(cs.len(), |i: int| if 0 <= i < cs.len() { leaf_div(cs[i], g) } else { SPoly::Constant(0) }),
        ),
    }
}

/// The largest absolute value among `cs[..n]`, or zero.
pub open spec fn max_abs_upto(cs: Seq<int>, n: int) -> int
    decreases n,
{
    if n <= 0 {
        0
    } else {
        let a = max_abs_upto(cs, n - 1);
        let b = if cs[n - 1] < 0 { -cs[n - 1] } else { cs[n - 1] };
        if a >= b { a } else { b }
    }
}

/// The common divisor of the non-zero entries of `cs[..n]`: the absolute
/// value of the first, then combined with each next one by `gcd_spec`; 1 and
/// `true` while none was seen.
pub open spec fn gcd_upto(cs: Seq<int>, n: int) -> (nat, bool)
    decreases n,
{
    if n <= 0 {
        (1, true)
    } else {
        let (g, first) = gcd_upto(cs, n - 1);
        let c = cs[n - 1];
        let a: nat = (if c < 0 { -c } else { c }) as nat;
        if c == 0 {
            (g, first)
        } else if first {
            (a, false)
        } else {
            (gcd_spec(g, a), false)
        }
    }
}

/// No constant is `i64::MIN`.
pub open spec fn no_min_coeff(s: SPoly) -> bool {
    forall|i: int| 0 <= i < coeffs_of(s).len() ==> #[trigger] coeffs_of(s)[i] > i64::MIN
}

impl Poly {
    /// The constants of the polynomial, in order.
    pub fn coefficients(&self) -> (r: Vec<i64>)
        ensures
            ints(r@) == coeffs_of(sv(*self)),
        decreases size(sv(*self)),
    {
        match self {
            Poly::Constant(c) => {
                let mut r: Vec<i64> = Vec::new();
                r.push(*c);
                assert(ints(r@) =~= coeffs_of(sv(*self)));
                r
            },
            Poly::Nested(_, polys) => {
                let ghost kids = sv_kids(polys@);
                let mut r: Vec<i64> = Vec::new();
                let mut i: usize = 0;
                assert(ints(r@) =~= coeffs_upto(kids, 0));
                while i < polys.len()
                    invariant
                        self is Nested,
                        self->Nested_1 == *polys,
                        kids == sv_kids(polys@),
                        i <= polys@.len(),
                        ints(r@) == coeffs_upto(kids, i as int),
                    decreases polys@.len() - i,
                {
                    proof {
                        lemma_kid_smaller(*self, i as int);
                    }
                    let child: &Poly = &polys[i];
                    let sub = child.coefficients();
                    let mut j: usize = 0;
                    let ghost base = ints(r@);
                    while j < sub.len()
                        invariant
                            j <= sub@.len(),
                            ints(r@) == base + ints(sub@).take(j as int),
                        decreases sub@.len() - j,
                    {
                        let ghost before = r@;
                        r.push(sub[j]);
                        assert(ints(r@) =~= ints(before).push(sub@[j as int] as int));
                        assert(ints(sub@).take(j as int + 1) =~= ints(sub@).take(j as int).push(sub@[j as int] as int));
                        assert(ints(r@) =~= base + ints(sub@).take(j as int + 1));
                        j = j + 1;
                    }
                    assert(ints(sub@).take(j as int) =~= ints(sub@));
                    i = i + 1;
                }
                r
            },
        }
    }

    /// Calls `f` on every constant of the polynomial, in order (see `coefficients`).
    pub fn observe_coefficients<F: FnMut(i64)>(&self, mut f: F)
        requires
            forall|x: i64| #[trigger] call_requires(f, (x,)),
    {
        let cs = self.coefficients();
        let mut i: usize = 0;
        while i < cs.len()
            invariant
                i <= cs@.len(),
                forall|x: i64| #[trigger] call_requires(f, (x,)),
            decreases cs@.len() - i,
        {
            f(cs[i]);
            i = i + 1;
        }
    }

    /// The polynomial with every constant `c` replaced by `f(c)`.
    fn map_leaves<F: Fn(i64) -> i64>(&self, f: &F) -> (r: Poly)
        requires
            forall|x: i64| #[trigger] call_requires(*f, (x,)),
        ensures
            leafwise(sv(*self), sv(r), *f),
        decreases size(sv(*self)),
    {
        match self {
            Poly::Constant(c) => Poly::Constant(f(*c)),
            Poly::Nested(v, polys) => {
                let ghost kids = sv_kids(polys@);
                let mut ds: Vec<Rc<Poly>> = Vec::new();
                let mut i: usize = 0;
                while i < polys.len()
                    invariant
                        *self == Poly::Nested(*v, *polys),
                        kids == sv_kids(polys@),
                        forall|x: i64| #[trigger] call_requires(*f, (x,)),
                        i <= polys@.len(),
                        ds@.len() == i,
                        forall|j: int| 0 <= j < i ==> leafwise(#[trigger] kids[j], sv(*ds@[j]), *f),
                    decreases polys@.len() - i,
                {
                    proof {
                        lemma_kid_smaller(*self, i as int);
                    }
                    let child: &Poly = &polys[i];
                    let m = child.map_leaves(f);
                    ds.push(Rc::new(m));
                    i = i + 1;
                }
                let r = Poly::Nested(*v, ds);
                proof {
                    let kd = sv_kids(ds@);
                    assert forall|j: int| 0 <= j < kids.len() implies leafwise(#[trigger] kids[j], kd[j], *f) by {
                        assert(kd[j] == sv(*ds@[j]));
                    }
                }
                r
            },
        }
    }

    /// Replaces every constant `c` by `f(c)`, then brings the polynomial to its
    /// normal form.
    pub fn apply_to_coefficients<F: Fn(i64) -> i64>(&mut self, f: F)
        requires
            forall|x: i64| #[trigger] call_requires(f, (x,)),
        ensures
            exists|t: SPoly| leafwise(sv(*old(self)), t, f) && sv(*final(self)) == cleaned(t),
    {
        let m = self.map_leaves(&f);
        let ghost t = sv(m);
        let mut m2 = m;
        m2.cleanup();
        *self = m2;
        assert(leafwise(sv(*old(self)), t, f) && sv(*self) == cleaned(t));
    }

    /// The polynomial with every constant divided by `g`, rounding towards zero.
    pub(crate) fn divided_poly(&self, g: u64) -> (r: Poly)
        requires
            g >= 2,
        ensures
            sv(r) == leaf_div(sv(*self), g as int),
        decreases size(sv(*self)),
    {
        match self {
            Poly::Constant(c) => {
                let x = *c;
                let q: i64 = if x >= 0 {
                    ((x as u64) / g) as i64
                } else {
                    let a: u64 = (-(x as i128)) as u64;
                    let q: u64 = a / g;
                    assert(q <= a / 2) by (nonlinear_arith)
                        requires
                            q == a / g,
                            g >= 2,
                    ;
                    -(q as i64)
                };
                Poly::Constant(q)
            },
            Poly::Nested(v, polys) => {
                let ghost target = leaf_div(sv(*self), g as int)->Nested_1;
                let mut ds: Vec<Rc<Poly>> = Vec::new();
                let mut i: usize = 0;
                while i < polys.len()
                    invariant
                        *self == Poly::Nested(*v, *polys),
                        target == leaf_div(sv(*self), g as int)->Nested_1,
                        g >= 2,
                        i <= polys@.len(),
                        ds@.len() == i,
                        forall|j: int| 0 <= j < i ==> sv(*#[trigger] ds@[j]) == target[j],
                    decreases polys@.len() - i,
                {
                    proof {
                        lemma_kid_smaller(*self, i as int);
                    }
                    let child: &Poly = &polys[i];
                    let m = child.divided_poly(g);
                    ds.push(Rc::new(m));
                    i = i + 1;
                }
                assert(sv_kids(ds@) =~= target);
                Poly::Nested(*v, ds)
            },
        }
    }

    /// When the largest absolute value of a constant is above `threshold`,
    /// divides every constant by their common divisor (see `gcd_upto`) and
    /// brings the polynomial to its normal form; otherwise, or when that
    /// divisor is 1, leaves it as it is.
    pub fn reduce_coefficients_if_above(&mut self, threshold: i64)
        requires
            no_min_coeff(sv(*old(self))),
        ensures
            ({
                let cs = coeffs_of(sv(*old(self)));
                let g = gcd_upto(cs, cs.len() as int).0;
                if max_abs_upto(cs, cs.len() as int) <= threshold || g == 1 {
                    sv(*final(self)) == sv(*old(self))
                } else {
                    sv(*final(self)) == cleaned(leaf_div(sv(*old(self)), g as int))
                }
            }),
    {
        let cs = self.coefficients();
        let ghost cv = ints(cs@);
        let mut max_abs_coeff: i64 = 0;
        let mut i: usize = 0;
        while i < cs.len()
            invariant
                cv == ints(cs@),
                cv == coeffs_of(sv(*self)),
                no_min_coeff(sv(*self)),
                i <= cs@.len(),
                max_abs_coeff as int == max_abs_upto(cv, i as int),
            decreases cs@.len() - i,
        {
            let x = cs[i];
            assert(cv[i as int] == x as int);
            let a: i64 = if x < 0 { -x } else { x };
            if a > max_abs_coeff {
                max_abs_coeff = a;
            }
            i = i + 1;
        }
        if max_abs_coeff <= threshold {
            return;
        }
        let mut g: u64 = 1;
        let mut first = true;
        let mut j: usize = 0;
        while j < cs.len()
            invariant
                cv == ints(cs@),
                cv == coeffs_of(sv(*self)),
                no_min_coeff(sv(*self)),
                j <= cs@.len(),
                (g as nat, first) == gcd_upto(cv, j as int),
            decreases cs@.len() - j,
        {
            let x = cs[j];
            assert(cv[j as int] == x as int);
            if x != 0 {
                let a: u64 = if x < 0 { (-x) as u64 } else { x as u64 };
                if first {
                    g = a;
                    first = false;
                } else {
                    g = gcd_u64(g, a);
                }
            }
            j = j + 1;
        }
        if g == 1 {
            return;
        }
        proof {
            assert(g > 0) by {
                lemma_gcd_upto_pos(cv, j as int);
            }
        }
        let mut r = self.divided_poly(g);
        r.cleanup();
        *self = r;
    }

    /// Reduces the constants when one of them is above 10000 in absolute value
    /// (see `reduce_coefficients_if_above`).
    pub fn reduce_coefficients_if_large(&mut self)
        requires
            no_min_coeff(sv(*old(self))),
        ensures
            ({
                let cs = coeffs_of(sv(*old(self)));
                let g = gcd_upto(cs, cs.len() as int).0;
                if max_abs_upto(cs, cs.len() as int) <= 10000 || g == 1 {
                    sv(*final(self)) == sv(*old(self))
                } else {
                    sv(*final(self)) == cleaned(leaf_div(sv(*old(self)), g as int))
                }
            }),
    {
        self.reduce_coefficients_if_above(10000);
    }
}

/// The greatest common divisor of two numbers that are not both zero is positive.
proof fn lemma_gcd_pos(a: nat, b: nat)
    requires
        a > 0 || b > 0,
    ensures
        gcd_spec(a, b) > 0,
    decreases b,
{
    if b > 0 {
        lemma_gcd_pos(b, a % b);
    }
}

/// The common divisor of a list of integers is positive.
proof fn lemma_gcd_upto_pos(cs: Seq<int>, n: int)
    ensures
        gcd_upto(cs, n).0 > 0,
    decreases n,
{
    if n > 0 {
        lemma_gcd_upto_pos(cs, n - 1);
        let c = cs[n - 1];
        let a: nat = (if c < 0 { -c } else { c }) as nat;
        if c != 0 && !gcd_upto(cs, n - 1).1 {
            lemma_gcd_pos(gcd_upto(cs, n - 1).0, a);
        }
    }
}

} // verus!

verus! {

/// The variable of least degree that `get_min_degree_var` reports.
#[derive(Debug, Clone, PartialEq, Eq)]
pub struct VarSearchResult {
    /// The variable index with minimum degree
    pub var: u8,
    /// The minimum degree of this variable across all polynomials
    pub min_degree: u32,
    /// The index of the polynomial that contains this variable with the minimum degree
    pub poly_index: usize,
}

/// The trees of a list of shared polynomials.
pub open spec fn trees(ps: Seq<Rc<Poly>>) -> Seq<SPoly> {
    Seq::new(ps.len(), |i: int| sv(*ps[i]))
}

/// Among `ps[..n]`, the least positive degree of `u` below `u32::MAX` and the
/// first polynomial that has it; `(u32::MAX, 0)` when there is none.
pub open spec fn least_degree_upto(ps: Seq<SPoly>, u: u8, n: int) -> (int, int)
    decreases n,
{
    if n <= 0 {
        (u32::MAX as int, 0)
    } else {
        let (m, k) = least_degree_upto(ps, u, n - 1);
        let d = degree_in(ps[n - 1], u);
        if d > 0 && d < m {
            (d, n - 1)
        } else {
            (m, k)
        }
    }
}

/// Some polynomial mentions variable `u`.
pub open spec fn any_mentions(ps: Seq<SPoly>, u: int) -> bool {
    exists|i: int| 0 <= i < ps.len() && mentions(#[trigger] ps[i], u)
}

/// Over the variables below `n` that some polynomial mentions, other than
/// `x` and `y`: the least degree, the first variable that has it and the
/// polynomial that has it there; the degree stays `u32::MAX` while there is none.
pub open spec fn least_var_upto(ps: Seq<SPoly>, x: u8, y: u8, n: int) -> (int, int, int)
    decreases n,
{
    if n <= 0 {
        (u32::MAX as int, 0, 0)
    } else {
        let (m, v, k) = least_var_upto(ps, x, y, n - 1);
        let u = n - 1;
        if any_mentions(ps, u) && u != x && u != y {
            let (d, i) = least_degree_upto(ps, u as u8, ps.len() as int);
            if d < u32::MAX && d < m {
                (d, u, i)
            } else {
                (m, v, k)
            }
        } else {
            (m, v, k)
        }
    }
}

/// Least degrees stay within `u32`.
proof fn lemma_least_degree_range(ps: Seq<SPoly>, u: u8, n: int)
    ensures
        0 <= least_degree_upto(ps, u, n).0 <= u32::MAX,
        0 <= least_degree_upto(ps, u, n).1,
        n > 0 ==> least_degree_upto(ps, u, n).1 < n,
    decreases n,
{
    if n > 0 {
        lemma_least_degree_range(ps, u, n - 1);
    }
}

/// When a variable is found, its polynomial is one of the list.
pub proof fn lemma_least_var_index(ps: Seq<SPoly>, x: u8, y: u8, n: int)
    ensures
        least_var_upto(ps, x, y, n).0 < u32::MAX ==> 0 <= least_var_upto(ps, x, y, n).2 < ps.len(),
    decreases n,
{
    if n > 0 {
        lemma_least_var_index(ps, x, y, n - 1);
        let u = n - 1;
        if any_mentions(ps, u) && u != x && u != y {
            lemma_least_degree_range(ps, u as u8, ps.len() as int);
        }
    }
}

impl Poly {
    /// Of all variables that the polynomials mention, other than `x_var` and
    /// `y_var`, the one with the least positive degree in some polynomial,
    /// with that degree and the first polynomial that has it (see
    /// `least_var_upto`); `None` when there is no such variable.
    pub fn get_min_degree_var(polys: &[Rc<Poly>], x_var: u8, y_var: u8) -> (r: Option<VarSearchResult>)
        requires
            forall|i: int| 0 <= i < polys@.len() ==> degrees_fit(#[trigger] trees(polys@)[i]),
        ensures
            ({
                let (m, v, k) = least_var_upto(trees(polys@), x_var, y_var, 256);
                match r {
                    None => m == u32::MAX,
                    Some(res) => m < u32::MAX && res.var as int == v && res.min_degree as int == m
                        && res.poly_index as int == k,
                }
            }),
    {
        let ghost ps = trees(polys@);
        let mut all_vars = [false; 256];
        let mut i: usize = 0;
        while i < polys.len()
            invariant
                ps == trees(polys@),
                i <= polys@.len(),
                all_vars@.len() == 256,
                forall|u: int| 0 <= u < 256 ==> #[trigger] all_vars@[u] == exists|j: int|
                    0 <= j < i && mentions(#[trigger] ps[j], u),
            decreases polys@.len() - i,
        {
            let p: &Poly = &polys[i];
            assert(sv(*p) == ps[i as int]);
            p.fill_in_variables(&mut all_vars);
            proof {
                assert forall|u: int| 0 <= u < 256 implies #[trigger] all_vars@[u] == exists|j: int|
                    0 <= j < i + 1 && mentions(#[trigger] ps[j], u) by {
                    if mentions(ps[i as int], u) {
                        assert(exists|j: int| 0 <= j < i + 1 && mentions(#[trigger] ps[j], u));
                    }
                    if exists|j: int| 0 <= j < i + 1 && mentions(#[trigger] ps[j], u) {
                        let j = choose|j: int| 0 <= j < i + 1 && mentions(#[trigger] ps[j], u);
                        if j < i {
                            assert(exists|j: int| 0 <= j < i && mentions(#[trigger] ps[j], u));
                        }
                    }
                }
            }
            i = i + 1;
        }
        let mut min_degree: u32 = u32::MAX;
        let mut min_var: u8 = 0;
        let mut min_index: usize = 0;
        let mut u: usize = 0;
        while u < 256
            invariant
                ps == trees(polys@),
                forall|i: int| 0 <= i < polys@.len() ==> degrees_fit(#[trigger] trees(polys@)[i]),
                u <= 256,
                all_vars@.len() == 256,
                forall|w: int| 0 <= w < 256 ==> #[trigger] all_vars@[w] == any_mentions(ps, w),
                ({
                    let (m, v, k) = least_var_upto(ps, x_var, y_var, u as int);
                    min_degree as int == m && (m < u32::MAX ==> min_var as int == v && min_index as int == k)
                }),
            decreases 256 - u,
        {
            assert(all_vars@[u as int] == any_mentions(ps, u as int));
            if all_vars[u] && u != x_var as usize && u != y_var as usize {
                let mut cur_min: u32 = u32::MAX;
                let mut cur_index: usize = 0;
                let mut j: usize = 0;
                while j < polys.len()
                    invariant
                        ps == trees(polys@),
                        forall|i: int| 0 <= i < polys@.len() ==> degrees_fit(#[trigger] trees(polys@)[i]),
                        u < 256,
                        j <= polys@.len(),
                        (cur_min as int, cur_index as int) == least_degree_upto(ps, u as u8, j as int),
                    decreases polys@.len() - j,
                {
                    let p: &Poly = &polys[j];
                    assert(sv(*p) == ps[j as int]);
                    assert(degrees_fit(trees(polys@)[j as int]));
                    let d = p.get_degree(u as u8);
                    if d > 0 && d < cur_min {
                        cur_min = d;
                        cur_index = j;
                    }
                    j = j + 1;
                }
                if cur_min < u32::MAX && cur_min < min_degree {
                    min_degree = cur_min;
                    min_var = u as u8;
                    min_index = cur_index;
                }
            }
            u = u + 1;
        }
        if min_degree == u32::MAX {
            None
        } else {
            Some(VarSearchResult { var: min_var, min_degree, poly_index: min_index })
        }
    }
}

} // verus!

verus! {

/// Polynomial `i` mentions `x`, `y`, or a variable that a polynomial with an
/// index in `t` mentions.
pub open spec fn touches(ps: Seq<SPoly>, x: u8, y: u8, t: Set<int>, i: int) -> bool {
    exists|u: int|
        0 <= u < 256 && #[trigger] mentions(ps[i], u) && (u == x || u == y || exists|j: int|
            0 <= j < ps.len() && t.contains(j) && #[trigger] mentions(ps[j], u))
}

/// Every polynomial that touches `t` has its index in `t`.
pub open spec fn closed_under_touch(ps: Seq<SPoly>, x: u8, y: u8, t: Set<int>) -> bool {
    forall|i: int| 0 <= i < ps.len() && #[trigger] touches(ps, x, y, t, i) ==> t.contains(i)
}

/// The indices `i` with `keep[i]`.
pub open spec fn kept_set(keep: Seq<bool>) -> Set<int> {
    Set::new(|i: int| 0 <= i < keep.len() && keep[i])
}

/// The entries of `ps[..n]` whose flag in `keep` is set, in order.
pub open spec fn select<T>(ps: Seq<T>, keep: Seq<bool>, n: int) -> Seq<T>
    decreases n,
{
    if n <= 0 {
        seq![]
    } else if keep[n - 1] {
        select(ps, keep, n - 1).push(ps[n - 1])
    } else {
        select(ps, keep, n - 1)
    }
}

impl Poly {
    /// The polynomials that bear on the variables `x_var` and `y_var`: the
    /// least set that holds every polynomial mentioning `x_var`, `y_var`, or a
    /// variable that a polynomial of the set mentions; in their order.
    pub fn retain_relevant_polys(polys: Vec<Rc<Poly>>, x_var: u8, y_var: u8) -> (r: Vec<Rc<Poly>>)
        ensures
            exists|keep: Seq<bool>|
                {
                    &&& keep.len() == polys@.len()
                    &&& r@ == select(polys@, keep, keep.len() as int)
                    &&& closed_under_touch(trees(polys@), x_var, y_var, kept_set(keep))
                    &&& forall|t: Set<int>| #[trigger]
                        closed_under_touch(trees(polys@), x_var, y_var, t) ==> kept_set(keep).subset_of(t)
                },
    {
        let ghost ps = trees(polys@);
        let n = polys.len();
        let mut used: Vec<[bool; 256]> = Vec::new();
        let mut i: usize = 0;
        while i < n
            invariant
                ps == trees(polys@),
                n == polys@.len(),
                i <= n,
                used@.len() == i,
                forall|k: int, u: int| 0 <= k < i && 0 <= u < 256 ==> #[trigger] used@[k]@[u] == mentions(ps[k], u),
            decreases n - i,
        {
            let mut vars = [false; 256];
            let p: &Poly = &polys[i];
            assert(sv(*p) == ps[i as int]);
            p.fill_in_variables(&mut vars);
            used.push(vars);
            i = i + 1;
        }
        let mut needed: Vec<bool> = Vec::new();
        let mut k: usize = 0;
        while k < n
            invariant
                k <= n,
                needed@.len() == k,
                forall|j: int| 0 <= j < k ==> !#[trigger] needed@[j],
            decreases n - k,
        {
            needed.push(false);
            k = k + 1;
        }
        let mut vneed = [false; 256];
        vneed.set(x_var as usize, true);
        vneed.set(y_var as usize, true);
        let ghost mut marked: int = 0;
        let mut done = false;
        proof {
            assert forall|t: Set<int>| #[trigger] closed_under_touch(ps, x_var, y_var, t) implies kept_set(needed@).subset_of(t) by {}
            assert forall|u: int| 0 <= u < 256 implies #[trigger] vneed@[u] == (u == x_var || u == y_var || exists|j: int|
                0 <= j < n && needed@[j] && mentions(#[trigger] ps[j], u)) by {}
            assert(kept_set(needed@).len() == 0) by {
                assert(kept_set(needed@) =~= Set::<int>::empty());
            }
        }
        while !done
            invariant
                ps == trees(polys@),
                n == polys@.len(),
                used@.len() == n,
                forall|k: int, u: int| 0 <= k < n && 0 <= u < 256 ==> #[trigger] used@[k]@[u] == mentions(ps[k], u),
                needed@.len() == n,
                vneed@.len() == 256,
                forall|u: int| 0 <= u < 256 ==> #[trigger] vneed@[u] == (u == x_var || u == y_var || exists|j: int|
                    0 <= j < n && needed@[j] && mentions(#[trigger] ps[j], u)),
                forall|t: Set<int>| #[trigger] closed_under_touch(ps, x_var, y_var, t) ==> kept_set(needed@).subset_of(t),
                kept_set(needed@).finite(),
                marked == kept_set(needed@).len(),
                0 <= marked <= n,
                done ==> closed_under_touch(ps, x_var, y_var, kept_set(needed@)),
            decreases n - marked + (if done { 0int } else { 1int }),
        {
            let mut found: Option<usize> = None;
            let mut q: usize = 0;
            while q < n && found.is_none()
                invariant
                    q <= n,
                    used@.len() == n,
                    needed@.len() == n,
                    vneed@.len() == 256,
                    found matches Some(f) ==> f < n && !needed@[f as int] && exists|u: int|
                        0 <= u < 256 && #[trigger] used@[f as int]@[u] && vneed@[u],
                    found is None ==> forall|j: int, u: int|
                        0 <= j < q && 0 <= u < 256 && !needed@[j] ==> !(#[trigger] used@[j]@[u] && vneed@[u]),
                decreases n - q,
            {
                if !needed[q] {
                    let mut u: usize = 0;
                    let mut hit = false;
                    while u < 256 && !hit
                        invariant
                            u <= 256,
                            q < n,
                            used@.len() == n,
                            vneed@.len() == 256,
                            hit ==> exists|w: int| 0 <= w < 256 && #[trigger] used@[q as int]@[w] && vneed@[w],
                            !hit ==> forall|w: int| 0 <= w < u ==> !(#[trigger] used@[q as int]@[w] && vneed@[w]),
                        decreases 256 - u,
                    {
                        if used[q][u] && vneed[u] {
                            hit = true;
                        }
                        u = u + 1;
                    }
                    if hit {
                        found = Some(q);
                    }
                }
                q = q + 1;
            }
            match found {
                None => {
                    proof {
                        let s = kept_set(needed@);
                        assert forall|i: int| 0 <= i < ps.len() && #[trigger] touches(ps, x_var, y_var, s, i) implies s.contains(
                            i,
                        ) by {
                            let u = choose|u: int|
                                0 <= u < 256 && #[trigger] mentions(ps[i], u) && (u == x_var || u == y_var || exists|j: int|
                                    0 <= j < ps.len() && s.contains(j) && #[trigger] mentions(ps[j], u));
                            assert(used@[i]@[u]);
                            assert(vneed@[u]);
                            if !needed@[i] {
                                assert(!(used@[i]@[u] && vneed@[u]));
                            }
                        }
                    }
                    done = true;
                },
                Some(f) => {
                    let ghost old_needed = needed@;
                    let ghost old_vneed = vneed@;
                    needed.set(f, true);
                    let mut u: usize = 0;
                    while u < 256
                        invariant
                            u <= 256,
                            f < n,
                            used@.len() == n,
                            vneed@.len() == 256,
                            forall|w: int| 0 <= w < u ==> #[trigger] vneed@[w] == (old_vneed[w] || used@[f as int]@[w]),
                            forall|w: int| u <= w < 256 ==> #[trigger] vneed@[w] == old_vneed[w],
                        decreases 256 - u,
                    {
                        let b = vneed[u] || used[f][u];
                        vneed.set(u, b);
                        u = u + 1;
                    }
                    proof {
                        let s0 = kept_set(old_needed);
                        let s1 = kept_set(needed@);
                        assert(s1 =~= s0.insert(f as int));
                        assert(!s0.contains(f as int));
                        assert forall|t: Set<int>| #[trigger] closed_under_touch(ps, x_var, y_var, t) implies s1.subset_of(t) by {
                            assert(s0.subset_of(t));
                            let u = choose|u: int| 0 <= u < 256 && #[trigger] used@[f as int]@[u] && old_vneed[u];
                            assert(mentions(ps[f as int], u));
                            if u != x_var && u != y_var {
                                let j = choose|j: int| 0 <= j < n && old_needed[j] && mentions(#[trigger] ps[j], u);
                                assert(t.contains(j));
                            }
                            assert(touches(ps, x_var, y_var, t, f as int));
                        }
                        assert forall|w: int| 0 <= w < 256 implies #[trigger] vneed@[w] == (w == x_var || w == y_var || exists|j: int|
                            0 <= j < n && needed@[j] && mentions(#[trigger] ps[j], w)) by {
                            if exists|j: int| 0 <= j < n && needed@[j] && mentions(#[trigger] ps[j], w) {
                                let j = choose|j: int| 0 <= j < n && needed@[j] && mentions(#[trigger] ps[j], w);
                                if j != f {
                                    assert(old_needed[j]);
                                }
                            }
                            if used@[f as int]@[w] {
                                assert(needed@[f as int] && mentions(ps[f as int], w));
                            }
                            if old_vneed[w] && w != x_var && w != y_var {
                                let j = choose|j: int| 0 <= j < n && old_needed[j] && mentions(#[trigger] ps[j], w);
                                assert(needed@[j]);
                            }
                        }
                        marked = marked + 1;
                        vstd::set_lib::lemma_int_range(0, n as int);
                        assert(s1.subset_of(vstd::set_lib::set_int_range(0, n as int)));
                        vstd::set_lib::lemma_len_subset(s1, vstd::set_lib::set_int_range(0, n as int));
                    }
                },
            }
        }
        let mut r: Vec<Rc<Poly>> = Vec::new();
        let mut z: usize = 0;
        while z < n
            invariant
                z <= n,
                n == polys@.len(),
                needed@.len() == n,
                r@ == select(polys@, needed@, z as int),
            decreases n - z,
        {
            if needed[z] {
                r.push(Rc::clone(&polys[z]));
            }
            z = z + 1;
        }
        r
    }
}

} // verus!

verus! {

broadcast use vstd::std_specs::hash::group_hash_axioms;

/// The residue that `ModularPoly::from_i64` gives for `c`.
pub open spec fn residue(c: int, p: int) -> int {
    if c < 0 {
        p - ((-c) % p)
    } else {
        c % p
    }
}

/// The coefficients of the sum of two polynomials modulo `p` (as `ModularPoly::add` gives them).
pub open spec fn mp_add(a: Seq<u64>, b: Seq<u64>, p: int) -> Seq<u64> {
    trim(add_seq(a, b, p))
}

/// The coefficients of the product of two polynomials modulo `p` (as `ModularPoly::mul` gives them).
pub open spec fn mp_mul(a: Seq<u64>, b: Seq<u64>, p: int) -> Seq<u64> {
    if seq_is_zero(a) || seq_is_zero(b) {
        seq![0u64]
    } else {
        trim(mul_seq(a, b, p))
    }
}

/// The message for a coefficient at degree `i` of variable `v` that is not a
/// multiple of `d`.
pub open spec fn degree_message(i: int, v: u8, d: u8) -> Seq<char> {
    "Non-zero coefficient for degree "@ + decimal(i as nat) + " of "@ + decimal(v as nat)
        + " found; only degrees divisible by "@ + decimal(d as nat) + " can be substituted"@
}

/// The message when a product would be too long to hold.
pub open spec fn too_long_message() -> Seq<char> {
    "polynomial too long"@
}

/// The substitution of the variables of a tree: each variable `v` stands
/// for `t^d`, where `m[v] == (q, d)` and `q(t)` is `t^d` written as a
/// polynomial modulo `p`; a constant becomes its residue.
pub open spec fn subst(s: SPoly, m: Map<u8, (ModularPoly, u8)>, p: int) -> Result<Seq<u64>, Seq<char>>
    decreases s, 0int,
{
    match s {
        SPoly::Constant(c) => Ok(seq![(residue(c, p) % p) as u64]),
        SPoly::Nested(v, cs) => match subst_upto(cs, v, m, p, cs.len() as int) {
            Ok((res, _)) => Ok(res),
            Err(e) => Err(e),
        },
    }
}

/// The substitution of the first `n` coefficients of a node in `v`: their sum
/// so far and the power of `m[v].0` for the next coefficient whose degree is a
/// multiple of `m[v].1`.
pub open spec fn subst_upto(cs: Seq<SPoly>, v: u8, m: Map<u8, (ModularPoly, u8)>, p: int, n: int) -> Result<
    (Seq<u64>, Seq<u64>),
    Seq<char>,
>
    decreases cs, n,
{
    if n <= 0 || n > cs.len() {
        Ok((seq![0u64], seq![(1int % p) as u64]))
    } else {
        match subst_upto(cs, v, m, p, n - 1) {
            Err(e) => Err(e),
            Ok((res, pow)) => {
                let i = n - 1;
                let d = m[v].1;
                if i % (d as int) != 0 && !is_zero(cs[i]) {
                    Err(degree_message(i, v, d))
                } else {
                    match subst(cs[i], m, p) {
                        Err(e) => Err(e),
                        Ok(cr) => {
                            let q = m[v].0.coeffs@;
                            if cr.len() + pow.len() > usize::MAX || pow.len() + q.len() > usize::MAX {
                                Err(too_long_message())
                            } else {
                                let res2 = mp_add(res, mp_mul(cr, pow, p), p);
                                let pow2 = if i % (d as int) == 0 { mp_mul(pow, q, p) } else { pow };
                                Ok((res2, pow2))
                            }
                        },
                    }
                }
            },
        }
    }
}

/// An error in the substitution of the first coefficients stays the error.
proof fn lemma_subst_err(cs: Seq<SPoly>, v: u8, m: Map<u8, (ModularPoly, u8)>, p: int, j: int, n: int)
    requires
        0 < j <= n <= cs.len(),
        subst_upto(cs, v, m, p, j) is Err,
    ensures
        subst_upto(cs, v, m, p, n) == subst_upto(cs, v, m, p, j),
    decreases n - j,
{
    if n > j {
        lemma_subst_err(cs, v, m, p, j, n - 1);
    }
}

/// The map is fit for substitution with modulus `p`: every value a
/// well-formed polynomial modulo `p` with a positive degree.
pub open spec fn subst_map_ok(m: Map<u8, (ModularPoly, u8)>, p: int) -> bool {
    &&& p > 0
    &&& forall|k: u8| #[trigger] m.contains_key(k) ==> m[k].0.p == p && m[k].0.wf() && m[k].1 > 0
}

/// Every variable of the tree has an entry in the map.
pub open spec fn vars_in_map(s: SPoly, m: Map<u8, (ModularPoly, u8)>) -> bool {
    forall|u: int| 0 <= u < 256 && #[trigger] mentions(s, u) ==> m.contains_key(u as u8)
}

/// Appends a message and a number.
fn push_msg_num(s: &mut String, m: &str, n: u64)
    ensures
        final(s)@ == old(s)@ + m@ + decimal(n as nat),
{
    push_str(s, m);
    push_decimal(s, n);
}

impl Poly {
    fn subst_rec(&self, var_polys: &HashMap<u8, (ModularPoly, u8)>, p: u64) -> (r: Result<ModularPoly, String>)
        requires
            subst_map_ok(var_polys@, p as int),
            vars_in_map(sv(*self), var_polys@),
            bounded(sv(*self), i64::MAX as int),
        ensures
            match r {
                Ok(mp) => mp.p == p && mp.wf() && subst(sv(*self), var_polys@, p as int) == Ok::<Seq<u64>, Seq<char>>(
                    mp.coeffs@,
                ),
                Err(e) => subst(sv(*self), var_polys@, p as int) == Err::<Seq<u64>, Seq<char>>(e@),
            },
        decreases size(sv(*self)),
    {
        match self {
            Poly::Constant(c) => {
                let x = ModularPoly::from_i64(*c, p);
                Ok(ModularPoly::constant(x, p))
            },
            Poly::Nested(v, coeffs) => {
                let ghost kids = sv_kids(coeffs@);
                assert(mentions(sv(*self), *v as int));
                let entry = var_polys.get(v);
                let (var_poly, degree) = match entry {
                    Some(e) => (&e.0, e.1),
                    None => {
                        return Err(String::new());
                    },
                };
                let mut result = ModularPoly::zero(p);
                let mut power = ModularPoly::constant(1, p);
                let mut i: usize = 0;
                proof {
                    assert(subst_upto(kids, *v, var_polys@, p as int, 0) == Ok::<(Seq<u64>, Seq<u64>), Seq<char>>(
                        (result.coeffs@, power.coeffs@),
                    ));
                }
                while i < coeffs.len()
                    invariant
                        *self == Poly::Nested(*v, *coeffs),
                        kids == sv_kids(coeffs@),
                        subst_map_ok(var_polys@, p as int),
                        vars_in_map(sv(*self), var_polys@),
                        bounded(sv(*self), i64::MAX as int),
                        var_polys@.contains_key(*v),
                        *var_poly == var_polys@[*v].0,
                        degree == var_polys@[*v].1,
                        i <= coeffs@.len(),
                        result.p == p,
                        power.p == p,
                        result.wf(),
                        power.wf(),
                        subst_upto(kids, *v, var_polys@, p as int, i as int) == Ok::<(Seq<u64>, Seq<u64>), Seq<char>>(
                            (result.coeffs@, power.coeffs@),
                        ),
                    decreases coeffs@.len() - i,
                {
                    proof {
                        lemma_kid_smaller(*self, i as int);
                    }
                    let child: &Poly = &coeffs[i];
                    if i % (degree as usize) != 0 && !child.is_zero_poly() {
                        let mut msg = String::new();
                        push_msg_num(&mut msg, "Non-zero coefficient for degree ", i as u64);
                        push_msg_num(&mut msg, " of ", *v as u64);
                        push_msg_num(&mut msg, " found; only degrees divisible by ", degree as u64);
                        push_str(&mut msg, " can be substituted");
                        assert(msg@ =~= degree_message(i as int, *v, degree));
                        proof {
                            lemma_subst_err(kids, *v, var_polys@, p as int, i as int + 1, kids.len() as int);
                        }
                        return Err(msg);
                    }
                    proof {
                        assert(bounded(kids[i as int], i64::MAX as int));
                        assert forall|u: int| 0 <= u < 256 && #[trigger] mentions(sv(*child), u) implies var_polys@.contains_key(
                            u as u8,
                        ) by {
                            assert(mentions(sv(*self), u));
                        }
                    }
                    let sub = child.subst_rec(var_polys, p);
                    match sub {
                        Err(e) => {
                            proof {
                                lemma_subst_err(kids, *v, var_polys@, p as int, i as int + 1, kids.len() as int);
                            }
                            return Err(e);
                        },
                        Ok(coeff_result) => {
                            if coeff_result.coeffs.len() > usize::MAX - power.coeffs.len() || power.coeffs.len()
                                > usize::MAX - var_poly.coeffs.len() {
                                proof {
                                    lemma_subst_err(kids, *v, var_polys@, p as int, i as int + 1, kids.len() as int);
                                }
                                return Err(String::from_str("polynomial too long"));
                            }
                            let term = coeff_result.mul(&power);
                            result = result.add(&term);
                            if i % (degree as usize) == 0 {
                                power = power.mul(var_poly);
                            }
                        },
                    }
                    i = i + 1;
                }
                Ok(result)
            },
        }
    }
}


/// The modulus of the polynomials in a map that is not empty.
pub open spec fn map_modulus(m: Map<u8, (ModularPoly, u8)>) -> u64 {
    m[choose|k: u8| m.contains_key(k)].0.p
}

/// The map is not empty, and its polynomials are well formed with one positive
/// modulus and positive degrees.
pub open spec fn subst_map_uniform(m: Map<u8, (ModularPoly, u8)>) -> bool {
    &&& exists|k: u8| m.contains_key(k)
    &&& forall|k1: u8, k2: u8| #[trigger] m.contains_key(k1) && #[trigger] m.contains_key(k2) ==> m[k1].0.p == m[k2].0.p
    &&& forall|k: u8| #[trigger] m.contains_key(k) ==> m[k].0.wf() && m[k].1 > 0
}

impl Poly {
    /// Substitutes each variable `v`, where `var_polys[v] == (q, d)`, by
    /// `t^d`, written as the polynomial `q(t)` modulo the map's prime: a
    /// coefficient at a degree of `v` that is not a multiple of `d` must be
    /// zero (see `subst`).
    pub fn substitute_modular_polys(&self, var_polys: &HashMap<u8, (ModularPoly, u8)>) -> (r: Result<ModularPoly, String>)
        requires
            subst_map_uniform(var_polys@),
            vars_in_map(sv(*self), var_polys@),
            bounded(sv(*self), i64::MAX as int),
        ensures
            match r {
                Ok(mp) => mp.p == map_modulus(var_polys@) && mp.wf() && subst(
                    sv(*self),
                    var_polys@,
                    map_modulus(var_polys@) as int,
                ) == Ok::<Seq<u64>, Seq<char>>(mp.coeffs@),
                Err(e) => subst(sv(*self), var_polys@, map_modulus(var_polys@) as int) == Err::<Seq<u64>, Seq<char>>(
                    e@,
                ),
            },
    {
        let ghost m = var_polys@;
        let ghost k0 = choose|k: u8| m.contains_key(k);
        let mut p: u64 = 0;
        let mut found = false;
        let mut k: usize = 0;
        while k < 256 && !found
            invariant
                m == var_polys@,
                subst_map_uniform(m),
                m.contains_key(k0),
                k <= 256,
                found ==> p == m[k0].0.p,
                !found ==> forall|j: u8| (j as int) < k ==> !m.contains_key(j),
            decreases 256 - k,
        {
            let key: u8 = k as u8;
            match var_polys.get(&key) {
                Some(e) => {
                    p = e.0.p;
                    found = true;
                },
                None => {},
            }
            k = k + 1;
        }
        if !found {
            assert(!m.contains_key(k0));
            return Err(String::new());
        }
        assert(p > 0);
        assert(subst_map_ok(m, p as int));
        self.subst_rec(var_polys, p)
    }
}

} // verus!
