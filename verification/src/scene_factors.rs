//! The factors of a curve: proportional factors count once, and the curve's
//! equation is the product of those that are left.

use vstd::prelude::*;
use crate::poly::{Poly, sv, sv_kids, lemma_kid_smaller, is_product, product_bound};
use crate::spoly::{SPoly, ordered, scaled, size, eval};
use crate::poly_ops::{coeffs_of, ints};

verus! {

/// Some non-zero multiples of the two trees are the same tree.
pub open spec fn proportional(s: SPoly, t: SPoly) -> bool {
    exists|a: int, b: int| a != 0 && b != 0 && #[trigger] scaled(s, a) == #[trigger] scaled(t, b)
}

/// Whether `ka` times `a` and `kb` times `b` are the same tree.
fn scaled_eq(a: &Poly, b: &Poly, ka: i64, kb: i64) -> (r: bool)
    ensures
        r == (scaled(sv(*a), ka as int) == scaled(sv(*b), kb as int)),
    decreases size(sv(*a)),
{
    match (a, b) {
        (Poly::Constant(c), Poly::Constant(d)) => {
            let c1 = *c as i128;
            let d1 = *d as i128;
            let ka1 = ka as i128;
            let kb1 = kb as i128;
            assert(-0x4000_0000_0000_0000_0000_0000_0000_0000 <= c1 * ka1 <= 0x4000_0000_0000_0000_0000_0000_0000_0000) by (nonlinear_arith)
                requires
                    -0x8000_0000_0000_0000 <= c1 <= 0x7fff_ffff_ffff_ffff,
                    -0x8000_0000_0000_0000 <= ka1 <= 0x7fff_ffff_ffff_ffff,
            ;
            assert(-0x4000_0000_0000_0000_0000_0000_0000_0000 <= d1 * kb1 <= 0x4000_0000_0000_0000_0000_0000_0000_0000) by (nonlinear_arith)
                requires
                    -0x8000_0000_0000_0000 <= d1 <= 0x7fff_ffff_ffff_ffff,
                    -0x8000_0000_0000_0000 <= kb1 <= 0x7fff_ffff_ffff_ffff,
            ;
            let x = c1 * ka1;
            let y = d1 * kb1;
            x == y
        },
        (Poly::Nested(v, cs), Poly::Nested(w, ds)) => {
            if *v != *w || cs.len() != ds.len() {
                proof {
                    if cs.len() != ds.len() {
                        assert(scaled(sv(*a), ka as int)->Nested_1.len() != scaled(sv(*b), kb as int)->Nested_1.len());
                    }
                }
                return false;
            }
            let ghost sa = scaled(sv(*a), ka as int)->Nested_1;
            let ghost sb = scaled(sv(*b), kb as int)->Nested_1;
            let ghost ks = sv_kids(cs@);
            let ghost ls = sv_kids(ds@);
            let mut i: usize = 0;
            while i < cs.len()
                invariant
                    *a == Poly::Nested(*v, *cs),
                    *b == Poly::Nested(*w, *ds),
                    *v == *w,
                    cs@.len() == ds@.len(),
                    ks == sv_kids(cs@),
                    ls == sv_kids(ds@),
                    sa == scaled(sv(*a), ka as int)->Nested_1,
                    sb == scaled(sv(*b), kb as int)->Nested_1,
                    i <= cs@.len(),
                    forall|q: int| 0 <= q < i ==> #[trigger] sa[q] == sb[q],
                decreases cs@.len() - i,
            {
                proof {
                    lemma_kid_smaller(*a, i as int);
                }
                let x: &Poly = &cs[i];
                let y: &Poly = &ds[i];
                assert(sa[i as int] == scaled(sv(*x), ka as int));
                assert(sb[i as int] == scaled(sv(*y), kb as int));
                if !scaled_eq(x, y, ka, kb) {
                    return false;
                }
                i = i + 1;
            }
            assert(sa =~= sb);
            true
        },
        (Poly::Constant(_), Poly::Nested(_, _)) => false,
        (Poly::Nested(_, _), Poly::Constant(_)) => false,
    }
}

/// The first non-zero entry of `s` from index `i` on, or 1 when there is none.
pub open spec fn nonzero_from(s: Seq<int>, i: int) -> int
    decreases s.len() - i,
{
    if i < 0 || i >= s.len() {
        1
    } else if s[i] != 0 {
        s[i]
    } else {
        nonzero_from(s, i + 1)
    }
}

/// The first non-zero constant of a tree, or 1 when every constant is zero.
pub open spec fn lead_constant(s: SPoly) -> int {
    nonzero_from(coeffs_of(s), 0)
}

/// The first non-zero constant, or 1 when every constant is zero.
fn first_nonzero(p: &Poly) -> (r: i64)
    ensures
        r == lead_constant(sv(*p)),
        r != 0,
{
    let cs = p.coefficients();
    let ghost s = ints(cs@);
    let mut i: usize = 0;
    while i < cs.len()
        invariant
            i <= cs@.len(),
            s == ints(cs@),
            s == coeffs_of(sv(*p)),
            nonzero_from(s, i as int) == nonzero_from(s, 0),
        decreases cs@.len() - i,
    {
        assert(s[i as int] == cs@[i as int] as int);
        if cs[i] != 0 {
            return cs[i];
        }
        i = i + 1;
    }
    1
}

impl Poly {
    /// Whether the polynomial is a non-zero multiple of `other` up to a
    /// non-zero factor: its constants times the first non-zero constant of
    /// `other` against those of `other` times its own first non-zero
    /// constant. `true` only when they are proportional (see
    /// `proportional`).
    pub fn is_proportional(&self, other: &Poly) -> (r: bool)
        ensures
            r == (scaled(sv(*self), lead_constant(sv(*other))) == scaled(sv(*other), lead_constant(sv(*self)))),
            r ==> proportional(sv(*self), sv(*other)),
    {
        let p0 = first_nonzero(self);
        let q0 = first_nonzero(other);
        let r = scaled_eq(self, other, q0, p0);
        proof {
            if r {
                assert(scaled(sv(*self), q0 as int) == scaled(sv(*other), p0 as int));
            }
        }
        r
    }
}

/// The product of the values of a list of trees.
pub open spec fn product_value(ps: Seq<SPoly>, env: spec_fn(u8) -> int) -> int
    decreases ps.len(),
{
    if ps.len() == 0 {
        1
    } else {
        product_value(ps.drop_last(), env) * eval(ps.last(), env)
    }
}

/// The trees of a list of polynomials.
pub open spec fn poly_trees(ps: Seq<Poly>) -> Seq<SPoly> {
    Seq::new(ps.len(), |i: int| sv(ps[i]))
}

/// Each of `ks` is one of the first `n` of `fs`.
pub open spec fn drawn_from(ks: Seq<SPoly>, fs: Seq<SPoly>, n: int) -> bool {
    forall|j: int| 0 <= j < ks.len() ==> exists|q: int| 0 <= q < n && #[trigger] ks[j] == #[trigger] fs[q]
}

/// Each of the first `n` of `fs` is one of `ks` or proportional to one.
pub open spec fn represented(fs: Seq<SPoly>, ks: Seq<SPoly>, n: int) -> bool {
    forall|q: int| 0 <= q < n ==> exists|j: int| 0 <= j < ks.len() && (#[trigger] fs[q] == #[trigger] ks[j]
        || proportional(fs[q], ks[j]))
}

/// The test of `is_proportional`: each tree times the other's first
/// non-zero constant gives the same tree.
pub open spec fn prop_test(s: SPoly, t: SPoly) -> bool {
    scaled(s, lead_constant(t)) == scaled(t, lead_constant(s))
}

/// Some tree that comes before passes the test with `f`.
pub open spec fn has_match(f: SPoly, ks: Seq<SPoly>) -> bool {
    exists|j: int| 0 <= j < ks.len() && prop_test(f, #[trigger] ks[j])
}

/// The first `n` trees of `fs`, each left out when it passes the test with
/// one kept before it.
pub open spec fn kept_factors(fs: Seq<SPoly>, n: int) -> Seq<SPoly>
    decreases n,
{
    if n <= 0 {
        Seq::empty()
    } else {
        let prev = kept_factors(fs, n - 1);
        if has_match(fs[n - 1], prev) {
            prev
        } else {
            prev.push(fs[n - 1])
        }
    }
}

/// `e` is an ordered tree worth the product of the first `m` trees of `ks`.
pub open spec fn partial_product(e: SPoly, ks: Seq<SPoly>, m: int) -> bool {
    ordered(e) && forall|env: spec_fn(u8) -> int| #[trigger] eval(e, env) == product_value(ks.take(m), env)
}

/// The factors, each dropped when it is proportional to one kept before
/// (see `is_proportional`), and the product of those kept (`1` when there
/// are none). `None` when the product's constants could leave an `i64`.
pub fn combine_factors(factors: Vec<Poly>) -> (r: Option<(Poly, Vec<Poly>)>)
    requires
        forall|i: int| 0 <= i < factors@.len() ==> ordered(#[trigger] poly_trees(factors@)[i]),
    ensures
        r matches Some((eq, kept)) ==> {
            &&& kept@.len() <= factors@.len()
            &&& drawn_from(poly_trees(kept@), poly_trees(factors@), factors@.len() as int)
            &&& represented(poly_trees(factors@), poly_trees(kept@), factors@.len() as int)
            &&& ordered(sv(eq))
            &&& forall|env: spec_fn(u8) -> int| #[trigger] eval(sv(eq), env) == product_value(poly_trees(kept@), env)
            &&& poly_trees(kept@) == kept_factors(poly_trees(factors@), factors@.len() as int)
        },
        r is None ==> exists|m: int, e: SPoly|
            0 <= m < kept_factors(poly_trees(factors@), factors@.len() as int).len() && #[trigger] partial_product(
                e,
                kept_factors(poly_trees(factors@), factors@.len() as int),
                m,
            ) && product_bound(e, kept_factors(poly_trees(factors@), factors@.len() as int)[m]) > i64::MAX,
{
    let ghost fs = poly_trees(factors@);
    let mut kept: Vec<Poly> = Vec::new();
    let mut i: usize = 0;
    while i < factors.len()
        invariant
            fs == poly_trees(factors@),
            forall|q: int| 0 <= q < factors@.len() ==> ordered(#[trigger] fs[q]),
            i <= factors@.len(),
            kept@.len() <= i,
            drawn_from(poly_trees(kept@), fs, i as int),
            represented(fs, poly_trees(kept@), i as int),
            poly_trees(kept@) == kept_factors(fs, i as int),
        decreases factors@.len() - i,
    {
        let f: &Poly = &factors[i];
        assert(fs[i as int] == sv(*f));
        let mut dup = false;
        let mut k: usize = 0;
        while k < kept.len()
            invariant_except_break
                !dup,
                forall|q: int| 0 <= q < k ==> !prop_test(sv(*f), #[trigger] poly_trees(kept@)[q]),
            invariant
                k <= kept@.len(),
            ensures
                dup ==> exists|j: int| 0 <= j < kept@.len() && proportional(sv(*f), #[trigger] poly_trees(kept@)[j]),
                dup ==> has_match(sv(*f), poly_trees(kept@)),
                !dup ==> !has_match(sv(*f), poly_trees(kept@)),
            decreases kept@.len() - k,
        {
            assert(poly_trees(kept@)[k as int] == sv(kept@[k as int]));
            if f.is_proportional(&kept[k]) {
                dup = true;
                break;
            }
            k = k + 1;
        }
        let ghost before = kept@;
        if !dup {
            kept.push(f.copy());
        }
        proof {
            let ks = poly_trees(kept@);
            let kb = poly_trees(before);
            if dup {
                assert(ks =~= kb);
            } else {
                assert(ks =~= kb.push(fs[i as int]));
            }
            assert(ks == kept_factors(fs, i + 1));
            assert forall|j: int| 0 <= j < ks.len() implies exists|q: int| 0 <= q < i + 1 && #[trigger] ks[j]
                == #[trigger] fs[q] by {
                if j < kb.len() {
                    assert(ks[j] == kb[j]);
                    let q = choose|q: int| 0 <= q < i && #[trigger] kb[j] == #[trigger] fs[q];
                    assert(ks[j] == fs[q]);
                } else {
                    assert(ks[j] == fs[i as int]);
                }
            }
            assert forall|q: int| 0 <= q < i + 1 implies exists|j: int| 0 <= j < ks.len() && (#[trigger] fs[q]
                == #[trigger] ks[j] || proportional(fs[q], ks[j])) by {
                if q < i {
                    let j = choose|j: int| 0 <= j < kb.len() && (#[trigger] fs[q] == #[trigger] kb[j] || proportional(
                        fs[q],
                        kb[j],
                    ));
                    assert(ks[j] == kb[j]);
                } else if dup {
                    let j = choose|j: int| 0 <= j < before.len() && proportional(sv(*f), #[trigger] poly_trees(before)[j]);
                    assert(ks[j] == kb[j]);
                } else {
                    assert(ks[kb.len() as int] == fs[i as int]);
                }
            }
        }
        i = i + 1;
    }
    assert(i == factors@.len());
    let mut eq = Poly::Constant(1);
    let mut m: usize = 0;
    while m < kept.len()
        invariant
            m <= kept@.len(),
            fs == poly_trees(factors@),
            kept@.len() <= factors@.len(),
            drawn_from(poly_trees(kept@), fs, factors@.len() as int),
            represented(fs, poly_trees(kept@), factors@.len() as int),
            ordered(sv(eq)),
            forall|q: int| 0 <= q < kept@.len() ==> ordered(#[trigger] poly_trees(kept@)[q]),
            forall|env: spec_fn(u8) -> int| #[trigger] eval(sv(eq), env) == product_value(
                poly_trees(kept@).take(m as int),
                env,
            ),
            poly_trees(kept@) == kept_factors(fs, factors@.len() as int),
        decreases kept@.len() - m,
    {
        let g: &Poly = &kept[m];
        assert(poly_trees(kept@)[m as int] == sv(*g));
        let next = match eq.try_multiply(g) {
            Some(p) => p,
            None => {
                proof {
                    assert(partial_product(sv(eq), poly_trees(kept@), m as int));
                }
                return None;
            },
        };
        proof {
            let ts = poly_trees(kept@);
            assert(ts.take(m as int + 1).drop_last() =~= ts.take(m as int));
            assert forall|env: spec_fn(u8) -> int| #[trigger] eval(sv(next), env) == product_value(
                ts.take(m as int + 1),
                env,
            ) by {
                assert(eval(sv(next), env) == eval(sv(eq), env) * eval(sv(*g), env));
            }
        }
        eq = next;
        m = m + 1;
    }
    proof {
        assert(poly_trees(kept@).take(m as int) =~= poly_trees(kept@));
    }
    Some((eq, kept))
}

} // verus!
