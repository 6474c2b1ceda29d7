//! How the degree of a tree in a variable behaves under the operations that
//! build new trees: scaling keeps it, normalising does not raise it, and a
//! split at `v^d` leaves a factor and a remainder of known degree.

use vstd::prelude::*;
use crate::spoly::{SPoly, ordered, above, above_eq, scaled, cleaned, cleaned_children, strip, is_zero, lemma_cleaned_above_eq};
use crate::poly_ops::{degree_in, degree_max, leaf_div, degrees_fit};
use crate::poly_struct::{split_at, split_map, firsts, seconds, lemma_degree_nonneg, lemma_degree_max_nonneg};
use crate::split_laws::lemma_split_shape;

verus! {

/// The larger of two integers.
pub open spec fn imax(x: int, y: int) -> int {
    if x >= y {
        x
    } else {
        y
    }
}

/// The largest of the degrees is at most a common bound of them.
pub proof fn lemma_dmax_le(cs: Seq<SPoly>, v: u8, n: int, m: int)
    requires
        0 <= n <= cs.len(),
        m >= 0,
        forall|i: int| 0 <= i < n ==> degree_in(#[trigger] cs[i], v) <= m,
    ensures
        degree_max(cs, v, n) <= m,
    decreases n,
{
    if n > 0 {
        lemma_dmax_le(cs, v, n - 1, m);
    }
}

/// Each degree is at most the largest.
pub proof fn lemma_dmax_ge(cs: Seq<SPoly>, v: u8, n: int, i: int)
    requires
        0 <= i < n <= cs.len(),
    ensures
        degree_in(cs[i], v) <= degree_max(cs, v, n),
    decreases n,
{
    if i < n - 1 {
        lemma_dmax_ge(cs, v, n - 1, i);
    }
}

/// Sequences with the same degrees have the same largest one.
pub proof fn lemma_dmax_eq(cs: Seq<SPoly>, ds: Seq<SPoly>, v: u8, n: int)
    requires
        0 <= n <= cs.len(),
        n <= ds.len(),
        forall|i: int| 0 <= i < n ==> degree_in(#[trigger] cs[i], v) == degree_in(ds[i], v),
    ensures
        degree_max(cs, v, n) == degree_max(ds, v, n),
    decreases n,
{
    if n > 0 {
        lemma_dmax_eq(cs, ds, v, n - 1);
    }
}

/// Scaling keeps every degree.
pub proof fn lemma_degree_scaled(s: SPoly, k: int, w: u8)
    ensures
        degree_in(scaled(s, k), w) == degree_in(s, w),
    decreases s,
{
    match s {
        SPoly::Constant(_) => {},
        SPoly::Nested(u, cs) => {
            let ds = scaled(s, k)->Nested_1;
            assert forall|i: int| 0 <= i < cs.len() implies degree_in(#[trigger] ds[i], w) == degree_in(cs[i], w) by {
                lemma_degree_scaled(cs[i], k, w);
            }
            lemma_dmax_eq(ds, cs, w, cs.len() as int);
        },
    }
}

/// Dividing every constant keeps every degree.
pub proof fn lemma_degree_leaf_div(s: SPoly, g: int, w: u8)
    ensures
        degree_in(leaf_div(s, g), w) == degree_in(s, w),
    decreases s,
{
    match s {
        SPoly::Constant(_) => {},
        SPoly::Nested(u, cs) => {
            let ds = leaf_div(s, g)->Nested_1;
            assert forall|i: int| 0 <= i < cs.len() implies degree_in(#[trigger] ds[i], w) == degree_in(cs[i], w) by {
                lemma_degree_leaf_div(cs[i], g, w);
            }
            lemma_dmax_eq(ds, cs, w, cs.len() as int);
        },
    }
}

/// Dropping trailing zeros leaves a prefix.
pub proof fn lemma_strip_prefix(cs: Seq<SPoly>)
    ensures
        strip(cs).len() <= cs.len(),
        forall|i: int| 0 <= i < strip(cs).len() ==> #[trigger] strip(cs)[i] == cs[i],
    decreases cs.len(),
{
    if cs.len() > 0 && is_zero(cs.last()) {
        lemma_strip_prefix(cs.drop_last());
    }
}

/// Normalising an ordered tree does not raise any degree.
pub proof fn lemma_degree_cleaned(s: SPoly, w: u8)
    requires
        ordered(s),
    ensures
        degree_in(cleaned(s), w) <= degree_in(s, w),
    decreases s,
{
    lemma_degree_nonneg(s, w);
    match s {
        SPoly::Constant(_) => {},
        SPoly::Nested(u, cs) => {
            let ds = cleaned_children(cs);
            let es = strip(ds);
            lemma_strip_prefix(ds);
            assert forall|i: int| 0 <= i < cs.len() implies degree_in(#[trigger] ds[i], w) <= degree_in(cs[i], w) by {
                lemma_degree_cleaned(cs[i], w);
            }
            if es.len() == 1 {
                assert(es[0] == ds[0]);
                if u >= w {
                    assert(above(cs[0], u));
                    lemma_cleaned_above_eq(cs[0], u);
                    assert(degree_in(cs[0], w) == 0);
                } else {
                    lemma_dmax_ge(cs, w, cs.len() as int, 0);
                }
            } else if es.len() >= 2 {
                if u < w {
                    let m = degree_max(cs, w, cs.len() as int);
                    assert forall|i: int| 0 <= i < es.len() implies degree_in(#[trigger] es[i], w) <= m by {
                        assert(es[i] == ds[i]);
                        lemma_dmax_ge(cs, w, cs.len() as int, i);
                    }
                    lemma_dmax_le(es, w, es.len() as int, m);
                }
            }
        },
    }
}

/// What `reduce_coefficients_if_large` does keeps the degrees from rising.
pub proof fn lemma_degree_large_reduced(t: SPoly, g: int, w: u8)
    requires
        ordered(leaf_div(t, g)),
    ensures
        degree_in(cleaned(leaf_div(t, g)), w) <= degree_in(t, w),
{
    lemma_degree_cleaned(leaf_div(t, g), w);
    lemma_degree_leaf_div(t, g, w);
}

/// The degree in `v` of the two parts of a split at `v^d`: the remainder
/// stays below `d` and below the degree of the tree, the factor has the
/// degree of the tree less `d`, or zero.
pub proof fn lemma_degree_split(s: SPoly, v: u8, d: int)
    requires
        ordered(s),
        d >= 1,
    ensures
        degree_in(split_at(s, v, d).1, v) <= d - 1,
        degree_in(split_at(s, v, d).1, v) <= degree_in(s, v),
        degree_in(split_at(s, v, d).0, v) <= imax(degree_in(s, v) - d, 0),
    decreases s,
{
    lemma_degree_nonneg(s, v);
    match s {
        SPoly::Constant(_) => {},
        SPoly::Nested(w, cs) => {
            if w < v {
                let ps = split_map(cs, v, d);
                let fs = firsts(ps);
                let rs = seconds(ps);
                let m = degree_max(cs, v, cs.len() as int);
                assert forall|j: int| 0 <= j < cs.len() implies ordered(#[trigger] fs[j]) && ordered(rs[j]) && above(fs[j], w)
                    && above(rs[j], w) && degree_in(fs[j], v) <= imax(m - d, 0) && degree_in(rs[j], v) <= d - 1
                    && degree_in(rs[j], v) <= m by {
                    assert(ps[j] == split_at(cs[j], v, d));
                    lemma_split_shape(cs[j], v, d);
                    assert(above(cs[j], w));
                    lemma_degree_split(cs[j], v, d);
                    lemma_dmax_ge(cs, v, cs.len() as int, j);
                }
                assert forall|j: int| 0 <= j < rs.len() implies degree_in(#[trigger] rs[j], v) <= d - 1 && degree_in(rs[j], v)
                    <= m && ordered(rs[j]) && above(rs[j], w) by {
                    assert(ordered(fs[j]));
                }
                lemma_degree_max_nonneg(cs, v, cs.len() as int);
                lemma_dmax_le(fs, v, fs.len() as int, imax(m - d, 0));
                lemma_dmax_le(rs, v, rs.len() as int, d - 1);
                lemma_dmax_le(rs, v, rs.len() as int, m);
                lemma_degree_cleaned(SPoly::Nested(w, fs), v);
                lemma_degree_cleaned(SPoly::Nested(w, rs), v);
            } else if w == v {
                let n: int = if d < cs.len() { d } else { cs.len() as int };
                let t = cs.take(n);
                assert forall|j: int| 0 <= j < t.len() implies above(#[trigger] t[j], w) && ordered(t[j]) by {
                    assert(t[j] == cs[j]);
                }
                lemma_degree_cleaned(SPoly::Nested(w, t), v);
                if d < cs.len() {
                    let k = cs.skip(d);
                    assert forall|j: int| 0 <= j < k.len() implies above(#[trigger] k[j], w) && ordered(k[j]) by {
                        assert(k[j] == cs[j + d]);
                    }
                    lemma_degree_cleaned(SPoly::Nested(w, k), v);
                }
            }
        },
    }
}


/// In each variable, `r` has no larger degree than the larger of `a` and `b`.
pub open spec fn sum_degrees(r: SPoly, a: SPoly, b: SPoly) -> bool {
    forall|w: u8| #[trigger] degree_in(r, w) <= imax(degree_in(a, w), degree_in(b, w))
}

/// In each variable, `r` has no larger degree than `a` and `b` together.
pub open spec fn product_degrees(r: SPoly, a: SPoly, b: SPoly) -> bool {
    forall|w: u8| #[trigger] degree_in(r, w) <= degree_in(a, w) + degree_in(b, w)
}

/// Normalising keeps the degree bound of a sum.
pub proof fn lemma_cleaned_sum_degrees(r0: SPoly, a: SPoly, b: SPoly)
    requires
        ordered(r0),
        sum_degrees(r0, a, b),
    ensures
        sum_degrees(cleaned(r0), a, b),
{
    assert forall|w: u8| #[trigger] degree_in(cleaned(r0), w) <= imax(degree_in(a, w), degree_in(b, w)) by {
        lemma_degree_cleaned(r0, w);
        assert(degree_in(r0, w) <= imax(degree_in(a, w), degree_in(b, w)));
    }
}

/// Normalising keeps the degree bound of a product.
pub proof fn lemma_cleaned_product_degrees(r0: SPoly, a: SPoly, b: SPoly)
    requires
        ordered(r0),
        product_degrees(r0, a, b),
    ensures
        product_degrees(cleaned(r0), a, b),
{
    assert forall|w: u8| #[trigger] degree_in(cleaned(r0), w) <= degree_in(a, w) + degree_in(b, w) by {
        lemma_degree_cleaned(r0, w);
        assert(degree_in(r0, w) <= degree_in(a, w) + degree_in(b, w));
    }
}


/// An ordered tree whose degrees all stay below `u32::MAX` has room for
/// every degree in a `u32`.
pub proof fn lemma_degrees_fit(s: SPoly)
    requires
        ordered(s),
        forall|w: u8| #[trigger] degree_in(s, w) < u32::MAX,
    ensures
        degrees_fit(s),
    decreases s,
{
    match s {
        SPoly::Constant(_) => {},
        SPoly::Nested(u, cs) => {
            assert(degree_in(s, u) < u32::MAX);
            assert forall|i: int| 0 <= i < cs.len() implies degrees_fit(#[trigger] cs[i]) by {
                assert forall|w: u8| #[trigger] degree_in(cs[i], w) < u32::MAX by {
                    assert(degree_in(s, w) < u32::MAX);
                    if w > u {
                        lemma_dmax_ge(cs, w, cs.len() as int, i);
                    }
                }
                lemma_degrees_fit(cs[i]);
            }
        },
    }
}

} // verus!
