//! The mathematical model of polynomials: trees of integer coefficients
//! together with their value, shape and bounds, and the facts about them
//! that the polynomial operations rely on.

use vstd::prelude::*;
use vstd::arithmetic::power::pow;

verus! {

/// A polynomial as a tree: `Constant(c)` is `c`; `Nested(v, cs)` is
/// `cs[0] + cs[1]*v + cs[2]*v^2 + ...`.
pub enum SPoly {
    Constant(int),
    Nested(u8, Seq<SPoly>),
}

/// The value of a polynomial when every variable `v` is given the value `env(v)`.
pub open spec fn eval(s: SPoly, env: spec_fn(u8) -> int) -> int
    decreases s, 0int,
{
    match s {
        SPoly::Constant(c) => c,
        SPoly::Nested(v, cs) => eval_from(cs, v, env, 0),
    }
}

/// `cs[i] + cs[i+1]*x + cs[i+2]*x^2 + ...` with `x = env(v)`.
pub open spec fn eval_from(cs: Seq<SPoly>, v: u8, env: spec_fn(u8) -> int, i: int) -> int
    decreases cs, cs.len() - i,
{
    if 0 <= i < cs.len() {
        eval(cs[i], env) + env(v) * eval_from(cs, v, env, i + 1)
    } else {
        0
    }
}

/// The value of coefficient `j`, zero outside the sequence.
pub open spec fn eval_at(cs: Seq<SPoly>, j: int, env: spec_fn(u8) -> int) -> int {
    if 0 <= j < cs.len() {
        eval(cs[j], env)
    } else {
        0
    }
}

/// The polynomial has its top variable above `v` (or is a constant).
pub open spec fn above(s: SPoly, v: u8) -> bool {
    match s {
        SPoly::Constant(_) => true,
        SPoly::Nested(w, _) => w > v,
    }
}

/// The zero constant.
pub open spec fn is_zero(s: SPoly) -> bool {
    s == SPoly::Constant(0)
}

/// Variables strictly increase from a node to its coefficients, and every
/// node has at least one coefficient.
pub open spec fn ordered(s: SPoly) -> bool
    decreases s,
{
    match s {
        SPoly::Constant(_) => true,
        SPoly::Nested(v, cs) => {
            &&& cs.len() >= 1
            &&& forall|i: int| #![trigger cs[i]] 0 <= i < cs.len() ==> above(cs[i], v) && ordered(cs[i])
        },
    }
}

/// The canonical form: ordered, every node has at least two coefficients and
/// a non-zero leading one.
pub open spec fn canonical(s: SPoly) -> bool
    decreases s,
{
    match s {
        SPoly::Constant(_) => true,
        SPoly::Nested(v, cs) => {
            &&& cs.len() >= 2
            &&& !is_zero(cs.last())
            &&& forall|i: int| #![trigger cs[i]] 0 <= i < cs.len() ==> above(cs[i], v) && canonical(cs[i])
        },
    }
}

/// Every coefficient has absolute value at most `b`.
pub open spec fn bounded(s: SPoly, b: int) -> bool
    decreases s,
{
    match s {
        SPoly::Constant(c) => -b <= c <= b,
        SPoly::Nested(_, cs) => forall|i: int| #![trigger cs[i]] 0 <= i < cs.len() ==> bounded(cs[i], b),
    }
}

/// The number of nodes of the tree.
pub open spec fn size(s: SPoly) -> int
    decreases s, 0int,
{
    match s {
        SPoly::Constant(_) => 1,
        SPoly::Nested(_, cs) => 1 + size_from(cs, 0),
    }
}

/// The number of nodes in `cs[i..]`.
pub open spec fn size_from(cs: Seq<SPoly>, i: int) -> int
    decreases cs, cs.len() - i,
{
    if 0 <= i < cs.len() {
        size(cs[i]) + size_from(cs, i + 1)
    } else {
        0
    }
}

/// Every coefficient multiplied by `k`.
pub open spec fn scaled(s: SPoly, k: int) -> SPoly
    decreases s,
{
    match s {
        SPoly::Constant(c) => SPoly::Constant(c * k),
        SPoly::Nested(v, cs) => SPoly::Nested(
            v,
            Seq::new(cs.len(), |i: int| if 0 <= i < cs.len() { scaled(cs[i], k) } else { SPoly::Constant(0) }),
        ),
    }
}

/// `cs` without its trailing zero constants.
pub open spec fn strip(cs: Seq<SPoly>) -> Seq<SPoly>
    decreases cs.len(),
{
    if cs.len() > 0 && is_zero(cs.last()) {
        strip(cs.drop_last())
    } else {
        cs
    }
}

/// The normal form of a tree: every node cleaned, trailing zero coefficients
/// removed, a node left with one coefficient replaced by it, and a node left
/// with none replaced by zero.
pub open spec fn cleaned(s: SPoly) -> SPoly
    decreases s,
{
    match s {
        SPoly::Constant(c) => SPoly::Constant(c),
        SPoly::Nested(v, cs) => {
            let es = strip(cleaned_children(cs));
            if es.len() == 0 {
                SPoly::Constant(0)
            } else if es.len() == 1 {
                es[0]
            } else {
                SPoly::Nested(v, es)
            }
        },
    }
}

/// The coefficients of a node, each cleaned.
pub open spec fn cleaned_children(cs: Seq<SPoly>) -> Seq<SPoly>
    decreases cs,
{
    Seq::new(cs.len(), |i: int| if 0 <= i < cs.len() { cleaned(cs[i]) } else { SPoly::Constant(0) })
}

// ---------------------------------------------------------------------------
// Facts about values.
// ---------------------------------------------------------------------------

/// Two coefficient sequences whose values combine pointwise combine as wholes:
/// if each `es[j]` is worth `cs[j] + k * ds[j]`, then so is the whole sequence.
pub proof fn lemma_eval_from_lin(
    es: Seq<SPoly>,
    cs: Seq<SPoly>,
    ds: Seq<SPoly>,
    k: int,
    v: u8,
    env: spec_fn(u8) -> int,
    i: int,
)
    requires
        0 <= i,
        es.len() >= cs.len(),
        es.len() >= ds.len(),
        forall|j: int| i <= j < es.len() ==> #[trigger] eval(es[j], env) == eval_at(cs, j, env) + k * eval_at(ds, j, env),
    ensures
        eval_from(es, v, env, i) == eval_from(cs, v, env, i) + k * eval_from(ds, v, env, i),
    decreases es.len() - i,
{
    if i < es.len() {
        lemma_eval_from_lin(es, cs, ds, k, v, env, i + 1);
        let x = env(v);
        let c1 = eval_from(cs, v, env, i + 1);
        let d1 = eval_from(ds, v, env, i + 1);
        assert(x * (c1 + k * d1) == x * c1 + k * (x * d1)) by (nonlinear_arith);
        let c0 = eval_at(cs, i, env);
        let d0 = eval_at(ds, i, env);
        assert(k * (d0 + x * d1) == k * d0 + k * (x * d1)) by (nonlinear_arith);
        if i >= cs.len() {
            assert(eval_from(cs, v, env, i + 1) == 0);
        }
        if i >= ds.len() {
            assert(eval_from(ds, v, env, i + 1) == 0);
        }
        assert(eval(es[i], env) == eval_at(cs, i, env) + k * eval_at(ds, i, env));
    }
}

/// A single coefficient is worth itself.
pub proof fn lemma_eval_from_single(cs: Seq<SPoly>, v: u8, env: spec_fn(u8) -> int)
    requires
        cs.len() == 1,
    ensures
        eval_from(cs, v, env, 0) == eval(cs[0], env),
{
    assert(eval_from(cs, v, env, 1) == 0);
}

/// Removing trailing zeros keeps a prefix and the value.
pub proof fn lemma_strip(cs: Seq<SPoly>, v: u8, env: spec_fn(u8) -> int)
    ensures
        strip(cs).len() <= cs.len(),
        forall|j: int| 0 <= j < strip(cs).len() ==> #[trigger] strip(cs)[j] == cs[j],
        strip(cs).len() > 0 ==> !is_zero(strip(cs).last()),
        eval_from(strip(cs), v, env, 0) == eval_from(cs, v, env, 0),
    decreases cs.len(),
{
    if cs.len() > 0 && is_zero(cs.last()) {
        let ds = cs.drop_last();
        lemma_strip(ds, v, env);
        assert forall|j: int| 0 <= j < cs.len() implies #[trigger] eval(cs[j], env) == eval_at(ds, j, env) + 0 * eval_at(
            ds,
            j,
            env,
        ) by {}
        lemma_eval_from_lin(cs, ds, ds, 0, v, env, 0);
    }
}

/// Multiplying every coefficient by `k` multiplies the value by `k`.
pub proof fn lemma_eval_scaled(s: SPoly, k: int, env: spec_fn(u8) -> int)
    ensures
        eval(scaled(s, k), env) == k * eval(s, env),
    decreases s,
{
    match s {
        SPoly::Constant(c) => {
            assert(c * k == k * c) by (nonlinear_arith);
        },
        SPoly::Nested(v, cs) => {
            let es = scaled(s, k)->Nested_1;
            assert forall|j: int| 0 <= j < es.len() implies #[trigger] eval(es[j], env) == eval_at(
                Seq::<SPoly>::empty(),
                j,
                env,
            ) + k * eval_at(cs, j, env) by {
                lemma_eval_scaled(cs[j], k, env);
            }
            lemma_eval_from_lin(es, Seq::<SPoly>::empty(), cs, k, v, env, 0);
            assert(eval_from(Seq::<SPoly>::empty(), v, env, 0) == 0);
        },
    }
}

/// Cleaning does not change the value.
pub proof fn lemma_eval_cleaned(s: SPoly, env: spec_fn(u8) -> int)
    ensures
        eval(cleaned(s), env) == eval(s, env),
    decreases s,
{
    match s {
        SPoly::Constant(_) => {},
        SPoly::Nested(v, cs) => {
            let ds = cleaned_children(cs);
            assert forall|j: int| 0 <= j < ds.len() implies #[trigger] eval(ds[j], env) == eval_at(cs, j, env)
                + 0 * eval_at(cs, j, env) by {
                lemma_eval_cleaned(cs[j], env);
            }
            lemma_eval_from_lin(ds, cs, cs, 0, v, env, 0);
            lemma_strip(ds, v, env);
            let es = strip(ds);
            if es.len() == 1 {
                lemma_eval_from_single(es, v, env);
            }
        },
    }
}

// ---------------------------------------------------------------------------
// Facts about shape.
// ---------------------------------------------------------------------------

/// Canonical trees are ordered.
pub proof fn lemma_canonical_ordered(s: SPoly)
    requires
        canonical(s),
    ensures
        ordered(s),
    decreases s,
{
    match s {
        SPoly::Constant(_) => {},
        SPoly::Nested(v, cs) => {
            assert forall|i: int| 0 <= i < cs.len() implies above(#[trigger] cs[i], v) && ordered(cs[i]) by {
                lemma_canonical_ordered(cs[i]);
            }
        },
    }
}

/// Cleaning an ordered tree gives a canonical tree that stays above every
/// variable the tree was above.
pub proof fn lemma_cleaned_canonical(s: SPoly)
    requires
        ordered(s),
    ensures
        canonical(cleaned(s)),
        forall|w: u8| above(s, w) ==> #[trigger] above(cleaned(s), w),
    decreases s,
{
    match s {
        SPoly::Constant(_) => {},
        SPoly::Nested(v, cs) => {
            let ds = cleaned_children(cs);
            assert(forall|i: int| 0 <= i < cs.len() ==> ordered(#[trigger] cs[i]) && above(cs[i], v));
            assert forall|i: int| 0 <= i < ds.len() implies above(#[trigger] ds[i], v) && canonical(ds[i]) by {
                assert(ordered(cs[i]) && above(cs[i], v));
                lemma_cleaned_canonical(cs[i]);
            }
            lemma_strip(ds, v, |w: u8| 0int);
            let es = strip(ds);
            assert forall|i: int| 0 <= i < es.len() implies above(#[trigger] es[i], v) && canonical(es[i]) by {
                assert(es[i] == ds[i]);
            }
            if es.len() == 1 {
                assert(canonical(es[0]));
                assert forall|w: u8| above(s, w) implies #[trigger] above(cleaned(s), w) by {
                    assert(above(es[0], v));
                }
            }
        },
    }
}

/// Cleaning keeps a bound on the coefficients.
pub proof fn lemma_cleaned_bounded(s: SPoly, b: int)
    requires
        bounded(s, b),
        b >= 0,
    ensures
        bounded(cleaned(s), b),
    decreases s,
{
    match s {
        SPoly::Constant(_) => {},
        SPoly::Nested(v, cs) => {
            let ds = cleaned_children(cs);
            assert forall|i: int| 0 <= i < ds.len() implies bounded(#[trigger] ds[i], b) by {
                lemma_cleaned_bounded(cs[i], b);
            }
            lemma_strip(ds, v, |w: u8| 0int);
            let es = strip(ds);
            assert forall|i: int| 0 <= i < es.len() implies bounded(#[trigger] es[i], b) by {
                assert(es[i] == ds[i]);
            }
        },
    }
}

/// Cleaning a canonical tree leaves it as it is.
pub proof fn lemma_cleaned_canonical_id(s: SPoly)
    requires
        canonical(s),
    ensures
        cleaned(s) == s,
    decreases s,
{
    match s {
        SPoly::Constant(_) => {},
        SPoly::Nested(v, cs) => {
            let ds = cleaned_children(cs);
            assert forall|i: int| 0 <= i < ds.len() implies #[trigger] ds[i] == cs[i] by {
                lemma_cleaned_canonical_id(cs[i]);
            }
            assert(ds =~= cs);
            assert(strip(ds) == ds);
        },
    }
}

/// Multiplying the coefficients by `k` multiplies a bound by `|k|`.
pub proof fn lemma_scaled_bounded(s: SPoly, k: int, b: int)
    requires
        bounded(s, b),
        b >= 0,
    ensures
        bounded(scaled(s, k), b * (if k >= 0 { k } else { -k })),
    decreases s,
{
    let a = if k >= 0 { k } else { -k };
    match s {
        SPoly::Constant(c) => {
            assert(-(b * a) <= c * k <= b * a) by (nonlinear_arith)
                requires
                    -b <= c <= b,
                    a == (if k >= 0 { k } else { -k }),
                    b >= 0,
            ;
        },
        SPoly::Nested(v, cs) => {
            let es = scaled(s, k)->Nested_1;
            assert forall|i: int| 0 <= i < es.len() implies bounded(#[trigger] es[i], b * a) by {
                lemma_scaled_bounded(cs[i], k, b);
            }
        },
    }
}

/// Multiplying the coefficients keeps the shape.
pub proof fn lemma_scaled_shape(s: SPoly, k: int)
    ensures
        size(scaled(s, k)) == size(s),
        ordered(s) ==> ordered(scaled(s, k)),
        forall|w: u8| above(s, w) ==> #[trigger] above(scaled(s, k), w),
    decreases s,
{
    match s {
        SPoly::Constant(_) => {},
        SPoly::Nested(v, cs) => {
            let es = scaled(s, k)->Nested_1;
            assert forall|i: int| 0 <= i < es.len() implies size(#[trigger] es[i]) == size(cs[i]) && (ordered(cs[i])
                ==> ordered(es[i])) && (above(cs[i], v) ==> above(es[i], v)) by {
                lemma_scaled_shape(cs[i], k);
            }
            lemma_size_from_eq(es, cs, 0);
        },
    }
}

/// Sequences of trees of equal sizes have equal total size.
pub proof fn lemma_size_from_eq(es: Seq<SPoly>, cs: Seq<SPoly>, i: int)
    requires
        es.len() == cs.len(),
        forall|j: int| 0 <= j < es.len() ==> size(#[trigger] es[j]) == size(cs[j]),
    ensures
        size_from(es, i) == size_from(cs, i),
    decreases es.len() - i,
{
    if 0 <= i < es.len() {
        lemma_size_from_eq(es, cs, i + 1);
    }
}

/// Every tree has at least one node.
pub proof fn lemma_size_pos(s: SPoly)
    ensures
        size(s) >= 1,
    decreases s, 0int,
{
    match s {
        SPoly::Constant(_) => {},
        SPoly::Nested(_, cs) => {
            lemma_size_from_nonneg(cs, 0);
        },
    }
}

/// Sizes of sequences are not negative.
pub proof fn lemma_size_from_nonneg(cs: Seq<SPoly>, i: int)
    ensures
        size_from(cs, i) >= 0,
    decreases cs, cs.len() - i,
{
    if 0 <= i < cs.len() {
        lemma_size_from_nonneg(cs, i + 1);
        lemma_size_pos(cs[i]);
    }
}

/// A coefficient is smaller than the node that holds it.
pub proof fn lemma_size_child(cs: Seq<SPoly>, i: int, j: int)
    requires
        0 <= i <= j < cs.len(),
    ensures
        size(cs[j]) <= size_from(cs, i),
    decreases j - i,
{
    lemma_size_from_nonneg(cs, i + 1);
    if i < j {
        lemma_size_child(cs, i + 1, j);
        lemma_size_pos(cs[i]);
    }
}

} // verus!

verus! {

/// The largest absolute value of a coefficient.
pub open spec fn max_abs(s: SPoly) -> int
    decreases s, 0int,
{
    match s {
        SPoly::Constant(c) => if c >= 0 { c } else { -c },
        SPoly::Nested(_, cs) => max_abs_from(cs, 0),
    }
}

/// The largest absolute value of a coefficient in `cs[i..]`, or zero.
pub open spec fn max_abs_from(cs: Seq<SPoly>, i: int) -> int
    decreases cs, cs.len() - i,
{
    if 0 <= i < cs.len() {
        let a = max_abs(cs[i]);
        let b = max_abs_from(cs, i + 1);
        if a >= b { a } else { b }
    } else {
        0
    }
}

/// Every product of a coefficient with `k` fits in an `i64`.
pub open spec fn scale_fits(s: SPoly, k: int) -> bool
    decreases s,
{
    match s {
        SPoly::Constant(c) => i64::MIN <= c * k <= i64::MAX,
        SPoly::Nested(_, cs) => forall|i: int| #![trigger cs[i]] 0 <= i < cs.len() ==> scale_fits(cs[i], k),
    }
}

/// The absolute value.
pub open spec fn abs(k: int) -> int {
    if k >= 0 { k } else { -k }
}

/// `max_abs` is a bound on the coefficients.
pub proof fn lemma_max_abs(s: SPoly)
    ensures
        max_abs(s) >= 0,
        bounded(s, max_abs(s)),
    decreases s, 0int,
{
    match s {
        SPoly::Constant(_) => {},
        SPoly::Nested(_, cs) => {
            lemma_max_abs_from(cs, 0);
        },
    }
}

/// `max_abs_from` bounds `cs[i..]`.
pub proof fn lemma_max_abs_from(cs: Seq<SPoly>, i: int)
    requires
        0 <= i,
    ensures
        max_abs_from(cs, i) >= 0,
        forall|j: int| i <= j < cs.len() ==> bounded(#[trigger] cs[j], max_abs_from(cs, i)),
    decreases cs, cs.len() - i,
{
    if i < cs.len() {
        lemma_max_abs(cs[i]);
        lemma_max_abs_from(cs, i + 1);
        let m = max_abs_from(cs, i);
        assert forall|j: int| i <= j < cs.len() implies bounded(#[trigger] cs[j], m) by {
            if j == i {
                lemma_bounded_mono(cs[i], max_abs(cs[i]), m);
            } else {
                lemma_bounded_mono(cs[j], max_abs_from(cs, i + 1), m);
            }
        }
    }
}

/// A bound can be raised.
pub proof fn lemma_bounded_mono(s: SPoly, b: int, c: int)
    requires
        bounded(s, b),
        b <= c,
    ensures
        bounded(s, c),
    decreases s,
{
    match s {
        SPoly::Constant(_) => {},
        SPoly::Nested(_, cs) => {
            assert forall|i: int| 0 <= i < cs.len() implies bounded(#[trigger] cs[i], c) by {
                lemma_bounded_mono(cs[i], b, c);
            }
        },
    }
}

/// Coefficients bounded by `b` can be multiplied by `k` when `b * |k|` fits.
pub proof fn lemma_bounded_scale_fits(s: SPoly, b: int, k: int)
    requires
        bounded(s, b),
        b >= 0,
        b * abs(k) <= i64::MAX,
    ensures
        scale_fits(s, k),
    decreases s,
{
    match s {
        SPoly::Constant(c) => {
            assert(-(b * abs(k)) <= c * k <= b * abs(k)) by (nonlinear_arith)
                requires
                    -b <= c <= b,
                    b >= 0,
            ;
        },
        SPoly::Nested(_, cs) => {
            assert forall|i: int| 0 <= i < cs.len() implies scale_fits(#[trigger] cs[i], k) by {
                lemma_bounded_scale_fits(cs[i], b, k);
            }
        },
    }
}

} // verus!

verus! {

/// The polynomial is a constant or has its top variable at `v` or above.
pub open spec fn above_eq(s: SPoly, v: u8) -> bool {
    match s {
        SPoly::Constant(_) => true,
        SPoly::Nested(w, _) => w >= v,
    }
}

/// Cleaning an ordered tree keeps it at or above every variable it was at or above.
pub proof fn lemma_cleaned_above_eq(s: SPoly, w: u8)
    requires
        ordered(s),
        above_eq(s, w),
    ensures
        above_eq(cleaned(s), w),
{
    lemma_cleaned_canonical(s);
    match s {
        SPoly::Constant(_) => {},
        SPoly::Nested(v, cs) => {
            let ds = cleaned_children(cs);
            lemma_strip(ds, v, |u: u8| 0int);
            let es = strip(ds);
            if es.len() == 1 {
                assert(es[0] == ds[0]);
                lemma_cleaned_canonical(cs[0]);
                assert(above(cs[0], v));
                assert(above(ds[0], v));
            }
        },
    }
}

/// The value of `cs[j..]` is that of the sequence `ts` it ends with.
pub proof fn lemma_eval_from_shift(
    es: Seq<SPoly>,
    ts: Seq<SPoly>,
    v: u8,
    env: spec_fn(u8) -> int,
    j: int,
    t: int,
)
    requires
        0 <= j,
        0 <= t,
        es.len() == j + ts.len(),
        forall|m: int| 0 <= m < ts.len() ==> #[trigger] es[j + m] == ts[m],
    ensures
        eval_from(es, v, env, j + t) == eval_from(ts, v, env, t),
    decreases ts.len() - t,
{
    if t < ts.len() {
        lemma_eval_from_shift(es, ts, v, env, j, t + 1);
        assert(es[j + t] == ts[t]);
    }
}

/// Zero coefficients in front multiply the value by a power of the variable.
pub proof fn lemma_eval_zero_prefix(
    es: Seq<SPoly>,
    ts: Seq<SPoly>,
    v: u8,
    env: spec_fn(u8) -> int,
    j: int,
    i: int,
)
    requires
        0 <= i <= j,
        es.len() == j + ts.len(),
        forall|m: int| 0 <= m < ts.len() ==> #[trigger] es[j + m] == ts[m],
        forall|m: int| 0 <= m < j ==> #[trigger] es[m] == SPoly::Constant(0),
    ensures
        eval_from(es, v, env, i) == pow(env(v), (j - i) as nat) * eval_from(ts, v, env, 0),
    decreases j - i,
{
    let x = env(v);
    let e = eval_from(ts, v, env, 0);
    if i == j {
        lemma_eval_from_shift(es, ts, v, env, j, 0);
        assert(eval_from(es, v, env, i) == e);
        assert(pow(x, 0) == 1) by {
            reveal(pow);
        }
    } else {
        lemma_eval_zero_prefix(es, ts, v, env, j, i + 1);
        let p = pow(x, (j - i - 1) as nat);
        assert(pow(x, (j - i) as nat) == x * p) by {
            reveal(pow);
        }
        assert(x * (p * e) == (x * p) * e) by (nonlinear_arith);
        assert(es[i] == SPoly::Constant(0));
        assert(eval(es[i], env) == 0);
        assert(eval_from(es, v, env, i + 1) == p * e);
        assert(eval_from(es, v, env, i) == 0 + x * eval_from(es, v, env, i + 1));
    }
}

/// `A[0] + A[1]*x + ... + A[n-1]*x^(n-1)`, with `x = env(v)`.
pub open spec fn partial_value(cs: Seq<SPoly>, n: int, v: u8, env: spec_fn(u8) -> int) -> int
    decreases n,
{
    if n <= 0 {
        0
    } else {
        partial_value(cs, n - 1, v, env) + pow(env(v), (n - 1) as nat) * eval_at(cs, n - 1, env)
    }
}

/// The value of a node is the sum of its first `i` terms and the rest.
pub proof fn lemma_partial_value(cs: Seq<SPoly>, v: u8, env: spec_fn(u8) -> int, i: int)
    requires
        0 <= i <= cs.len(),
    ensures
        partial_value(cs, i, v, env) + pow(env(v), i as nat) * eval_from(cs, v, env, i) == eval_from(cs, v, env, 0),
    decreases i,
{
    let x = env(v);
    if i == 0 {
        assert(pow(x, 0) == 1) by {
            reveal(pow);
        }
    } else {
        lemma_partial_value(cs, v, env, i - 1);
        let p = pow(x, (i - 1) as nat);
        let a = eval(cs[i - 1], env);
        let r = eval_from(cs, v, env, i);
        assert(pow(x, i as nat) == x * p) by {
            reveal(pow);
        }
        assert(p * (a + x * r) == p * a + (x * p) * r) by (nonlinear_arith);
    }
}

} // verus!

verus! {

/// A bound on the coefficients is at least `max_abs`.
pub proof fn lemma_max_abs_least(s: SPoly, b: int)
    requires
        bounded(s, b),
        b >= 0,
    ensures
        max_abs(s) <= b,
    decreases s, 0int,
{
    match s {
        SPoly::Constant(_) => {},
        SPoly::Nested(_, cs) => {
            lemma_max_abs_from_least(cs, 0, b);
        },
    }
}

/// A bound on the coefficients of `cs[i..]` is at least `max_abs_from`.
pub proof fn lemma_max_abs_from_least(cs: Seq<SPoly>, i: int, b: int)
    requires
        0 <= i,
        b >= 0,
        forall|j: int| i <= j < cs.len() ==> bounded(#[trigger] cs[j], b),
    ensures
        max_abs_from(cs, i) <= b,
    decreases cs, cs.len() - i,
{
    if i < cs.len() {
        lemma_max_abs_least(cs[i], b);
        lemma_max_abs_from_least(cs, i + 1, b);
    }
}

} // verus!
