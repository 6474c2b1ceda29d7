//! Sums and products of coefficient sequences modulo `p`: finite sums, the
//! associativity of the product (`conv`), and the coefficients of the sums
//! and products that `ModularPoly` computes, as congruences modulo `p`.

use vstd::prelude::*;
use vstd::arithmetic::div_mod::{
    lemma_add_mod_noop, lemma_sub_mod_noop, lemma_mul_mod_noop_right, lemma_small_mod, lemma_mod_bound,
};
use crate::modular_poly::{coef, conv, conv_upto, add_seq, sub_seq, mul_seq, max_len, division_identity, lemma_conv_upto_beyond, trim, seq_is_zero, reduced, lemma_trim_props};

verus! {

/// `f(0) + f(1) + ... + f(n - 1)`.
pub open spec fn fsum(f: spec_fn(int) -> int, n: int) -> int
    decreases n,
{
    if n <= 0 {
        0
    } else {
        fsum(f, n - 1) + f(n - 1)
    }
}

/// Two numbers with the same residue modulo `p`.
pub open spec fn cm(x: int, y: int, p: int) -> bool {
    x % p == y % p
}

/// Residues add.
pub proof fn lemma_cm_add(x1: int, y1: int, x2: int, y2: int, p: int)
    requires
        p > 0,
        cm(x1, y1, p),
        cm(x2, y2, p),
    ensures
        cm(x1 + x2, y1 + y2, p),
{
    lemma_add_mod_noop(x1, x2, p);
    lemma_add_mod_noop(y1, y2, p);
}

/// Residues subtract.
pub proof fn lemma_cm_sub(x1: int, y1: int, x2: int, y2: int, p: int)
    requires
        p > 0,
        cm(x1, y1, p),
        cm(x2, y2, p),
    ensures
        cm(x1 - x2, y1 - y2, p),
{
    lemma_sub_mod_noop(x1, x2, p);
    lemma_sub_mod_noop(y1, y2, p);
}

/// Residues multiply by a common factor.
pub proof fn lemma_cm_mul(c: int, x: int, y: int, p: int)
    requires
        p > 0,
        cm(x, y, p),
    ensures
        cm(c * x, c * y, p),
{
    lemma_mul_mod_noop_right(c, x, p);
    lemma_mul_mod_noop_right(c, y, p);
}

/// A residue has itself as residue.
pub proof fn lemma_cm_red(x: int, p: int)
    requires
        p > 0,
    ensures
        cm(x % p, x, p),
{
    lemma_mod_bound(x, p);
    lemma_small_mod((x % p) as nat, p as nat);
}

/// A sum of zeros.
pub proof fn lemma_fsum_zero(f: spec_fn(int) -> int, n: int)
    requires
        forall|m: int| 0 <= m < n ==> #[trigger] f(m) == 0,
    ensures
        fsum(f, n) == 0,
    decreases n,
{
    if n > 0 {
        lemma_fsum_zero(f, n - 1);
    }
}

/// A sum of `f(m) + x * g(m)` is the sum of `f` plus `x` times the sum of `g`.
pub proof fn lemma_fsum_lin(h: spec_fn(int) -> int, f: spec_fn(int) -> int, g: spec_fn(int) -> int, x: int, n: int)
    requires
        forall|m: int| 0 <= m < n ==> #[trigger] h(m) == f(m) + x * g(m),
    ensures
        fsum(h, n) == fsum(f, n) + x * fsum(g, n),
    decreases n,
{
    if n > 0 {
        lemma_fsum_lin(h, f, g, x, n - 1);
        let a = fsum(g, n - 1);
        let b = g(n - 1);
        assert(x * a + x * b == x * (a + b)) by (nonlinear_arith);
        assert(h(n - 1) == f(n - 1) + x * g(n - 1));
    }
}

/// Leading zeros can be dropped from a sum.
pub proof fn lemma_fsum_shift(f: spec_fn(int) -> int, h: spec_fn(int) -> int, s: int, n: int)
    requires
        0 <= s <= n,
        forall|m: int| 0 <= m < s ==> #[trigger] f(m) == 0,
        forall|j: int| 0 <= j < n - s ==> #[trigger] h(j) == f(j + s),
    ensures
        fsum(f, n) == fsum(h, n - s),
    decreases n,
{
    if n > s {
        lemma_fsum_shift(f, h, s, n - 1);
        assert(h(n - 1 - s) == f(n - 1 - s + s));
    } else {
        lemma_fsum_zero(f, n);
    }
}

/// Trailing zeros can be dropped from a sum.
pub proof fn lemma_fsum_tail(f: spec_fn(int) -> int, n0: int, n: int)
    requires
        0 <= n0 <= n,
        forall|m: int| n0 <= m < n ==> #[trigger] f(m) == 0,
    ensures
        fsum(f, n) == fsum(f, n0),
    decreases n,
{
    if n > n0 {
        lemma_fsum_tail(f, n0, n - 1);
        assert(f(n - 1) == 0);
    }
}

/// Termwise equal residues give equal residues of the sums.
pub proof fn lemma_fsum_cm(f: spec_fn(int) -> int, g: spec_fn(int) -> int, n: int, p: int)
    requires
        p > 0,
        forall|m: int| 0 <= m < n ==> cm(#[trigger] f(m), g(m), p),
    ensures
        cm(fsum(f, n), fsum(g, n), p),
    decreases n,
{
    if n > 0 {
        lemma_fsum_cm(f, g, n - 1, p);
        assert(cm(f(n - 1), g(n - 1), p));
        lemma_cm_add(fsum(f, n - 1), fsum(g, n - 1), f(n - 1), g(n - 1), p);
    } else {
        assert(fsum(f, n) == fsum(g, n));
    }
}

/// The terms of `conv(a, b, k)`.
pub open spec fn conv_term(a: Seq<u64>, b: Seq<u64>, k: int) -> spec_fn(int) -> int {
    |i: int| coef(a, i) * coef(b, k - i)
}

/// `conv_upto` is a finite sum.
pub proof fn lemma_conv_fsum(a: Seq<u64>, b: Seq<u64>, k: int, n: int)
    ensures
        conv_upto(a, b, k, n) == fsum(conv_term(a, b, k), n),
    decreases n,
{
    if n > 0 {
        lemma_conv_fsum(a, b, k, n - 1);
    }
}

/// A product vanishes beyond its last coefficient.
pub proof fn lemma_conv_support(a: Seq<u64>, b: Seq<u64>, k: int, n: int)
    requires
        k >= a.len() + b.len() - 1 || k < 0,
        0 <= n <= a.len(),
    ensures
        conv_upto(a, b, k, n) == 0,
    decreases n,
{
    if n > 0 {
        lemma_conv_support(a, b, k, n - 1);
        assert(coef(b, k - (n - 1)) == 0);
        assert(coef(a, n - 1) * 0 == 0);
    }
}

/// A product with a second factor that is zero everywhere vanishes.
pub proof fn lemma_conv_zero_right(a: Seq<u64>, b: Seq<u64>, k: int, n: int)
    requires
        forall|i: int| #[trigger] coef(b, i) == 0,
    ensures
        conv_upto(a, b, k, n) == 0,
    decreases n,
{
    if n > 0 {
        lemma_conv_zero_right(a, b, k, n - 1);
        assert(coef(b, k - (n - 1)) == 0);
        assert(coef(a, n - 1) * 0 == 0);
    }
}

/// A product with a first factor that is zero everywhere vanishes.
pub proof fn lemma_conv_zero_left(a: Seq<u64>, b: Seq<u64>, k: int, n: int)
    requires
        forall|i: int| #[trigger] coef(a, i) == 0,
    ensures
        conv_upto(a, b, k, n) == 0,
    decreases n,
{
    if n > 0 {
        lemma_conv_zero_left(a, b, k, n - 1);
        assert(coef(a, n - 1) == 0);
        assert(0 * coef(b, k - (n - 1)) == 0);
    }
}

/// The terms of the product of `(a * b)` with `c`, with `a` cut to `n` coefficients.
pub open spec fn assoc_left(a: Seq<u64>, b: Seq<u64>, c: Seq<u64>, k: int, n: int) -> spec_fn(int) -> int {
    |m: int| conv_upto(a, b, m, n) * coef(c, k - m)
}

/// The terms of the product of `a` with `(b * c)`.
pub open spec fn assoc_right(a: Seq<u64>, b: Seq<u64>, c: Seq<u64>, k: int) -> spec_fn(int) -> int {
    |j: int| coef(a, j) * conv(b, c, k - j)
}

/// The terms `b[m - s] * c[k - m]`.
pub open spec fn shifted_term(b: Seq<u64>, c: Seq<u64>, k: int, s: int) -> spec_fn(int) -> int {
    |m: int| coef(b, m - s) * coef(c, k - m)
}

/// Multiplying `b` by `x^s` and then by `c` gives the product of `b` and `c` shifted.
proof fn lemma_shifted_sum(b: Seq<u64>, c: Seq<u64>, k: int, s: int, total: int)
    requires
        0 <= s,
        total >= s + b.len(),
    ensures
        fsum(shifted_term(b, c, k, s), total) == conv(b, c, k - s),
{
    let f = shifted_term(b, c, k, s);
    let h = conv_term(b, c, k - s);
    assert forall|m: int| 0 <= m < s implies #[trigger] f(m) == 0 by {
        assert(coef(b, m - s) == 0);
    }
    assert forall|j: int| 0 <= j < total - s implies #[trigger] h(j) == f(j + s) by {
        assert(j + s - s == j);
        assert(k - s - j == k - (j + s));
    }
    lemma_fsum_shift(f, h, s, total);
    assert forall|m: int| b.len() <= m < total - s implies #[trigger] h(m) == 0 by {
        assert(coef(b, m) == 0);
    }
    lemma_fsum_tail(h, b.len() as int, total - s);
    lemma_conv_fsum(b, c, k - s, b.len() as int);
}

/// The product is associative: `((a * b) * c)[k] == (a * (b * c))[k]`, with
/// the first written over the `total >= a.len() + b.len()` coefficients of `a * b`.
pub proof fn lemma_conv_assoc(a: Seq<u64>, b: Seq<u64>, c: Seq<u64>, k: int, n: int, total: int)
    requires
        0 <= n <= a.len(),
        total >= a.len() + b.len(),
    ensures
        fsum(assoc_left(a, b, c, k, n), total) == fsum(assoc_right(a, b, c, k), n),
    decreases n,
{
    if n == 0 {
        assert forall|m: int| 0 <= m < total implies #[trigger] assoc_left(a, b, c, k, 0)(m) == 0 by {
            assert(conv_upto(a, b, m, 0) == 0);
            assert(0 * coef(c, k - m) == 0);
        }
        lemma_fsum_zero(assoc_left(a, b, c, k, 0), total);
    } else {
        lemma_conv_assoc(a, b, c, k, n - 1, total);
        let s = n - 1;
        let x = coef(a, s);
        let h = assoc_left(a, b, c, k, n);
        let f = assoc_left(a, b, c, k, n - 1);
        let g = shifted_term(b, c, k, s);
        assert forall|m: int| 0 <= m < total implies #[trigger] h(m) == f(m) + x * g(m) by {
            let u = conv_upto(a, b, m, n - 1);
            let y = coef(b, m - s);
            let z = coef(c, k - m);
            assert(conv_upto(a, b, m, n) == u + x * y);
            assert((u + x * y) * z == u * z + x * (y * z)) by (nonlinear_arith);
        }
        lemma_fsum_lin(h, f, g, x, total);
        lemma_shifted_sum(b, c, k, s, total);
    }
}

/// The coefficients of `sub_seq` are differences modulo `p`.
pub proof fn lemma_sub_seq_cm(a: Seq<u64>, b: Seq<u64>, p: int, j: int)
    requires
        0 < p <= u64::MAX,
    ensures
        cm(coef(sub_seq(a, b, p), j), coef(a, j) - coef(b, j), p),
{
    let s = sub_seq(a, b, p);
    if 0 <= j < max_len(a, b) {
        lemma_mod_bound(coef(a, j) - coef(b, j), p);
        let x = (coef(a, j) - coef(b, j)) % p;
        assert(s[j] == (x as u64));
        assert(0 <= x < p);
        assert(coef(s, j) == x);
        lemma_cm_red(coef(a, j) - coef(b, j), p);
    } else {
        assert(coef(a, j) == 0 && coef(b, j) == 0);
        assert(coef(s, j) == 0);
    }
}

/// The coefficients of `mul_seq` are those of the product modulo `p`.
pub proof fn lemma_mul_seq_cm(a: Seq<u64>, b: Seq<u64>, p: int, j: int)
    requires
        0 < p <= u64::MAX,
        a.len() + b.len() >= 1,
    ensures
        cm(coef(mul_seq(a, b, p), j), conv(a, b, j), p),
{
    let s = mul_seq(a, b, p);
    if 0 <= j < a.len() + b.len() - 1 {
        lemma_mod_bound(conv(a, b, j), p);
        let x = conv(a, b, j) % p;
        assert(s[j] == (x as u64));
        assert(0 <= x < p);
        assert(coef(s, j) == x);
        lemma_cm_red(conv(a, b, j), p);
    } else {
        lemma_conv_support(a, b, j, a.len() as int);
        assert(coef(s, j) == 0);
    }
}

/// A product written over any length at least that of its first factor.
pub proof fn lemma_conv_len(a: Seq<u64>, b: Seq<u64>, k: int, n: int)
    requires
        n >= a.len(),
    ensures
        fsum(conv_term(a, b, k), n) == conv(a, b, k),
{
    lemma_conv_upto_beyond(a, b, k, n);
    lemma_conv_fsum(a, b, k, n);
}


/// `r` is `s * a + t * q` modulo `p`, coefficient by coefficient.
pub open spec fn bezout(r: Seq<u64>, s: Seq<u64>, t: Seq<u64>, a: Seq<u64>, q: Seq<u64>, p: int) -> bool {
    forall|i: int| #[trigger] cm(coef(r, i), conv(s, a, i) + conv(t, q, i), p)
}

/// Multiplying `r = s * a + t * q` by `qp` distributes over the two products.
proof fn lemma_expand(r: Seq<u64>, s: Seq<u64>, t: Seq<u64>, qp: Seq<u64>, a: Seq<u64>, q: Seq<u64>, i: int, p: int)
    requires
        p > 0,
        bezout(r, s, t, a, q, p),
    ensures
        cm(
            conv(qp, r, i),
            fsum(assoc_right(qp, s, a, i), qp.len() as int) + fsum(assoc_right(qp, t, q, i), qp.len() as int),
            p,
        ),
{
    let n = qp.len() as int;
    let h = conv_term(qp, r, i);
    let f1 = assoc_right(qp, s, a, i);
    let f2 = assoc_right(qp, t, q, i);
    let g = |m: int| f1(m) + f2(m);
    assert forall|m: int| 0 <= m < n implies #[trigger] g(m) == f1(m) + 1 * f2(m) by {}
    lemma_fsum_lin(g, f1, f2, 1, n);
    assert forall|m: int| 0 <= m < n implies cm(#[trigger] h(m), g(m), p) by {
        let x = coef(qp, m);
        let u = conv(s, a, i - m);
        let w = conv(t, q, i - m);
        assert(cm(coef(r, i - m), u + w, p));
        lemma_cm_mul(x, coef(r, i - m), u + w, p);
        assert(x * (u + w) == x * u + x * w) by (nonlinear_arith);
    }
    lemma_fsum_cm(h, g, n, p);
    lemma_conv_fsum(qp, r, i, n);
}

/// `s2 = s1 - qp * s` coefficient by coefficient gives `s2 * a = s1 * a -
/// qp * (s * a)`, modulo `p`.
proof fn lemma_side(s2: Seq<u64>, s1: Seq<u64>, s: Seq<u64>, qp: Seq<u64>, a: Seq<u64>, i: int, p: int)
    requires
        p > 0,
        forall|j: int| #[trigger] cm(coef(s2, j), coef(s1, j) - conv(qp, s, j), p),
    ensures
        cm(conv(s2, a, i), conv(s1, a, i) - fsum(assoc_right(qp, s, a, i), qp.len() as int), p),
{
    let t1: int = (qp.len() + s.len()) as int;
    let n = if s2.len() >= s1.len() {
        if s2.len() >= t1 { s2.len() as int } else { t1 as int }
    } else {
        if s1.len() >= t1 { s1.len() as int } else { t1 as int }
    };
    let h = conv_term(s2, a, i);
    let f = conv_term(s1, a, i);
    let g = assoc_left(qp, s, a, i, qp.len() as int);
    let hh = |j: int| f(j) + (-1) * g(j);
    assert forall|j: int| 0 <= j < n implies #[trigger] hh(j) == f(j) + (-1) * g(j) by {}
    lemma_fsum_lin(hh, f, g, -1, n);
    assert forall|j: int| 0 <= j < n implies cm(#[trigger] h(j), hh(j), p) by {
        let y = coef(a, i - j);
        let c2 = coef(s2, j);
        let c1 = coef(s1, j);
        let cv = conv(qp, s, j);
        assert(cm(c2, c1 - cv, p));
        lemma_cm_mul(y, c2, c1 - cv, p);
        assert(c2 * y == y * c2 && y * (c1 - cv) == c1 * y + (-1) * (cv * y)) by (nonlinear_arith);
        assert(g(j) == conv_upto(qp, s, j, qp.len() as int) * y);
    }
    lemma_fsum_cm(h, hh, n, p);
    lemma_conv_len(s2, a, i, n);
    lemma_conv_len(s1, a, i, n);
    assert forall|m: int| t1 <= m < n implies #[trigger] g(m) == 0 by {
        lemma_conv_support(qp, s, m, qp.len() as int);
        assert(0 * coef(a, i - m) == 0);
    }
    lemma_fsum_tail(g, t1, n);
    lemma_conv_assoc(qp, s, a, i, qp.len() as int, t1);
}

/// One step of the extended Euclidean algorithm keeps `r = s * a + t * q`:
/// with `r_prev = qp * r_curr + r_next`, the new pair is `s_prev - qp *
/// s_curr` and `t_prev - qp * t_curr`.
pub proof fn lemma_bezout_step(
    r_prev: Seq<u64>,
    s_prev: Seq<u64>,
    t_prev: Seq<u64>,
    r_curr: Seq<u64>,
    s_curr: Seq<u64>,
    t_curr: Seq<u64>,
    qp: Seq<u64>,
    r_next: Seq<u64>,
    s_next: Seq<u64>,
    t_next: Seq<u64>,
    a: Seq<u64>,
    q: Seq<u64>,
    p: int,
)
    requires
        p > 0,
        bezout(r_prev, s_prev, t_prev, a, q, p),
        bezout(r_curr, s_curr, t_curr, a, q, p),
        division_identity(r_prev, qp, r_curr, r_next, p),
        forall|j: int| #[trigger] cm(coef(s_next, j), coef(s_prev, j) - conv(qp, s_curr, j), p),
        forall|j: int| #[trigger] cm(coef(t_next, j), coef(t_prev, j) - conv(qp, t_curr, j), p),
    ensures
        bezout(r_next, s_next, t_next, a, q, p),
{
    assert forall|i: int| #[trigger] cm(coef(r_next, i), conv(s_next, a, i) + conv(t_next, q, i), p) by {
        let x = conv(qp, r_curr, i);
        let y1 = fsum(assoc_right(qp, s_curr, a, i), qp.len() as int);
        let y2 = fsum(assoc_right(qp, t_curr, q, i), qp.len() as int);
        lemma_expand(r_curr, s_curr, t_curr, qp, a, q, i, p);
        lemma_side(s_next, s_prev, s_curr, qp, a, i, p);
        lemma_side(t_next, t_prev, t_curr, qp, q, i, p);
        let sa = conv(s_prev, a, i);
        let tq = conv(t_prev, q, i);
        lemma_cm_add(conv(s_next, a, i), sa - y1, conv(t_next, q, i), tq - y2, p);
        assert(cm(coef(r_prev, i), sa + tq, p));
        assert(coef(r_prev, i) == (x + coef(r_next, i)) % p);
        lemma_cm_red(x + coef(r_next, i), p);
        lemma_cm_sub(coef(r_prev, i), sa + tq, x, y1 + y2, p);
        assert(sa - y1 + (tq - y2) == (sa + tq) - (y1 + y2));
        assert(coef(r_next, i) == (x + coef(r_next, i)) - x);
        lemma_cm_sub(x + coef(r_next, i), coef(r_prev, i), x, x, p);
    }
}


/// Coefficients that are `c` times those of `y` give `c` times the product.
pub proof fn lemma_scale_conv(x: Seq<u64>, y: Seq<u64>, a: Seq<u64>, c: int, i: int, p: int)
    requires
        p > 0,
        forall|j: int| #[trigger] cm(coef(x, j), c * coef(y, j), p),
    ensures
        cm(conv(x, a, i), c * conv(y, a, i), p),
{
    let n: int = if x.len() >= y.len() { x.len() as int } else { y.len() as int };
    let h = conv_term(x, a, i);
    let g = conv_term(y, a, i);
    let z = |j: int| 0int;
    let hh = |j: int| z(j) + c * g(j);
    assert forall|j: int| 0 <= j < n implies #[trigger] hh(j) == z(j) + c * g(j) by {}
    lemma_fsum_lin(hh, z, g, c, n);
    lemma_fsum_zero(z, n);
    assert forall|j: int| 0 <= j < n implies cm(#[trigger] h(j), hh(j), p) by {
        let w = coef(a, i - j);
        assert(cm(coef(x, j), c * coef(y, j), p));
        lemma_cm_mul(w, coef(x, j), c * coef(y, j), p);
        assert(w * coef(x, j) == coef(x, j) * w && w * (c * coef(y, j)) == 0 + c * (coef(y, j) * w))
            by (nonlinear_arith);
    }
    lemma_fsum_cm(h, hh, n, p);
    lemma_conv_len(x, a, i, n);
    lemma_conv_len(y, a, i, n);
}

/// The product with the constant `[c]` as first factor.
pub proof fn lemma_conv_const_left(c: u64, b: Seq<u64>, k: int)
    ensures
        conv(seq![c], b, k) == c * coef(b, k),
{
    assert(conv_upto(seq![c], b, k, 0) == 0);
    assert(coef(seq![c], 0) == c);
}


/// `s` is an inverse of `a` modulo `q` and `p`: for some `t`, `s * a + t * q`
/// is the constant 1 modulo `p`.
pub open spec fn inverse_mod(s: Seq<u64>, a: Seq<u64>, q: Seq<u64>, p: int) -> bool {
    exists|t: Seq<u64>| #[trigger] bezout(seq![1u64], s, t, a, q, p)
}


/// A sum read backwards.
proof fn lemma_fsum_rev(f: spec_fn(int) -> int, g: spec_fn(int) -> int, n: int)
    requires
        forall|i: int| 0 <= i < n ==> #[trigger] g(i) == f(n - 1 - i),
    ensures
        fsum(f, n) == fsum(g, n),
    decreases n,
{
    if n > 0 {
        let h = |i: int| g(i + 1);
        assert forall|i: int| 0 <= i < n - 1 implies #[trigger] h(i) == f(n - 1 - 1 - i) by {
            assert(g(i + 1) == f(n - 1 - (i + 1)));
        }
        lemma_fsum_rev(f, h, n - 1);
        lemma_fsum_front(g, h, n);
    }
}

/// A sum is its first term plus the sum of the others.
proof fn lemma_fsum_front(g: spec_fn(int) -> int, h: spec_fn(int) -> int, n: int)
    requires
        n >= 1,
        forall|i: int| 0 <= i < n - 1 ==> #[trigger] h(i) == g(i + 1),
    ensures
        fsum(g, n) == g(0) + fsum(h, n - 1),
    decreases n,
{
    if n > 1 {
        lemma_fsum_front(g, h, n - 1);
        assert(h(n - 2) == g(n - 1));
        assert(fsum(g, n) == fsum(g, n - 1) + g(n - 1));
        assert(fsum(h, n - 1) == fsum(h, n - 2) + h(n - 2));
    } else {
        assert(fsum(g, 0) == 0);
        assert(fsum(g, 1) == fsum(g, 0) + g(0));
        assert(fsum(h, 0) == 0);
    }
}

/// The product is commutative.
pub proof fn lemma_conv_comm(a: Seq<u64>, b: Seq<u64>, k: int)
    ensures
        conv(a, b, k) == conv(b, a, k),
{
    if k < 0 {
        lemma_conv_support(a, b, k, a.len() as int);
        lemma_conv_support(b, a, k, b.len() as int);
    } else {
        let n: int = if a.len() >= b.len() { a.len() as int } else { b.len() as int };
        let m: int = if n >= k + 1 { n } else { k + 1 };
        let f = conv_term(a, b, k);
        let g = conv_term(b, a, k);
        lemma_conv_len(a, b, k, m);
        lemma_conv_len(b, a, k, m);
        assert forall|i: int| k + 1 <= i < m implies #[trigger] f(i) == 0 by {
            assert(coef(b, k - i) == 0);
            assert(coef(a, i) * 0 == 0);
        }
        assert forall|i: int| k + 1 <= i < m implies #[trigger] g(i) == 0 by {
            assert(coef(a, k - i) == 0);
            assert(coef(b, i) * 0 == 0);
        }
        lemma_fsum_tail(f, k + 1, m);
        lemma_fsum_tail(g, k + 1, m);
        assert forall|i: int| 0 <= i < k + 1 implies #[trigger] g(i) == f(k + 1 - 1 - i) by {
            let x = coef(b, i);
            let y = coef(a, k - i);
            assert(k - (k - i) == i);
            assert(x * y == y * x) by (nonlinear_arith);
        }
        lemma_fsum_rev(f, g, k + 1);
    }
}


/// Coefficients that combine those of `y` and `z` give the same combination of products.
pub proof fn lemma_lin2_conv(x: Seq<u64>, y: Seq<u64>, z: Seq<u64>, a: Seq<u64>, u: int, w: int, i: int, p: int)
    requires
        p > 0,
        forall|j: int| #[trigger] cm(coef(x, j), u * coef(y, j) + w * coef(z, j), p),
    ensures
        cm(conv(x, a, i), u * conv(y, a, i) + w * conv(z, a, i), p),
{
    let n0: int = if x.len() >= y.len() { x.len() as int } else { y.len() as int };
    let n: int = if n0 >= z.len() { n0 } else { z.len() as int };
    let h = conv_term(x, a, i);
    let gy = conv_term(y, a, i);
    let gz = conv_term(z, a, i);
    let f1 = |j: int| u * gy(j);
    let hh = |j: int| f1(j) + w * gz(j);
    let zero = |j: int| 0int;
    let f1b = |j: int| zero(j) + u * gy(j);
    assert forall|j: int| 0 <= j < n implies #[trigger] hh(j) == f1(j) + w * gz(j) by {}
    lemma_fsum_lin(hh, f1, gz, w, n);
    assert forall|j: int| 0 <= j < n implies #[trigger] f1(j) == zero(j) + u * gy(j) by {}
    lemma_fsum_lin(f1, zero, gy, u, n);
    lemma_fsum_zero(zero, n);
    assert forall|j: int| 0 <= j < n implies cm(#[trigger] h(j), hh(j), p) by {
        let c = coef(a, i - j);
        assert(cm(coef(x, j), u * coef(y, j) + w * coef(z, j), p));
        lemma_cm_mul(c, coef(x, j), u * coef(y, j) + w * coef(z, j), p);
        assert(c * coef(x, j) == coef(x, j) * c && c * (u * coef(y, j) + w * coef(z, j)) == u * (coef(y, j) * c) + w
            * (coef(z, j) * c)) by (nonlinear_arith);
    }
    lemma_fsum_cm(h, hh, n, p);
    lemma_conv_len(x, a, i, n);
    lemma_conv_len(y, a, i, n);
    lemma_conv_len(z, a, i, n);
}

/// The same, with the combination in the second factor.
pub proof fn lemma_lin2_conv_right(c: Seq<u64>, x: Seq<u64>, y: Seq<u64>, z: Seq<u64>, u: int, w: int, i: int, p: int)
    requires
        p > 0,
        forall|j: int| #[trigger] cm(coef(x, j), u * coef(y, j) + w * coef(z, j), p),
    ensures
        cm(conv(c, x, i), u * conv(c, y, i) + w * conv(c, z, i), p),
{
    lemma_lin2_conv(x, y, z, c, u, w, i, p);
    lemma_conv_comm(c, x, i);
    lemma_conv_comm(c, y, i);
    lemma_conv_comm(c, z, i);
}



/// The product modulo `p`, over `a.len() + b.len()` coefficients.
pub open spec fn mulz(a: Seq<u64>, b: Seq<u64>, p: int) -> Seq<u64> {
    Seq::new((a.len() + b.len()) as nat, |k: int| (conv(a, b, k) % p) as u64)
}

/// The coefficients of `mulz` are those of the product modulo `p`.
pub proof fn lemma_mulz_cm(a: Seq<u64>, b: Seq<u64>, p: int, j: int)
    requires
        0 < p <= u64::MAX,
    ensures
        cm(coef(mulz(a, b, p), j), conv(a, b, j), p),
{
    let s = mulz(a, b, p);
    if 0 <= j < a.len() + b.len() {
        let x = conv(a, b, j) % p;
        lemma_mod_bound(conv(a, b, j), p);
        assert(s[j] == (x as u64));
        assert(coef(s, j) == x);
        lemma_cm_red(conv(a, b, j), p);
    } else {
        if j >= 0 {
            lemma_conv_support(a, b, j, a.len() as int);
        } else {
            lemma_conv_support(a, b, j, a.len() as int);
        }
        assert(coef(s, j) == 0);
    }
}

/// `mulz` does not depend on the order of the factors.
pub proof fn lemma_mulz_comm(a: Seq<u64>, b: Seq<u64>, p: int)
    ensures
        mulz(a, b, p) == mulz(b, a, p),
{
    let x = mulz(a, b, p);
    let y = mulz(b, a, p);
    assert forall|k: int| 0 <= k < x.len() implies x[k] == y[k] by {
        lemma_conv_comm(a, b, k);
    }
    assert(x =~= y);
}

/// `(a * b) * c` and `a * (b * c)` agree modulo `p`, with `mulz` inside.
pub proof fn lemma_assoc_mulz(a: Seq<u64>, b: Seq<u64>, c: Seq<u64>, i: int, p: int)
    requires
        0 < p <= u64::MAX,
    ensures
        cm(conv(mulz(a, b, p), c, i), conv(a, mulz(b, c, p), i), p),
{
    let ab = mulz(a, b, p);
    let bc = mulz(b, c, p);
    let t: int = (a.len() + b.len()) as int;
    let l = assoc_left(a, b, c, i, a.len() as int);
    let r = assoc_right(a, b, c, i);
    lemma_conv_assoc(a, b, c, i, a.len() as int, t);
    let h1 = conv_term(ab, c, i);
    assert forall|m: int| 0 <= m < t implies cm(#[trigger] h1(m), l(m), p) by {
        lemma_mulz_cm(a, b, p, m);
        lemma_cm_mul(coef(c, i - m), coef(ab, m), conv(a, b, m), p);
        let x = coef(ab, m);
        let y = conv(a, b, m);
        let z = coef(c, i - m);
        assert(z * x == x * z && z * y == y * z) by (nonlinear_arith);
    }
    lemma_fsum_cm(h1, l, t, p);
    lemma_conv_len(ab, c, i, t);
    let h2 = conv_term(a, bc, i);
    assert forall|j: int| 0 <= j < a.len() implies cm(#[trigger] h2(j), r(j), p) by {
        lemma_mulz_cm(b, c, p, i - j);
        lemma_cm_mul(coef(a, j), coef(bc, i - j), conv(b, c, i - j), p);
    }
    lemma_fsum_cm(h2, r, a.len() as int, p);
    lemma_conv_len(a, bc, i, a.len() as int);
}

/// The coefficients of `add_seq` are sums modulo `p`.
pub proof fn lemma_add_seq_cm(a: Seq<u64>, b: Seq<u64>, p: int, j: int)
    requires
        0 < p <= u64::MAX,
    ensures
        cm(coef(add_seq(a, b, p), j), coef(a, j) + coef(b, j), p),
{
    let s = add_seq(a, b, p);
    if 0 <= j < max_len(a, b) {
        let x = (coef(a, j) + coef(b, j)) % p;
        lemma_mod_bound(coef(a, j) + coef(b, j), p);
        assert(s[j] == (x as u64));
        assert(coef(s, j) == x);
        lemma_cm_red(coef(a, j) + coef(b, j), p);
    } else {
        assert(coef(a, j) == 0 && coef(b, j) == 0);
        assert(coef(s, j) == 0);
    }
}

/// `z * g + h` is a multiple of `q` modulo `p`: `t * q`.
pub open spec fn root_with(z: Seq<u64>, g: Seq<u64>, h: Seq<u64>, t: Seq<u64>, q: Seq<u64>, p: int) -> bool {
    forall|i: int| #[trigger] cm(conv(z, g, i) + coef(h, i), conv(t, q, i), p)
}

/// `z` solves `g * z + h = 0` modulo `q` and `p`.
pub open spec fn root_mod(z: Seq<u64>, g: Seq<u64>, h: Seq<u64>, q: Seq<u64>, p: int) -> bool {
    exists|t: Seq<u64>| #[trigger] root_with(z, g, h, t, q, p)
}


/// A division identity read as a congruence: `a` is `mulz(qd, d) + r`.
proof fn lemma_division_cm(a: Seq<u64>, qd: Seq<u64>, d: Seq<u64>, r: Seq<u64>, p: int, k: int)
    requires
        0 < p <= u64::MAX,
        division_identity(a, qd, d, r, p),
    ensures
        cm(coef(a, k), 1 * coef(mulz(qd, d, p), k) + 1 * coef(r, k), p),
{
    assert(coef(a, k) == (conv(qd, d, k) + coef(r, k)) % p);
    lemma_cm_red(conv(qd, d, k) + coef(r, k), p);
    lemma_mulz_cm(qd, d, p, k);
    lemma_cm_add(coef(mulz(qd, d, p), k), conv(qd, d, k), coef(r, k), coef(r, k), p);
}

/// The residue of `-z * g - h` computed as in `express_var_as_modular_poly`
/// solves `g * z + h = 0` modulo `q`: with `gr`, `hr` the remainders of `g`,
/// `h` by `q`, `inv` an inverse of `gr`, `prod` the product `hr * inv` and
/// `product` its remainder, `z = -product` gives `z * g + h` a multiple of `q`.
pub proof fn lemma_root(
    g: Seq<u64>,
    h: Seq<u64>,
    gr: Seq<u64>,
    hr: Seq<u64>,
    qg: Seq<u64>,
    qh: Seq<u64>,
    inv: Seq<u64>,
    t1: Seq<u64>,
    prod: Seq<u64>,
    qq: Seq<u64>,
    product: Seq<u64>,
    z: Seq<u64>,
    q: Seq<u64>,
    p: int,
)
    requires
        0 < p <= u64::MAX,
        division_identity(g, qg, q, gr, p),
        division_identity(h, qh, q, hr, p),
        bezout(seq![1u64], inv, t1, gr, q, p),
        forall|j: int| #[trigger] cm(coef(prod, j), conv(hr, inv, j), p),
        division_identity(prod, qq, q, product, p),
        forall|j: int| #[trigger] cm(coef(z, j), 0 - coef(product, j), p),
    ensures
        root_mod(z, g, h, q, p),
{
    let a = mulz(qg, q, p);
    let b = mulz(qq, q, p);
    let c = mulz(hr, inv, p);
    let d = mulz(t1, q, p);
    let ig = mulz(inv, gr, p);
    let e1 = mulz(z, qg, p);
    let e2 = mulz(hr, t1, p);
    let e3 = mulz(qq, gr, p);
    let e12 = add_seq(e1, e2, p);
    let e3h = add_seq(e3, qh, p);
    let t = add_seq(e12, e3h, p);
    let one = seq![1u64];
    assert forall|j: int| #[trigger] cm(coef(g, j), 1 * coef(a, j) + 1 * coef(gr, j), p) by {
        lemma_division_cm(g, qg, q, gr, p, j);
    }
    assert forall|j: int| #[trigger] cm(coef(z, j), -1 * coef(c, j) + 1 * coef(b, j), p) by {
        lemma_division_cm(prod, qq, q, product, p, j);
        lemma_mulz_cm(hr, inv, p, j);
        assert(cm(coef(prod, j), conv(hr, inv, j), p));
        assert(cm(coef(prod, j), coef(c, j), p));
        lemma_cm_sub(coef(prod, j), 1 * coef(b, j) + 1 * coef(product, j), coef(b, j), coef(b, j), p);
        assert(cm(coef(product, j), coef(prod, j) - coef(b, j), p));
        lemma_cm_sub(coef(prod, j), coef(c, j), coef(b, j), coef(b, j), p);
        assert(cm(coef(product, j), coef(c, j) - coef(b, j), p));
        lemma_cm_sub(0, 0, coef(product, j), coef(c, j) - coef(b, j), p);
        assert(cm(coef(z, j), 0 - coef(product, j), p));
        assert(0 - (coef(c, j) - coef(b, j)) == -1 * coef(c, j) + 1 * coef(b, j));
    }
    assert forall|j: int| #[trigger] cm(coef(ig, j), 1 * coef(one, j) + -1 * coef(d, j), p) by {
        lemma_mulz_cm(inv, gr, p, j);
        lemma_mulz_cm(t1, q, p, j);
        assert(cm(coef(one, j), conv(inv, gr, j) + conv(t1, q, j), p));
        lemma_cm_sub(coef(one, j), conv(inv, gr, j) + conv(t1, q, j), coef(d, j), conv(t1, q, j), p);
    }
    assert forall|j: int| #[trigger] cm(coef(e12, j), 1 * coef(e1, j) + 1 * coef(e2, j), p) by {
        lemma_add_seq_cm(e1, e2, p, j);
    }
    assert forall|j: int| #[trigger] cm(coef(e3h, j), 1 * coef(e3, j) + 1 * coef(qh, j), p) by {
        lemma_add_seq_cm(e3, qh, p, j);
    }
    assert forall|j: int| #[trigger] cm(coef(t, j), 1 * coef(e12, j) + 1 * coef(e3h, j), p) by {
        lemma_add_seq_cm(e12, e3h, p, j);
    }
    assert forall|i: int| #[trigger] cm(conv(z, g, i) + coef(h, i), conv(t, q, i), p) by {
        // z * g = z * (qg * q) + z * gr
        lemma_lin2_conv_right(z, g, a, gr, 1, 1, i, p);
        lemma_assoc_mulz(z, qg, q, i, p);
        // z * gr = -(hr * inv) * gr + (qq * q) * gr
        lemma_lin2_conv(z, c, b, gr, -1, 1, i, p);
        lemma_assoc_mulz(hr, inv, gr, i, p);
        lemma_lin2_conv_right(hr, ig, one, d, 1, -1, i, p);
        lemma_conv_comm(hr, one, i);
        lemma_conv_const_left(1u64, hr, i);
        lemma_assoc_mulz(hr, t1, q, i, p);
        lemma_mulz_comm(qq, q, p);
        lemma_assoc_mulz(q, qq, gr, i, p);
        lemma_conv_comm(q, e3, i);
        // h = qh * q + hr
        lemma_division_cm(h, qh, q, hr, p, i);
        lemma_mulz_cm(qh, q, p, i);
        // t * q
        lemma_lin2_conv(t, e12, e3h, q, 1, 1, i, p);
        lemma_lin2_conv(e12, e1, e2, q, 1, 1, i, p);
        lemma_lin2_conv(e3h, e3, qh, q, 1, 1, i, p);
        let zg = conv(z, g, i);
        let za = conv(z, a, i);
        let zgr = conv(z, gr, i);
        let x1 = conv(e1, q, i);
        let cg = conv(c, gr, i);
        let bg = conv(b, gr, i);
        let hig = conv(hr, ig, i);
        let h1 = conv(hr, one, i);
        let hd = conv(hr, d, i);
        let x2 = conv(e2, q, i);
        let x3 = conv(e3, q, i);
        let x4 = conv(qh, q, i);
        let hi = coef(h, i);
        let hri = coef(hr, i);
        assert(cm(zg, za + zgr, p));
        assert(cm(za, x1, p));
        assert(cm(zgr, -cg + bg, p));
        assert(cm(cg, hig, p));
        assert(cm(hig, h1 - hd, p));
        assert(h1 == hri);
        assert(cm(hd, x2, p));
        assert(cm(bg, x3, p));
        assert(cm(hi, coef(mulz(qh, q, p), i) + hri, p));
        assert(cm(coef(mulz(qh, q, p), i), x4, p));
        lemma_cm_sub(hig, h1 - hd, 0, 0, p);
        lemma_cm_sub(h1, h1, hd, x2, p);
        lemma_cm_sub(0, 0, cg, hri - x2, p);
        lemma_cm_add(-cg, -(hri - x2), bg, x3, p);
        lemma_cm_add(za, x1, zgr, -(hri - x2) + x3, p);
        lemma_cm_add(coef(mulz(qh, q, p), i), x4, hri, hri, p);
        lemma_cm_add(zg, x1 + (-(hri - x2) + x3), hi, x4 + hri, p);
        assert(x1 + (-(hri - x2) + x3) + (x4 + hri) == 1 * (1 * x1 + 1 * x2) + 1 * (1 * x3 + 1 * x4));
        let s12 = conv(e12, q, i);
        let s3h = conv(e3h, q, i);
        lemma_cm_add(s12, 1 * x1 + 1 * x2, s3h, 1 * x3 + 1 * x4, p);
    }
    assert(root_with(z, g, h, t, q, p));
}


/// `g` is a multiple of `q` modulo `p`.
pub open spec fn zero_mod(g: Seq<u64>, q: Seq<u64>, p: int) -> bool {
    exists|qg: Seq<u64>| #[trigger] division_identity(g, qg, q, seq![0u64], p)
}

/// When `g` and `h` are both multiples of `q`, every `z` solves `g * z + h = 0`.
pub proof fn lemma_root_trivial(g: Seq<u64>, h: Seq<u64>, z: Seq<u64>, q: Seq<u64>, p: int)
    requires
        0 < p <= u64::MAX,
        zero_mod(g, q, p),
        zero_mod(h, q, p),
    ensures
        root_mod(z, g, h, q, p),
{
    let zero = seq![0u64];
    let qg = choose|qg: Seq<u64>| #[trigger] division_identity(g, qg, q, zero, p);
    let qh = choose|qh: Seq<u64>| #[trigger] division_identity(h, qh, q, zero, p);
    let a = mulz(qg, q, p);
    let e1 = mulz(z, qg, p);
    let t = add_seq(e1, qh, p);
    assert forall|j: int| #[trigger] cm(coef(g, j), 1 * coef(a, j) + 1 * coef(zero, j), p) by {
        lemma_division_cm(g, qg, q, zero, p, j);
    }
    assert forall|j: int| #[trigger] cm(coef(t, j), 1 * coef(e1, j) + 1 * coef(qh, j), p) by {
        lemma_add_seq_cm(e1, qh, p, j);
    }
    assert forall|i: int| #[trigger] cm(conv(z, g, i) + coef(h, i), conv(t, q, i), p) by {
        lemma_lin2_conv_right(z, g, a, zero, 1, 1, i, p);
        assert forall|j: int| #[trigger] coef(zero, j) == 0 by {}
        lemma_conv_zero_right(z, zero, i, z.len() as int);
        lemma_assoc_mulz(z, qg, q, i, p);
        lemma_division_cm(h, qh, q, zero, p, i);
        lemma_mulz_cm(qh, q, p, i);
        lemma_lin2_conv(t, e1, qh, q, 1, 1, i, p);
        let x1 = conv(e1, q, i);
        let x4 = conv(qh, q, i);
        assert(coef(zero, i) == 0);
        assert(cm(conv(z, g, i), x1, p));
        assert(cm(coef(h, i), x4, p));
        lemma_cm_add(conv(z, g, i), x1, coef(h, i), x4, p);
    }
    assert(root_with(z, g, h, t, q, p));
}

/// The coefficients that `ModularPoly::mul` gives are those of the product modulo `p`.
pub proof fn lemma_mul_result_cm(a: Seq<u64>, b: Seq<u64>, res: Seq<u64>, p: int)
    requires
        0 < p <= u64::MAX,
        seq_is_zero(a) || seq_is_zero(b) ==> res == seq![0u64],
        !seq_is_zero(a) && !seq_is_zero(b) ==> res == trim(mul_seq(a, b, p)),
    ensures
        forall|j: int| #[trigger] cm(coef(res, j), conv(a, b, j), p),
{
    assert forall|j: int| #[trigger] cm(coef(res, j), conv(a, b, j), p) by {
        if seq_is_zero(a) {
            assert forall|i: int| #[trigger] coef(a, i) == 0 by {}
            lemma_conv_zero_left(a, b, j, a.len() as int);
            assert(coef(res, j) == 0);
        } else if seq_is_zero(b) {
            assert forall|i: int| #[trigger] coef(b, i) == 0 by {}
            lemma_conv_zero_right(a, b, j, a.len() as int);
            assert(coef(res, j) == 0);
        } else {
            let m = mul_seq(a, b, p);
            assert forall|i: int| 0 <= i < m.len() implies #[trigger] m[i] < p by {
                lemma_mod_bound(conv(a, b, i), p);
            }
            lemma_trim_props(m, p);
            lemma_mul_seq_cm(a, b, p, j);
        }
    }
}

/// The coefficients of `0 - b` as `ModularPoly::sub` gives them.
pub proof fn lemma_neg_result_cm(b: Seq<u64>, res: Seq<u64>, p: int)
    requires
        0 < p <= u64::MAX,
        res == trim(sub_seq(seq![0u64], b, p)),
    ensures
        forall|j: int| #[trigger] cm(coef(res, j), 0 - coef(b, j), p),
        res.len() <= 1 || res.len() <= b.len(),
{
    let m = sub_seq(seq![0u64], b, p);
    assert forall|i: int| 0 <= i < m.len() implies #[trigger] m[i] < p by {
        lemma_mod_bound(coef(seq![0u64], i) - coef(b, i), p);
    }
    lemma_trim_props(m, p);
    assert forall|j: int| #[trigger] cm(coef(res, j), 0 - coef(b, j), p) by {
        lemma_sub_seq_cm(seq![0u64], b, p, j);
        assert(coef(seq![0u64], j) == 0);
    }
}


/// An inverse modulo `q` read as a division: `a * s` leaves the remainder 1
/// when divided by `q`, coefficients taken modulo `p`.
pub proof fn lemma_inverse_division(s: Seq<u64>, a: Seq<u64>, q: Seq<u64>, p: int)
    requires
        0 < p <= u64::MAX,
        inverse_mod(s, a, q, p),
    ensures
        exists|qq: Seq<u64>| #[trigger] division_identity(mulz(a, s, p), qq, q, seq![1u64], p),
{
    let one = seq![1u64];
    let t = choose|t: Seq<u64>| #[trigger] bezout(one, s, t, a, q, p);
    let negt = sub_seq(seq![0u64], t, p);
    let m = mulz(a, s, p);
    assert forall|j: int| #[trigger] cm(coef(negt, j), -1 * coef(t, j), p) by {
        lemma_sub_seq_cm(seq![0u64], t, p, j);
        assert(coef(seq![0u64], j) == 0);
    }
    assert forall|k: int| #[trigger] coef(m, k) == (conv(negt, q, k) + coef(one, k)) % p by {
        lemma_mulz_cm(a, s, p, k);
        if 0 <= k < m.len() {
            lemma_mod_bound(conv(a, s, k), p);
        }
        lemma_small_mod(coef(m, k) as nat, p as nat);
        lemma_scale_conv(negt, t, q, -1, k, p);
        lemma_conv_comm(s, a, k);
        assert(cm(coef(one, k), conv(s, a, k) + conv(t, q, k), p));
        lemma_cm_add(conv(negt, q, k), -1 * conv(t, q, k), coef(one, k), conv(s, a, k) + conv(t, q, k), p);
        assert(-1 * conv(t, q, k) + (conv(s, a, k) + conv(t, q, k)) == conv(a, s, k));
    }
    assert(division_identity(m, negt, q, one, p));
}

} // verus!
