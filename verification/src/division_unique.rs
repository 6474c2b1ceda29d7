//! The remainder of a division modulo `p` by a polynomial whose leading
//! coefficient is invertible is unique: two quotients that leave remainders
//! below the divisor's degree agree modulo `p`, and so do the remainders.

use vstd::prelude::*;
use vstd::arithmetic::div_mod::{
    lemma_fundamental_div_mod, lemma_mod_multiples_vanish, lemma_mod_multiples_basic, lemma_mul_mod_noop_left,
    lemma_mul_mod_noop_right,
};
use crate::modular_poly::{
    coef, conv, conv_upto, division_identity, seq_degree, leading, has_inverse, reduced, seq_is_zero,
    lemma_conv_upto_beyond,
};

verus! {

/// The sum of `(q1[i] - q2[i]) * d[k - i]` for `i < n`.
pub open spec fn diff_conv(q1: Seq<u64>, q2: Seq<u64>, d: Seq<u64>, k: int, n: int) -> int
    decreases n,
{
    if n <= 0 {
        0
    } else {
        diff_conv(q1, q2, d, k, n - 1) + (coef(q1, n - 1) - coef(q2, n - 1)) * coef(d, k - (n - 1))
    }
}

/// The difference of two partial products is the partial product of the difference.
proof fn lemma_diff_conv(q1: Seq<u64>, q2: Seq<u64>, d: Seq<u64>, k: int, n: int)
    requires
        n >= 0,
    ensures
        conv_upto(q1, d, k, n) - conv_upto(q2, d, k, n) == diff_conv(q1, q2, d, k, n),
    decreases n,
{
    if n > 0 {
        lemma_diff_conv(q1, q2, d, k, n - 1);
        let x = coef(q1, n - 1);
        let z = coef(q2, n - 1);
        let y = coef(d, k - (n - 1));
        assert(x * y - z * y == (x - z) * y) by (nonlinear_arith);
    }
}

/// At `k = t + deg`, the terms below `t` meet coefficients of `d` above its degree.
proof fn lemma_diff_conv_low(q1: Seq<u64>, q2: Seq<u64>, d: Seq<u64>, k: int, n: int, t: int)
    requires
        0 <= n <= t,
        d.len() >= 1,
        k == t + d.len() - 1,
    ensures
        diff_conv(q1, q2, d, k, n) == 0,
    decreases n,
{
    if n > 0 {
        lemma_diff_conv_low(q1, q2, d, k, n - 1, t);
        assert(coef(d, k - (n - 1)) == 0);
        let e = coef(q1, n - 1) - coef(q2, n - 1);
        assert(e * 0 == 0) by (nonlinear_arith);
    }
}

/// A multiple of `p` added to `x` leaves its residue.
proof fn lemma_add_multiple(x: int, e: int, y: int, p: int)
    requires
        p > 0,
        e % p == 0,
    ensures
        (x + e * y) % p == x % p,
{
    lemma_fundamental_div_mod(e, p);
    let c = e / p;
    assert(e * y == p * (c * y)) by (nonlinear_arith)
        requires
            e == p * c + 0,
    ;
    lemma_mod_multiples_vanish(c * y, x, p);
}

/// At `k = t + deg`, when the differences above `t` vanish modulo `p`, the
/// sum is the difference at `t` times the leading coefficient, modulo `p`.
proof fn lemma_diff_conv_top(q1: Seq<u64>, q2: Seq<u64>, d: Seq<u64>, k: int, n: int, t: int, p: int)
    requires
        p > 0,
        0 <= t < n,
        d.len() >= 1,
        k == t + d.len() - 1,
        forall|i: int| i > t ==> #[trigger] (coef(q1, i) - coef(q2, i)) % p == 0,
    ensures
        diff_conv(q1, q2, d, k, n) % p == ((coef(q1, t) - coef(q2, t)) * coef(d, d.len() - 1)) % p,
    decreases n,
{
    if n == t + 1 {
        lemma_diff_conv_low(q1, q2, d, k, t, t);
    } else {
        lemma_diff_conv_top(q1, q2, d, k, n - 1, t, p);
        let e = coef(q1, n - 1) - coef(q2, n - 1);
        assert(e % p == 0);
        lemma_add_multiple(diff_conv(q1, q2, d, k, n - 1), e, coef(d, k - (n - 1)), p);
    }
}

/// When every difference vanishes modulo `p`, so does the sum.
proof fn lemma_diff_conv_all(q1: Seq<u64>, q2: Seq<u64>, d: Seq<u64>, k: int, n: int, p: int)
    requires
        p > 0,
        n >= 0,
        forall|i: int| #[trigger] (coef(q1, i) - coef(q2, i)) % p == 0,
    ensures
        diff_conv(q1, q2, d, k, n) % p == 0,
    decreases n,
{
    if n > 0 {
        lemma_diff_conv_all(q1, q2, d, k, n - 1, p);
        let e = coef(q1, n - 1) - coef(q2, n - 1);
        assert(e % p == 0);
        lemma_add_multiple(diff_conv(q1, q2, d, k, n - 1), e, coef(d, k - (n - 1)), p);
    } else {
        lemma_mod_multiples_basic(0, p);
    }
}

/// Two numbers with one residue differ by a multiple of `p`.
proof fn lemma_same_mod(x: int, y: int, p: int)
    requires
        p > 0,
        x % p == y % p,
    ensures
        (x - y) % p == 0,
{
    lemma_fundamental_div_mod(x, p);
    lemma_fundamental_div_mod(y, p);
    let c = x / p - y / p;
    assert(x - y == c * p) by (nonlinear_arith)
        requires
            x == p * (x / p) + x % p,
            y == p * (y / p) + y % p,
            x % p == y % p,
            c == x / p - y / p,
    ;
    lemma_mod_multiples_basic(c, p);
}

/// The larger of the two lengths.
pub open spec fn longer(q1: Seq<u64>, q2: Seq<u64>) -> int {
    if q1.len() >= q2.len() {
        q1.len() as int
    } else {
        q2.len() as int
    }
}

/// The two quotients agree modulo `p` from position `t` on.
proof fn lemma_quotients_agree(
    a: Seq<u64>,
    q1: Seq<u64>,
    r1: Seq<u64>,
    q2: Seq<u64>,
    r2: Seq<u64>,
    d: Seq<u64>,
    p: int,
    t: int,
)
    requires
        p >= 2,
        d.len() >= 1,
        has_inverse(coef(d, d.len() - 1), p),
        division_identity(a, q1, d, r1, p),
        division_identity(a, q2, d, r2, p),
        forall|k: int| k >= d.len() - 1 ==> #[trigger] coef(r1, k) == 0 && coef(r2, k) == 0,
        0 <= t,
    ensures
        forall|i: int| i >= t ==> #[trigger] (coef(q1, i) - coef(q2, i)) % p == 0,
    decreases longer(q1, q2) - t,
{
    let n = longer(q1, q2);
    if t >= n {
        assert forall|i: int| i >= t implies #[trigger] (coef(q1, i) - coef(q2, i)) % p == 0 by {
            lemma_mod_multiples_basic(0, p);
        }
    } else {
        lemma_quotients_agree(a, q1, r1, q2, r2, d, p, t + 1);
        let k = t + d.len() - 1;
        assert(coef(a, k) == (conv(q1, d, k) + coef(r1, k)) % p);
        assert(coef(a, k) == (conv(q2, d, k) + coef(r2, k)) % p);
        assert(coef(r1, k) == 0 && coef(r2, k) == 0);
        lemma_conv_upto_beyond(q1, d, k, n);
        lemma_conv_upto_beyond(q2, d, k, n);
        lemma_same_mod(conv(q1, d, k), conv(q2, d, k), p);
        lemma_diff_conv(q1, q2, d, k, n);
        assert forall|i: int| i > t implies #[trigger] (coef(q1, i) - coef(q2, i)) % p == 0 by {
            assert(i >= t + 1);
        }
        lemma_diff_conv_top(q1, q2, d, k, n, t, p);
        let e = coef(q1, t) - coef(q2, t);
        let l = coef(d, d.len() - 1);
        assert((e * l) % p == 0);
        let y = choose|y: int| #[trigger] ((l * y) % p) == 1;
        lemma_mul_mod_noop_left(e * l, y, p);
        assert(((e * l) % p) * y == 0 * y);
        assert(0 * y == 0) by (nonlinear_arith);
        lemma_mod_multiples_basic(0, p);
        assert((e * l * y) % p == 0);
        assert(e * l * y == e * (l * y)) by (nonlinear_arith);
        lemma_mul_mod_noop_right(e, l * y, p);
        assert(e * 1 == e);
        assert(e % p == 0);
    }
}

/// Two remainders of one division by `d` modulo `p` are the same when the
/// leading coefficient of `d` is invertible and both stay below its degree.
pub proof fn lemma_remainder_unique(
    a: Seq<u64>,
    q1: Seq<u64>,
    r1: Seq<u64>,
    q2: Seq<u64>,
    r2: Seq<u64>,
    d: Seq<u64>,
    p: int,
)
    requires
        p >= 2,
        d.len() >= 1,
        has_inverse(leading(d), p),
        division_identity(a, q1, d, r1, p),
        division_identity(a, q2, d, r2, p),
        reduced(r1, p),
        reduced(r2, p),
        seq_is_zero(r1) || r1.len() <= seq_degree(d),
        seq_is_zero(r2) || r2.len() <= seq_degree(d),
    ensures
        forall|k: int| #[trigger] coef(r1, k) == coef(r2, k),
{
    assert(leading(d) == coef(d, d.len() - 1));
    assert forall|k: int| k >= d.len() - 1 implies #[trigger] coef(r1, k) == 0 && coef(r2, k) == 0 by {}
    lemma_quotients_agree(a, q1, r1, q2, r2, d, p, 0);
    let n = longer(q1, q2);
    assert forall|k: int| #[trigger] coef(r1, k) == coef(r2, k) by {
        assert(coef(a, k) == (conv(q1, d, k) + coef(r1, k)) % p);
        assert(coef(a, k) == (conv(q2, d, k) + coef(r2, k)) % p);
        lemma_conv_upto_beyond(q1, d, k, n);
        lemma_conv_upto_beyond(q2, d, k, n);
        lemma_diff_conv(q1, q2, d, k, n);
        assert forall|i: int| #[trigger] (coef(q1, i) - coef(q2, i)) % p == 0 by {
            if i < 0 {
                lemma_mod_multiples_basic(0, p);
            }
        }
        lemma_diff_conv_all(q1, q2, d, k, n, p);
        let c1 = conv(q1, d, k);
        let c2 = conv(q2, d, k);
        let x1 = c1 + coef(r1, k);
        let x2 = c2 + coef(r2, k);
        lemma_same_mod(x1, x2, p);
        lemma_fundamental_div_mod(c1 - c2, p);
        lemma_fundamental_div_mod(x1 - x2, p);
        let m1 = (c1 - c2) / p;
        let m2 = (x1 - x2) / p;
        let u = coef(r1, k);
        let v = coef(r2, k);
        assert(0 <= u < p && 0 <= v < p);
        assert(u == v) by (nonlinear_arith)
            requires
                c1 - c2 == p * m1 + 0,
                x1 - x2 == p * m2 + 0,
                x1 == c1 + u,
                x2 == c2 + v,
                0 <= u < p,
                0 <= v < p,
        ;
    }
}

} // verus!
