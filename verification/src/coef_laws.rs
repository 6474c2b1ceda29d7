//! A polynomial read as a polynomial in one variable: the coefficients of the
//! powers of that variable rebuild it, and substituting a quotient for the
//! variable agrees with the polynomial wherever the quotient is the variable.

use vstd::prelude::*;
use vstd::arithmetic::power::{pow, lemma_pow_adds, lemma_pow_distributes};
use crate::spoly::{SPoly, eval, eval_from, ordered};
use crate::poly_ops::degree_in;
use crate::poly_struct::{coef_tree, coef_map, lemma_coef_beyond, lemma_degree_max_bound, lemma_degree_nonneg};
use crate::poly_subst::{linear_sub_upto, linear_sub_value};

verus! {

/// `f(0) + f(1) + ... + f(n - 1)`.
pub open spec fn sum_to(f: spec_fn(int) -> int, n: int) -> int
    decreases n,
{
    if n <= 0 {
        0
    } else {
        sum_to(f, n - 1) + f(n - 1)
    }
}

/// The terms `c_i * x^i` of a tree read as a polynomial in `v`, where `c_i`
/// is the coefficient of `v^i` and `x` the value of `v`.
pub open spec fn coef_terms(s: SPoly, v: u8, env: spec_fn(u8) -> int) -> spec_fn(int) -> int {
    |i: int| eval(coef_tree(s, v, i), env) * pow(env(v), i as nat)
}

/// The terms `cs[k] * y^k` of a coefficient sequence of a node in `w`.
pub open spec fn seq_terms(cs: Seq<SPoly>, w: u8, env: spec_fn(u8) -> int) -> spec_fn(int) -> int {
    |k: int| if 0 <= k < cs.len() { eval(cs[k], env) * pow(env(w), k as nat) } else { 0 }
}

/// The column `k` of a table of numbers.
spec fn column(f: spec_fn(int, int) -> int, k: int) -> spec_fn(int) -> int {
    |i: int| f(k, i)
}

/// The row `i` of a table of numbers.
spec fn row(f: spec_fn(int, int) -> int, i: int) -> spec_fn(int) -> int {
    |k: int| f(k, i)
}

/// The sums of the first `n` entries of each column.
spec fn column_sums(f: spec_fn(int, int) -> int, n: int) -> spec_fn(int) -> int {
    |k: int| sum_to(column(f, k), n)
}

/// The sums of the first `m` entries of each row.
spec fn row_sums(f: spec_fn(int, int) -> int, m: int) -> spec_fn(int) -> int {
    |i: int| sum_to(row(f, i), m)
}

/// Sums of equal terms are equal.
proof fn lemma_sum_ext(f: spec_fn(int) -> int, g: spec_fn(int) -> int, n: int)
    requires
        forall|i: int| 0 <= i < n ==> #[trigger] f(i) == g(i),
    ensures
        sum_to(f, n) == sum_to(g, n),
    decreases n,
{
    if n > 0 {
        lemma_sum_ext(f, g, n - 1);
    }
}

/// Terms that are zero add nothing.
proof fn lemma_sum_zero_tail(f: spec_fn(int) -> int, n: int, m: int)
    requires
        0 <= n <= m,
        forall|i: int| n <= i < m ==> #[trigger] f(i) == 0,
    ensures
        sum_to(f, m) == sum_to(f, n),
    decreases m,
{
    if m > n {
        lemma_sum_zero_tail(f, n, m - 1);
    }
}

/// The sum of termwise sums is the sum of the two sums.
proof fn lemma_sum_add(f: spec_fn(int) -> int, g: spec_fn(int) -> int, h: spec_fn(int) -> int, n: int)
    requires
        forall|i: int| 0 <= i < n ==> #[trigger] h(i) == f(i) + g(i),
    ensures
        sum_to(h, n) == sum_to(f, n) + sum_to(g, n),
    decreases n,
{
    if n > 0 {
        lemma_sum_add(f, g, h, n - 1);
    }
}

/// A common factor comes out of a sum.
proof fn lemma_sum_scale(f: spec_fn(int) -> int, g: spec_fn(int) -> int, c: int, n: int)
    requires
        forall|i: int| 0 <= i < n ==> #[trigger] g(i) == f(i) * c,
    ensures
        sum_to(g, n) == sum_to(f, n) * c,
    decreases n,
{
    if n > 0 {
        lemma_sum_scale(f, g, c, n - 1);
        assert((sum_to(f, n - 1) + f(n - 1)) * c == sum_to(f, n - 1) * c + f(n - 1) * c) by (nonlinear_arith);
    }
}

/// A table sums to the same by rows and by columns.
proof fn lemma_sum_swap(f: spec_fn(int, int) -> int, m: int, n: int)
    requires
        m >= 0,
    ensures
        sum_to(row_sums(f, m), n) == sum_to(column_sums(f, n), m),
    decreases n,
{
    if n <= 0 {
        assert forall|k: int| 0 <= k < m implies #[trigger] column_sums(f, n)(k) == (|k: int| 0int)(k) by {}
        lemma_sum_ext(column_sums(f, n), |k: int| 0int, m);
        lemma_sum_zero_tail(|k: int| 0int, 0, m);
    } else {
        lemma_sum_swap(f, m, n - 1);
        assert forall|k: int| 0 <= k < m implies #[trigger] column_sums(f, n)(k) == column_sums(f, n - 1)(k) + row(
            f,
            n - 1,
        )(k) by {
            assert(column(f, k)(n - 1) == row(f, n - 1)(k));
        }
        lemma_sum_add(column_sums(f, n - 1), row(f, n - 1), column_sums(f, n), m);
    }
}

/// A node's value is the sum of its coefficients times the powers of its variable.
proof fn lemma_eval_from_sum(cs: Seq<SPoly>, w: u8, env: spec_fn(u8) -> int, j: int)
    requires
        0 <= j <= cs.len(),
    ensures
        eval_from(cs, w, env, 0) == sum_to(seq_terms(cs, w, env), j) + pow(env(w), j as nat) * eval_from(
            cs,
            w,
            env,
            j,
        ),
    decreases j,
{
    reveal(pow);
    if j == 0 {
        assert(pow(env(w), 0) == 1);
    } else {
        lemma_eval_from_sum(cs, w, env, j - 1);
        let x = env(w);
        let pj = pow(x, (j - 1) as nat);
        assert(pow(x, j as nat) == x * pj);
        let e = eval_from(cs, w, env, j);
        let c = eval(cs[j - 1], env);
        assert(eval_from(cs, w, env, j - 1) == c + x * e);
        assert(pj * (c + x * e) == c * pj + (x * pj) * e) by (nonlinear_arith);
    }
}

/// `eval_from` over a whole sequence is a sum.
proof fn lemma_eval_seq_sum(cs: Seq<SPoly>, w: u8, env: spec_fn(u8) -> int)
    ensures
        eval_from(cs, w, env, 0) == sum_to(seq_terms(cs, w, env), cs.len() as int),
{
    lemma_eval_from_sum(cs, w, env, cs.len() as int);
    assert(eval_from(cs, w, env, cs.len() as int) == 0);
    assert(pow(env(w), cs.len()) * 0 == 0) by (nonlinear_arith);
}

/// The table `c_{k,i} y^k x^i` of a node in `w` below `v`: `c_{k,i}` is the
/// coefficient of `v^i` in coefficient `k` of the node.
spec fn grid(cs: Seq<SPoly>, v: u8, w: u8, env: spec_fn(u8) -> int) -> spec_fn(int, int) -> int {
    |k: int, i: int|
        if 0 <= k < cs.len() {
            eval(coef_tree(cs[k], v, i), env) * pow(env(w), k as nat) * pow(env(v), i as nat)
        } else {
            0
        }
}

/// Any number of terms beyond the degree rebuilds the polynomial.
proof fn lemma_coef_sum(s: SPoly, v: u8, env: spec_fn(u8) -> int, n: int)
    requires
        ordered(s),
        n > degree_in(s, v),
    ensures
        eval(s, env) == sum_to(coef_terms(s, v, env), n),
    decreases s,
{
    reveal(pow);
    lemma_degree_nonneg(s, v);
    let t = coef_terms(s, v, env);
    assert forall|i: int| degree_in(s, v) < i < n implies #[trigger] t(i) == 0 by {
        lemma_coef_beyond(s, v, i, env);
    }
    lemma_sum_zero_tail(t, degree_in(s, v) + 1, n);
    match s {
        SPoly::Constant(_) => {
            assert(pow(env(v), 0) == 1);
            assert(coef_tree(s, v, 0) == s);
            assert(t(0) == eval(s, env) * 1);
            assert(sum_to(t, 0) == 0);
            assert(sum_to(t, 1) == t(0));
            assert(eval(s, env) * 1 == eval(s, env)) by (nonlinear_arith);
            assert(t(0) == eval(s, env));
            assert(sum_to(t, degree_in(s, v) + 1) == t(0));
        },
        SPoly::Nested(w, cs) => {
            if w > v {
                assert(pow(env(v), 0) == 1);
                assert(coef_tree(s, v, 0) == s);
                assert(eval(s, env) * 1 == eval(s, env)) by (nonlinear_arith);
                assert(t(0) == eval(s, env));
                assert(sum_to(t, 0) == 0);
                assert(sum_to(t, 1) == t(0));
            } else if w == v {
                lemma_eval_seq_sum(cs, w, env);
                assert forall|i: int| 0 <= i < cs.len() implies #[trigger] seq_terms(cs, w, env)(i) == t(i) by {}
                lemma_sum_ext(seq_terms(cs, w, env), t, cs.len() as int);
            } else {
                let m = cs.len() as int;
                let n1 = degree_in(s, v) + 1;
                let f = grid(cs, v, w, env);
                lemma_degree_max_bound(cs, v, m);
                lemma_eval_seq_sum(cs, w, env);
                assert forall|k: int| 0 <= k < m implies #[trigger] seq_terms(cs, w, env)(k) == column_sums(f, n1)(k) by {
                    lemma_coef_sum(cs[k], v, env, n1);
                    let y = pow(env(w), k as nat);
                    assert forall|i: int| 0 <= i < n1 implies #[trigger] column(f, k)(i) == coef_terms(cs[k], v, env)(i)
                        * y by {
                        let c = eval(coef_tree(cs[k], v, i), env);
                        let xi = pow(env(v), i as nat);
                        assert(c * y * xi == c * xi * y) by (nonlinear_arith);
                    }
                    lemma_sum_scale(coef_terms(cs[k], v, env), column(f, k), y, n1);
                }
                lemma_sum_ext(seq_terms(cs, w, env), column_sums(f, n1), m);
                lemma_sum_swap(f, m, n1);
                assert forall|i: int| 0 <= i < n1 implies #[trigger] t(i) == row_sums(f, m)(i) by {
                    let cm = coef_map(cs, v, i);
                    let xi = pow(env(v), i as nat);
                    lemma_eval_seq_sum(cm, w, env);
                    assert(eval(coef_tree(s, v, i), env) == eval_from(cm, w, env, 0));
                    assert forall|k: int| 0 <= k < m implies #[trigger] row(f, i)(k) == seq_terms(cm, w, env)(k) * xi by {
                        let c = eval(coef_tree(cs[k], v, i), env);
                        let y = pow(env(w), k as nat);
                        assert(cm[k] == coef_tree(cs[k], v, i));
                        assert(c * y * xi == c * y * xi);
                    }
                    lemma_sum_scale(seq_terms(cm, w, env), row(f, i), xi, m);
                }
                lemma_sum_ext(t, row_sums(f, m), n1);
            }
        },
    }
}

/// A polynomial is the sum of the coefficients of the powers of `v` (see
/// `coef_tree`, which is what `decompose` and `compute_factors` return)
/// times those powers of the value of `v`: `c_0 + c_1 x + ... + c_d x^d`.
pub proof fn law_coefficients_rebuild(s: SPoly, v: u8, env: spec_fn(u8) -> int)
    requires
        ordered(s),
    ensures
        eval(s, env) == sum_to(coef_terms(s, v, env), degree_in(s, v) + 1),
{
    lemma_coef_sum(s, v, env, degree_in(s, v) + 1);
}

/// `linear_sub_upto` is `k^d` times the partial sum of the coefficient terms
/// wherever `k` times the value of `v` is the value of `p`.
proof fn lemma_linear_sub_upto(s: SPoly, v: u8, p: SPoly, k: int, d: nat, n: nat, env: spec_fn(u8) -> int)
    requires
        n <= d + 1,
        k * env(v) == eval(p, env),
    ensures
        linear_sub_upto(s, v, p, k, d, n, env) == pow(k, d) * sum_to(coef_terms(s, v, env), n as int),
    decreases n,
{
    if n > 0 {
        let i = (n - 1) as nat;
        lemma_linear_sub_upto(s, v, p, k, d, i, env);
        let c = eval(coef_tree(s, v, i as int), env);
        let x = env(v);
        lemma_pow_distributes(k, x, i);
        lemma_pow_adds(k, i, (d - i) as nat);
        assert(i + (d - i) as nat == d);
        let ki = pow(k, i);
        let kr = pow(k, (d - i) as nat);
        let xi = pow(x, i);
        assert(pow(eval(p, env), i) == ki * xi);
        assert(pow(k, d) == ki * kr);
        assert(c * (ki * xi) * kr == (ki * kr) * (c * xi)) by (nonlinear_arith);
        let sp = sum_to(coef_terms(s, v, env), i as int);
        assert((ki * kr) * sp + (ki * kr) * (c * xi) == (ki * kr) * (sp + c * xi)) by (nonlinear_arith);
    }
}

/// Substituting `p / k` for `v` and multiplying by `k^d` (`linear_sub_value`,
/// what `substitute_linear` computes) gives `k^d` times the polynomial at
/// every point where `k` times the value of `v` is the value of `p`.
pub proof fn law_linear_substitution(s: SPoly, v: u8, p: SPoly, k: int, env: spec_fn(u8) -> int)
    requires
        ordered(s),
        k * env(v) == eval(p, env),
    ensures
        linear_sub_value(s, v, p, k, env) == pow(k, degree_in(s, v) as nat) * eval(s, env),
{
    lemma_degree_nonneg(s, v);
    let d = degree_in(s, v) as nat;
    lemma_linear_sub_upto(s, v, p, k, d, d + 1, env);
    law_coefficients_rebuild(s, v, env);
}

} // verus!
