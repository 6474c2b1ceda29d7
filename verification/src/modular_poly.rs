//! Univariate polynomials with coefficients in Z/pZ.

use vstd::prelude::*;
use vstd::arithmetic::div_mod::*;
use vstd::arithmetic::mul::*;
use crate::conv_algebra::{bezout, inverse_mod, cm, lemma_bezout_step, lemma_conv_const_left, lemma_conv_zero_left, lemma_conv_zero_right, lemma_mul_seq_cm, lemma_sub_seq_cm, lemma_cm_sub, lemma_cm_red, lemma_cm_add, lemma_cm_mul, lemma_scale_conv, mulz, lemma_inverse_division};

verus! {

/// A single-variable polynomial with coefficients in Z/pZ.
#[derive(Debug, PartialEq)]
pub struct ModularPoly {
    /// Coefficients in ascending order (constant term first).
    pub coeffs: Vec<u64>,
    /// The prime modulus.
    pub p: u64,
}

/// Coefficient `i` of a coefficient sequence, zero outside its range.
pub open spec fn coef(s: Seq<u64>, i: int) -> int {
    if 0 <= i < s.len() {
        s[i] as int
    } else {
        0
    }
}

/// Removes trailing zero coefficients, keeping at least one entry.
pub open spec fn trim(s: Seq<u64>) -> Seq<u64>
    decreases s.len(),
{
    if s.len() > 1 && s.last() == 0 {
        trim(s.drop_last())
    } else {
        s
    }
}

/// Every coefficient lies in `[0, p)`.
pub open spec fn reduced(s: Seq<u64>, p: int) -> bool {
    forall|i: int| 0 <= i < s.len() ==> #[trigger] s[i] < p
}

/// No trailing zero, unless the sequence has at most one entry.
pub open spec fn normalized(s: Seq<u64>) -> bool {
    s.len() <= 1 || s.last() != 0
}

/// The sequence reduced modulo `p`, entry by entry.
pub open spec fn reduce_seq(s: Seq<u64>, p: int) -> Seq<u64> {
    Seq::new(s.len(), |i: int| (s[i] % (p as u64)) as u64)
}

/// Coefficient `k` of the product of two coefficient sequences, over the integers.
pub open spec fn conv(a: Seq<u64>, b: Seq<u64>, k: int) -> int {
    conv_upto(a, b, k, a.len() as int)
}

/// Sum of `a[i] * b[k - i]` for `i < n`.
pub open spec fn conv_upto(a: Seq<u64>, b: Seq<u64>, k: int, n: int) -> int
    decreases n,
{
    if n <= 0 {
        0
    } else {
        conv_upto(a, b, k, n - 1) + coef(a, n - 1) * coef(b, k - (n - 1))
    }
}

/// The larger of two lengths.
pub open spec fn max_len(a: Seq<u64>, b: Seq<u64>) -> int {
    if a.len() >= b.len() {
        a.len() as int
    } else {
        b.len() as int
    }
}

/// Coefficients of the sum of two polynomials modulo `p`, before trimming.
pub open spec fn add_seq(a: Seq<u64>, b: Seq<u64>, p: int) -> Seq<u64> {
    Seq::new(max_len(a, b) as nat, |i: int| ((coef(a, i) + coef(b, i)) % p) as u64)
}

/// Coefficients of the difference of two polynomials modulo `p`, before trimming.
pub open spec fn sub_seq(a: Seq<u64>, b: Seq<u64>, p: int) -> Seq<u64> {
    Seq::new(max_len(a, b) as nat, |i: int| ((coef(a, i) - coef(b, i)) % p) as u64)
}

/// Coefficients of the product of two non-empty polynomials modulo `p`, before trimming.
pub open spec fn mul_seq(a: Seq<u64>, b: Seq<u64>, p: int) -> Seq<u64> {
    Seq::new((a.len() + b.len() - 1) as nat, |k: int| (conv(a, b, k) % p) as u64)
}

/// `x` has a multiplicative inverse modulo `p`.
pub open spec fn has_inverse(x: int, p: int) -> bool {
    exists|y: int| #[trigger] ((x * y) % p) == 1
}

/// `p` is a prime number.
pub open spec fn is_prime(p: int) -> bool {
    p >= 2 && forall|d: int| 1 < d < p ==> #[trigger] (p % d) != 0
}

/// The degree of a coefficient sequence as `ModularPoly::degree` reports it.
pub open spec fn seq_degree(s: Seq<u64>) -> int {
    if s.len() <= 1 {
        0
    } else {
        s.len() - 1
    }
}

/// The sequence represents the zero polynomial as `ModularPoly::is_zero` tests it.
pub open spec fn seq_is_zero(s: Seq<u64>) -> bool {
    s.len() == 0 || (s.len() == 1 && s[0] == 0)
}

impl ModularPoly {
    /// Well-formed: a positive modulus, reduced coefficients, no trailing zero.
    pub open spec fn wf(self) -> bool {
        &&& self.p > 0
        &&& reduced(self.coeffs@, self.p as int)
        &&& normalized(self.coeffs@)
    }
}

pub(crate) proof fn lemma_trim_props(s: Seq<u64>, p: int)
    requires
        reduced(s, p),
    ensures
        reduced(trim(s), p),
        normalized(trim(s)),
        trim(s).len() <= s.len(),
        s.len() >= 1 ==> trim(s).len() >= 1,
        forall|i: int| #[trigger] coef(trim(s), i) == coef(s, i),
        forall|i: int| 0 <= i < trim(s).len() ==> #[trigger] trim(s)[i] == s[i],
    decreases s.len(),
{
    if s.len() > 1 && s.last() == 0 {
        let t = s.drop_last();
        lemma_trim_props(t, p);
        assert forall|i: int| #[trigger] coef(trim(s), i) == coef(s, i) by {
            assert(coef(trim(t), i) == coef(t, i));
        }
    }
}

proof fn lemma_trim_of_normalized(s: Seq<u64>)
    requires
        normalized(s),
    ensures
        trim(s) == s,
{
}

impl ModularPoly {
    /// Create a new modular polynomial: every coefficient is reduced modulo `p`
    /// and trailing zeros are removed (one entry is always kept).
    pub fn new(coeffs: Vec<u64>, p: u64) -> (res: Self)
        requires
            p > 0,
        ensures
            res.p == p,
            res.coeffs@ == trim(reduce_seq(coeffs@, p as int)),
            res.wf(),
    {
        let mut normalized_coeffs: Vec<u64> = Vec::new();
        let mut i: usize = 0;
        while i < coeffs.len()
            invariant
                p > 0,
                i <= coeffs.len(),
                normalized_coeffs@ == reduce_seq(coeffs@, p as int).subrange(0, i as int),
            decreases coeffs.len() - i,
        {
            normalized_coeffs.push(coeffs[i] % p);
            i += 1;
        }
        assert(normalized_coeffs@ == reduce_seq(coeffs@, p as int));
        let ghost full = normalized_coeffs@;
        while normalized_coeffs.len() > 1 && normalized_coeffs[normalized_coeffs.len() - 1] == 0
            invariant
                trim(normalized_coeffs@) == trim(full),
            decreases normalized_coeffs.len(),
        {
            normalized_coeffs.pop();
        }
        proof {
            assert(reduced(full, p as int)) by {
                assert forall|i: int| 0 <= i < full.len() implies #[trigger] full[i] < p by {
                    lemma_mod_bound(coeffs@[i] as int, p as int);
                }
            }
            lemma_trim_props(full, p as int);
        }
        Self { coeffs: normalized_coeffs, p }
    }

    /// Create the zero polynomial.
    pub fn zero(p: u64) -> (res: Self)
        requires
            p > 0,
        ensures
            res.p == p,
            res.coeffs@ == seq![0u64],
            res.wf(),
    {
        let res = Self::new(vec![0], p);
        proof {
            assert(reduce_seq(seq![0u64], p as int) == seq![0u64]);
        }
        res
    }

    /// Create a constant polynomial.
    pub fn constant(c: u64, p: u64) -> (res: Self)
        requires
            p > 0,
        ensures
            res.p == p,
            res.coeffs@ == seq![c % p],
            res.wf(),
    {
        let res = Self::new(vec![c % p], p);
        proof {
            lemma_mod_bound(c as int, p as int);
            lemma_small_mod((c % p) as nat, p as nat);
            assert(reduce_seq(seq![c % p], p as int) == seq![c % p]);
        }
        res
    }

    /// Get the degree of the polynomial (0 for constants, including zero).
    pub fn degree(&self) -> (d: usize)
        ensures
            d == seq_degree(self.coeffs@),
    {
        if self.coeffs.len() <= 1 {
            0
        } else {
            self.coeffs.len() - 1
        }
    }

    /// Check if the polynomial is zero.
    pub fn is_zero(&self) -> (b: bool)
        ensures
            b == seq_is_zero(self.coeffs@),
    {
        self.coeffs.len() == 0 || (self.coeffs.len() == 1 && self.coeffs[0] == 0)
    }

    /// Check if the polynomial is constant.
    pub fn is_constant(&self) -> (b: bool)
        ensures
            b == (self.coeffs@.len() <= 1),
    {
        self.coeffs.len() <= 1
    }

    /// Maps an integer to its residue modulo `p`; a negative multiple of `p`
    /// maps to `p` itself.
    pub fn from_i64(c: i64, p: u64) -> (r: u64)
        requires
            p > 0,
            c > i64::MIN,
        ensures
            r as int == (if c < 0 { p - ((-(c as int)) % (p as int)) } else { (c as int) % (p as int) }),
            (r as int) % (p as int) == (c as int) % (p as int),
    {
        if c < 0 {
            let m = (-c) as u64;
            let r = p - m % p;
            proof {
                let pi = p as int;
                lemma_mod_bound(m as int, pi);
                lemma_fundamental_div_mod(m as int, pi);
                lemma_fundamental_div_mod(c as int, pi);
                lemma_fundamental_div_mod(r as int, pi);
                lemma_mod_bound(r as int, pi);
                lemma_mod_bound(c as int, pi);
                assert((r as int) % pi == (c as int) % pi) by {
                    // r = p - (m % p) = p + c + p * (m / p)
                    assert(r as int == pi + (c as int) + pi * ((m as int) / pi));
                    lemma_mod_multiples_vanish(1 + (m as int) / pi, c as int, pi);
                    assert(pi * (1 + (m as int) / pi) == pi + pi * ((m as int) / pi)) by {
                        lemma_mul_is_distributive_add(pi, 1, (m as int) / pi);
                    }
                }
            }
            r
        } else {
            proof {
                lemma_mod_twice(c as int, p as int);
            }
            (c as u64) % p
        }
    }
}

pub open spec fn abs(x: int) -> int {
    if x < 0 {
        -x
    } else {
        x
    }
}

proof fn lemma_euclid_step(r0: int, r1: int, s0: int, s1: int, t0: int, t1: int, q: int, a: int, p: int)
    requires
        r1 > 0,
        r0 > 0,
        q == r0 / r1,
        r0 == s0 * a + t0 * p,
        r1 == s1 * a + t1 * p,
        s0 * s1 <= 0,
        abs(s0) * r1 + abs(s1) * r0 == p,
        abs(s0) <= p,
        p >= 2,
    ensures
        0 <= q,
        q * r1 <= r0,
        0 <= r0 - q * r1 < r1,
        r0 - q * r1 == (s0 - q * s1) * a + (t0 - q * t1) * p,
        s1 * (s0 - q * s1) <= 0,
        abs(s1) * (r0 - q * r1) + abs(s0 - q * s1) * r1 == p,
        abs(s1) <= p,
        abs(q * s1) <= p,
        abs(s0 - q * s1) <= 2 * p,
{
    lemma_fundamental_div_mod(r0, r1);
    lemma_mod_bound(r0, r1);
    assert(0 <= q) by {
        lemma_div_pos_is_pos(r0, r1);
    }
    assert(q * r1 <= r0) by (nonlinear_arith)
        requires r0 == r1 * q + r0 % r1, r0 % r1 >= 0;
    assert(r0 - q * r1 == (s0 - q * s1) * a + (t0 - q * t1) * p) by {
        lemma_mul_is_distributive_add(q, s1 * a, t1 * p);
        lemma_mul_is_associative(q, s1, a);
        lemma_mul_is_associative(q, t1, p);
        lemma_mul_is_distributive_sub_other_way(a, s0, q * s1);
        lemma_mul_is_distributive_sub_other_way(p, t0, q * t1);
    }
    assert(s1 * (s0 - q * s1) <= 0) by (nonlinear_arith)
        requires s0 * s1 <= 0, q >= 0;
    assert(abs(s0 - q * s1) == abs(s0) + q * abs(s1)) by (nonlinear_arith)
        requires s0 * s1 <= 0, q >= 0;
    assert(abs(s1) * (r0 - q * r1) + (abs(s0) + q * abs(s1)) * r1 == abs(s1) * r0 + abs(s0) * r1)
        by (nonlinear_arith);
    assert(abs(s1) * r0 <= p) by (nonlinear_arith)
        requires abs(s0) * r1 + abs(s1) * r0 == p, abs(s0) >= 0, r1 > 0;
    assert(abs(s1) <= p) by (nonlinear_arith)
        requires abs(s1) * r0 <= p, r0 >= 1, abs(s1) >= 0;
    assert(abs(q * s1) <= p) by (nonlinear_arith)
        requires abs(s1) * r0 <= p, q * r1 <= r0, r1 >= 1, q >= 0, abs(s1) >= 0;
}

proof fn lemma_unit_divisor(g: int, z: int)
    requires
        g > 1,
    ensures
        g * z != 1,
{
    if z >= 1 {
        assert(g * z >= g) by (nonlinear_arith)
            requires g > 1, z >= 1;
    } else {
        assert(g * z <= 0) by (nonlinear_arith)
            requires g > 1, z <= 0;
    }
}

impl ModularPoly {
    /// Add two coefficients modulo p.
    fn add_mod(a: u64, b: u64, p: u64) -> (r: u64)
        requires
            a < p,
            b < p,
        ensures
            r as int == (a + b) % (p as int),
    {
        proof {
            if a + b >= p {
                lemma_mod_add_multiples_vanish(a + b - p, p as int);
                lemma_small_mod((a + b - p) as nat, p as nat);
            } else {
                lemma_small_mod((a + b) as nat, p as nat);
            }
        }
        if a >= p - b {
            a - (p - b)
        } else {
            a + b
        }
    }

    /// Subtract two coefficients modulo p.
    fn sub_mod(a: u64, b: u64, p: u64) -> (r: u64)
        requires
            a < p,
            b < p,
        ensures
            r as int == (a - b) % (p as int),
            r < p,
    {
        proof {
            if a >= b {
                lemma_small_mod((a - b) as nat, p as nat);
            } else {
                lemma_mod_add_multiples_vanish(a - b, p as int);
                lemma_small_mod((a - b + p) as nat, p as nat);
            }
        }
        if a >= b {
            a - b
        } else {
            p - (b - a)
        }
    }

    /// Multiply two coefficients modulo p.
    fn mul_mod(a: u64, b: u64, p: u64) -> (r: u64)
        requires
            p > 0,
        ensures
            r as int == (a * b) % (p as int),
            r < p,
    {
        proof {
            assert(a * b <= u64::MAX * u64::MAX) by (nonlinear_arith)
                requires a <= u64::MAX, b <= u64::MAX, a >= 0, b >= 0;
        }
        let product = (a as u128) * (b as u128);
        proof {
            lemma_mod_bound(product as int, p as int);
        }
        (product % (p as u128)) as u64
    }

    /// Find the multiplicative inverse of `a` modulo `p`: `None` exactly when
    /// `a` has no inverse (in particular when `a` is 0).
    fn mod_inverse(a: u64, p: u64) -> (r: Option<u64>)
        requires
            p >= 2,
        ensures
            match r {
                Some(x) => x < p && (a * x) % (p as int) == 1,
                None => !has_inverse(a as int, p as int),
            },
            is_prime(p as int) && 0 < a < p ==> r is Some,
    {
        if a == 0 {
            proof {
                assert forall|y: int| #[trigger] ((0 * y) % (p as int)) != 1 by {
                    lemma_mul_basics(y);
                    lemma_small_mod(0, p as nat);
                }
            }
            return None;
        }
        let mut r0: i128 = a as i128;
        let mut r1: i128 = p as i128;
        let mut s0: i128 = 1;
        let mut s1: i128 = 0;
        let ghost mut t0: int = 0;
        let ghost mut t1: int = 1;
        let ghost ai = a as int;
        let ghost pi = p as int;
        let ghost bound: int = if ai > pi { ai } else { pi };
        while r1 != 0
            invariant
                ai == a, pi == p, p >= 2, a > 0,
                bound == (if ai > pi { ai } else { pi }),
                0 < r0 <= bound,
                0 <= r1 <= bound,
                r0 == s0 * ai + t0 * pi,
                r1 == s1 * ai + t1 * pi,
                s0 * s1 <= 0,
                abs(s0 as int) * r1 + abs(s1 as int) * r0 == pi,
                abs(s0 as int) <= pi,
                abs(s1 as int) <= 2 * pi,
                forall|d: int| d > 0 && #[trigger] ((r0 as int) % d) == 0 && (r1 as int) % d == 0 ==> ai % d == 0 && pi % d == 0,
            decreases r1,
        {
            let ghost or0 = r0 as int;
            let ghost or1 = r1 as int;
            let q = r0 / r1;
            proof {
                lemma_euclid_step(r0 as int, r1 as int, s0 as int, s1 as int, t0, t1, q as int, ai, pi);
            }
            let new_r = r0 - q * r1;
            let new_s = s0 - q * s1;
            proof {
                let nt = t0 - (q as int) * t1;
                t0 = t1;
                t1 = nt;
                assert forall|d: int| d > 0 && #[trigger] (or1 % d) == 0 && (new_r as int) % d == 0 implies ai % d == 0 && pi % d == 0 by {
                    lemma_fundamental_div_mod(or1, d);
                    lemma_fundamental_div_mod(new_r as int, d);
                    let k1 = or1 / d;
                    let k2 = (new_r as int) / d;
                    assert(or0 == d * (k2 + (q as int) * k1)) by (nonlinear_arith)
                        requires or0 == new_r + q * or1, new_r == d * k2, or1 == d * k1;
                    lemma_mod_multiples_basic(k2 + (q as int) * k1, d);
                    assert(or0 % d == 0);
                }
            }
            r0 = r1;
            r1 = new_r;
            s0 = s1;
            s1 = new_s;
        }
        if r0 != 1 {
            proof {
                assert(ai % (r0 as int) == 0 && pi % (r0 as int) == 0) by {
                    lemma_mod_self_0(r0 as int);
                    lemma_small_mod(0, r0 as nat);
                }
                if is_prime(pi) && ai < pi {
                    let g = r0 as int;
                    if g < pi {
                        assert((pi % g) != 0);
                    } else {
                        lemma_small_mod(ai as nat, g as nat);
                    }
                }
                assert forall|y: int| #[trigger] ((ai * y) % pi) != 1 by {
                    if (ai * y) % pi == 1 {
                        let g = r0 as int;
                        lemma_fundamental_div_mod(ai, g);
                        lemma_fundamental_div_mod(pi, g);
                        lemma_fundamental_div_mod(ai * y, pi);
                        let al = ai / g;
                        let be = pi / g;
                        let m = (ai * y) / pi;
                        assert(g * (al * y - be * m) == 1) by (nonlinear_arith)
                            requires ai == g * al, pi == g * be, ai * y == pi * m + 1;
                        lemma_unit_divisor(g, al * y - be * m);
                    }
                }
            }
            return None;
        }
        let result: i128 = if s0 < 0 { s0 + p as i128 } else { s0 };
        proof {
            // r0 == 1 == s0 * a + t0 * p
            let x = result as int;
            assert(abs(s0 as int) < pi) by {
                if s0 as int == pi || s0 as int == -pi {
                    assert((s0 * ai) % pi == 0) by {
                        if s0 as int == pi {
                            lemma_mod_multiples_basic(ai, pi);
                            lemma_mul_is_commutative(ai, pi);
                        } else {
                            lemma_mod_multiples_basic(-ai, pi);
                            assert(s0 * ai == (-ai) * pi) by (nonlinear_arith) requires s0 == -pi;
                        }
                    }
                    assert((s0 * ai) % pi == 1) by {
                        assert(s0 * ai == 1 + (-t0) * pi) by (nonlinear_arith) requires 1 == s0 * ai + t0 * pi;
                        lemma_mod_multiples_vanish(-t0, 1, pi);
                        lemma_small_mod(1, pi as nat);
                    }
                }
            }
            assert(x == s0 + pi * (if s0 < 0 { 1int } else { 0int }));
            assert((ai * x) % pi == 1) by {
                let c = if s0 < 0 { 1int } else { 0int };
                assert(ai * x == 1 + (ai * c - t0) * pi) by (nonlinear_arith)
                    requires x == s0 + pi * c, 1 == s0 * ai + t0 * pi;
                lemma_mod_multiples_vanish(ai * c - t0, 1, pi);
                lemma_small_mod(1, pi as nat);
            }
        }
        Some(result as u64)
    }
}

proof fn lemma_reduced_seq_new_mod(n: nat, f: spec_fn(int) -> int, p: int)
    requires
        p > 0,
    ensures
        reduced(Seq::new(n, |i: int| (f(i) % p) as u64), p),
{
    let s = Seq::new(n, |i: int| (f(i) % p) as u64);
    assert forall|i: int| 0 <= i < n implies #[trigger] s[i] < p by {
        lemma_mod_bound(f(i), p);
    }
}

proof fn lemma_conv_upto_outside(a: Seq<u64>, b: Seq<u64>, k: int, n: int)
    requires
        0 <= n,
        k < 0,
    ensures
        conv_upto(a, b, k, n) == 0,
    decreases n,
{
    if n > 0 {
        lemma_conv_upto_outside(a, b, k, n - 1);
    }
}

impl ModularPoly {
    /// A copy of the polynomial.
    pub fn copy(&self) -> (r: ModularPoly)
        ensures
            r.p == self.p,
            r.coeffs@ == self.coeffs@,
    {
        let mut cs: Vec<u64> = Vec::new();
        let mut i: usize = 0;
        while i < self.coeffs.len()
            invariant
                i <= self.coeffs@.len(),
                cs@ == self.coeffs@.take(i as int),
            decreases self.coeffs@.len() - i,
        {
            cs.push(self.coeffs[i]);
            assert(self.coeffs@.take(i as int + 1) =~= self.coeffs@.take(i as int).push(self.coeffs@[i as int]));
            i = i + 1;
        }
        assert(self.coeffs@.take(i as int) =~= self.coeffs@);
        ModularPoly { coeffs: cs, p: self.p }
    }

    /// Whether the leading coefficient of a non-zero polynomial has an
    /// inverse modulo `p`, as division by the polynomial needs.
    pub fn has_leading_inverse(&self) -> (r: bool)
        requires
            self.wf(),
            self.p >= 2,
            !seq_is_zero(self.coeffs@),
        ensures
            r == has_inverse(leading(self.coeffs@), self.p as int),
    {
        let lead = self.coeffs[self.coeffs.len() - 1];
        assert(lead as int == leading(self.coeffs@));
        match Self::mod_inverse(lead, self.p) {
            Some(x) => {
                assert(((lead as int * x as int) % (self.p as int)) == 1);
                true
            },
            None => false,
        }
    }

    /// The inverse of this polynomial modulo `q`, by the extended Euclidean
    /// algorithm: `None` when either is zero or when their greatest common
    /// divisor is not a constant. An answer `s` makes `self * s` leave the
    /// remainder 1 when divided by `q` (coefficients modulo `p`).
    #[verifier::spinoff_prover]
    #[verifier::rlimit(50)]
    pub fn get_inverse(&self, q: &ModularPoly) -> (r: Option<ModularPoly>)
        requires
            self.p == q.p,
            self.p >= 2,
            self.wf(),
            q.wf(),
        ensures
            seq_is_zero(self.coeffs@) || seq_is_zero(q.coeffs@) ==> r is None,
            r matches Some(s) ==> s.p == self.p && s.wf(),
            self.coeffs@.len() == 1 && !seq_is_zero(self.coeffs@) && !seq_is_zero(q.coeffs@) && has_inverse(
                self.coeffs@[0] as int,
                self.p as int,
            ) && q.coeffs@.len() < usize::MAX ==> (r matches Some(s) && s.coeffs@.len() == 1 && (self.coeffs@[0]
                * s.coeffs@[0]) % (self.p as int) == 1),
            r matches Some(s) ==> inverse_mod(s.coeffs@, self.coeffs@, q.coeffs@, self.p as int),
            r matches Some(s) ==> exists|qq: Seq<u64>| #[trigger] division_identity(
                mulz(self.coeffs@, s.coeffs@, self.p as int),
                qq,
                q.coeffs@,
                seq![1u64],
                self.p as int,
            ),
    {
        let p = self.p;
        if self.is_zero() || q.is_zero() {
            return None;
        }
        let ghost a = self.coeffs@;
        let ghost qc = q.coeffs@;
        let ghost mut t_prev: Seq<u64> = seq![1u64];
        let ghost mut t_curr: Seq<u64> = seq![0u64];
        let ghost cc = self.coeffs@.len() == 1 && has_inverse(self.coeffs@[0] as int, self.p as int)
            && q.coeffs@.len() < usize::MAX;
        let mut r_prev = q.copy();
        let mut r_curr = self.copy();
        let mut s_prev = ModularPoly::zero(p);
        let mut s_curr = ModularPoly::constant(1, p);
        proof {
            lemma_small_mod(1, p as nat);
            assert forall|i: int| #[trigger] cm(coef(r_prev.coeffs@, i), conv(s_prev.coeffs@, a, i) + conv(t_prev, qc, i), p as int) by {
                lemma_conv_const_left(0u64, a, i);
                lemma_conv_const_left(1u64, qc, i);
                assert(s_prev.coeffs@ == seq![0u64]);
            }
            assert forall|i: int| #[trigger] cm(coef(r_curr.coeffs@, i), conv(s_curr.coeffs@, a, i) + conv(t_curr, qc, i), p as int) by {
                lemma_conv_const_left(1u64, a, i);
                lemma_conv_const_left(0u64, qc, i);
                assert(s_curr.coeffs@ == seq![1u64]);
            }
        }
        while !r_curr.is_zero()
            invariant
                a == self.coeffs@,
                qc == q.coeffs@,
                t_prev.len() >= 1,
                t_curr.len() >= 1,
                !seq_is_zero(r_curr.coeffs@) ==> bezout(r_prev.coeffs@, s_prev.coeffs@, t_prev, a, qc, p as int) && bezout(
                    r_curr.coeffs@,
                    s_curr.coeffs@,
                    t_curr,
                    a,
                    qc,
                    p as int,
                ),
                seq_is_zero(r_curr.coeffs@) ==> bezout(r_prev.coeffs@, s_curr.coeffs@, t_curr, a, qc, p as int),
                cc ==> (r_prev.coeffs@ == q.coeffs@ && r_curr.coeffs@ == self.coeffs@ && s_curr.coeffs@ == seq![1u64])
                    || (seq_is_zero(r_curr.coeffs@) && r_prev.coeffs@ == self.coeffs@ && s_curr.coeffs@ == seq![1u64]),
                cc == (self.coeffs@.len() == 1 && has_inverse(self.coeffs@[0] as int, self.p as int)
                    && q.coeffs@.len() < usize::MAX),
                p == self.p,
                p >= 2,
                r_prev.p == p,
                r_curr.p == p,
                s_prev.p == p,
                s_curr.p == p,
                r_prev.wf(),
                r_prev.coeffs@.len() >= 1,
                r_curr.wf(),
                s_prev.wf(),
                s_curr.wf(),
            decreases (if seq_is_zero(r_curr.coeffs@) { 0 } else { r_curr.coeffs@.len() }),
        {
            if r_prev.coeffs.len() > usize::MAX - r_curr.coeffs.len() {
                return None;
            }
            if !r_curr.has_leading_inverse() {
                return None;
            }
            let division = r_prev.get_quotient_and_remainder(&r_curr);
            match division {
                None => {
                    return None;
                },
                Some((q_poly, r_next)) => {
                    if !r_next.is_zero() {
                        if q_poly.coeffs.len() > usize::MAX - s_curr.coeffs.len() {
                            return None;
                        }
                        let prod = q_poly.mul(&s_curr);
                        let next_s = s_prev.sub(&prod);
                        proof {
                            let qp = q_poly.coeffs@;
                            let pi = p as int;
                            let t_next = sub_seq(t_prev, mul_seq(qp, t_curr, pi), pi);
                            assert forall|j: int| #[trigger] cm(coef(prod.coeffs@, j), conv(qp, s_curr.coeffs@, j), pi) by {
                                if seq_is_zero(qp) || seq_is_zero(s_curr.coeffs@) {
                                    assert(coef(prod.coeffs@, j) == 0);
                                    if seq_is_zero(qp) {
                                        assert forall|m: int| #[trigger] coef(qp, m) == 0 by {}
                                        lemma_conv_zero_left(qp, s_curr.coeffs@, j, qp.len() as int);
                                    } else {
                                        assert forall|m: int| #[trigger] coef(s_curr.coeffs@, m) == 0 by {}
                                        lemma_conv_zero_right(qp, s_curr.coeffs@, j, qp.len() as int);
                                    }
                                } else {
                                    let ms = mul_seq(qp, s_curr.coeffs@, pi);
                                    assert(reduced(ms, pi));
                                    lemma_trim_props(ms, pi);
                                    lemma_mul_seq_cm(qp, s_curr.coeffs@, pi, j);
                                }
                            }
                            assert forall|j: int| #[trigger] cm(
                                coef(next_s.coeffs@, j),
                                coef(s_prev.coeffs@, j) - conv(qp, s_curr.coeffs@, j),
                                pi,
                            ) by {
                                let ss = sub_seq(s_prev.coeffs@, prod.coeffs@, pi);
                                assert(reduced(ss, pi));
                                lemma_trim_props(ss, pi);
                                lemma_sub_seq_cm(s_prev.coeffs@, prod.coeffs@, pi, j);
                                assert(cm(coef(prod.coeffs@, j), conv(qp, s_curr.coeffs@, j), pi));
                                lemma_cm_sub(
                                    coef(s_prev.coeffs@, j),
                                    coef(s_prev.coeffs@, j),
                                    coef(prod.coeffs@, j),
                                    conv(qp, s_curr.coeffs@, j),
                                    pi,
                                );
                            }
                            assert forall|j: int| #[trigger] cm(coef(t_next, j), coef(t_prev, j) - conv(qp, t_curr, j), pi) by {
                                lemma_sub_seq_cm(t_prev, mul_seq(qp, t_curr, pi), pi, j);
                                lemma_mul_seq_cm(qp, t_curr, pi, j);
                                lemma_cm_sub(
                                    coef(t_prev, j),
                                    coef(t_prev, j),
                                    coef(mul_seq(qp, t_curr, pi), j),
                                    conv(qp, t_curr, j),
                                    pi,
                                );
                            }
                            lemma_bezout_step(
                                r_prev.coeffs@,
                                s_prev.coeffs@,
                                t_prev,
                                r_curr.coeffs@,
                                s_curr.coeffs@,
                                t_curr,
                                qp,
                                r_next.coeffs@,
                                next_s.coeffs@,
                                t_next,
                                a,
                                qc,
                                pi,
                            );
                            t_prev = t_curr;
                            t_curr = t_next;
                        }
                        s_prev = s_curr;
                        s_curr = next_s;
                    }
                    r_prev = r_curr;
                    r_curr = r_next;
                },
            }
        }
        if r_prev.degree() > 0 {
            return None;
        }
        let g = r_prev.coeffs[0];
        if g == 0 {
            return None;
        }
        match Self::mod_inverse(g, p) {
            None => None,
            Some(inv) => {
                let mut result_coeffs: Vec<u64> = Vec::new();
                let mut i: usize = 0;
                while i < s_curr.coeffs.len()
                    invariant
                        i <= s_curr.coeffs@.len(),
                        s_curr.wf(),
                        s_curr.p == p,
                        inv < p,
                        p >= 2,
                        result_coeffs@.len() == i,
                        forall|j: int| 0 <= j < i ==> #[trigger] result_coeffs@[j] as int == (s_curr.coeffs@[j] * inv)
                            % (p as int),
                    decreases s_curr.coeffs@.len() - i,
                {
                    assert(s_curr.coeffs@[i as int] < p);
                    result_coeffs.push(Self::mul_mod(s_curr.coeffs[i], inv, p));
                    i = i + 1;
                }
                let ghost tf = Seq::new(t_curr.len(), |j: int| ((coef(t_curr, j) * inv) % (p as int)) as u64);
                proof {
                    let pi = p as int;
                    let res = trim(reduce_seq(result_coeffs@, pi));
                    assert(reduced(reduce_seq(result_coeffs@, pi), pi));
                    lemma_trim_props(reduce_seq(result_coeffs@, pi), pi);
                    assert forall|j: int| #[trigger] cm(coef(res, j), inv * coef(s_curr.coeffs@, j), pi) by {
                        if 0 <= j < s_curr.coeffs@.len() {
                            let x = result_coeffs@[j] as int;
                            assert(x == (s_curr.coeffs@[j] * inv) % pi);
                            lemma_cm_red(s_curr.coeffs@[j] * inv, pi);
                            assert(coef(reduce_seq(result_coeffs@, pi), j) == x % pi);
                            lemma_cm_red(x, pi);
                            assert(s_curr.coeffs@[j] * inv == inv * coef(s_curr.coeffs@, j)) by (nonlinear_arith)
                                requires
                                    coef(s_curr.coeffs@, j) == s_curr.coeffs@[j],
                            ;
                        } else {
                            assert(coef(res, j) == 0);
                            assert(inv * 0 == 0);
                        }
                    }
                    assert forall|j: int| #[trigger] cm(coef(tf, j), inv * coef(t_curr, j), pi) by {
                        if 0 <= j < t_curr.len() {
                            lemma_mod_bound(coef(t_curr, j) * inv, pi);
                            lemma_cm_red(coef(t_curr, j) * inv, pi);
                            assert(coef(t_curr, j) * inv == inv * coef(t_curr, j)) by (nonlinear_arith);
                        } else {
                            assert(inv * 0 == 0);
                        }
                    }
                    assert forall|i: int| #[trigger] cm(coef(seq![1u64], i), conv(res, a, i) + conv(tf, qc, i), pi) by {
                        lemma_scale_conv(res, s_curr.coeffs@, a, inv as int, i, pi);
                        lemma_scale_conv(tf, t_curr, qc, inv as int, i, pi);
                        let u = conv(s_curr.coeffs@, a, i);
                        let w = conv(t_curr, qc, i);
                        lemma_cm_add(conv(res, a, i), inv * u, conv(tf, qc, i), inv * w, pi);
                        assert(inv * u + inv * w == inv * (u + w)) by (nonlinear_arith);
                        assert(cm(coef(r_prev.coeffs@, i), u + w, pi));
                        lemma_cm_mul(inv as int, coef(r_prev.coeffs@, i), u + w, pi);
                        if i == 0 {
                            assert(coef(r_prev.coeffs@, 0) == g);
                            assert(inv * g == g * inv) by (nonlinear_arith);
                            lemma_cm_red(g * inv, pi);
                        } else {
                            assert(coef(r_prev.coeffs@, i) == 0);
                            assert(inv * 0 == 0);
                            lemma_small_mod(0, p as nat);
                        }
                    }
                    assert(bezout(seq![1u64], res, tf, a, qc, pi));
                    if cc {
                        assert(s_curr.coeffs@ == seq![1u64]);
                        assert(result_coeffs@[0] as int == (1 * inv) % (p as int));
                        lemma_small_mod(inv as nat, p as nat);
                        assert(result_coeffs@[0] == inv);
                        assert(inv != 0) by {
                            if inv == 0 {
                                assert(g * inv == 0) by (nonlinear_arith)
                                    requires
                                        inv == 0,
                                ;
                                lemma_small_mod(0, p as nat);
                                assert((0 as int) % (p as int) == 0);
                            }
                        }
                        assert(reduce_seq(result_coeffs@, p as int) =~= seq![inv]);
                        assert(trim(seq![inv]) == seq![inv]);
                    }
                }
                let out = ModularPoly::new(result_coeffs, p);
                proof {
                    assert(out.coeffs@ == trim(reduce_seq(result_coeffs@, p as int)));
                    assert(bezout(seq![1u64], out.coeffs@, tf, self.coeffs@, q.coeffs@, self.p as int));
                    assert(inverse_mod(out.coeffs@, self.coeffs@, q.coeffs@, self.p as int));
                    lemma_inverse_division(out.coeffs@, self.coeffs@, q.coeffs@, self.p as int);
                }
                Some(out)
            },
        }
    }
}

impl ModularPoly {
    /// Sum of two polynomials with the same modulus.
    pub fn add(&self, other: &ModularPoly) -> (res: ModularPoly)
        requires
            self.p == other.p,
            self.wf(),
            other.wf(),
        ensures
            res.p == self.p,
            res.coeffs@ == trim(add_seq(self.coeffs@, other.coeffs@, self.p as int)),
            res.wf(),
    {
        let p = self.p;
        let n = if self.coeffs.len() >= other.coeffs.len() {
            self.coeffs.len()
        } else {
            other.coeffs.len()
        };
        let mut result: Vec<u64> = Vec::new();
        let mut i: usize = 0;
        while i < n
            invariant
                p == self.p,
                self.wf(),
                other.wf(),
                p == other.p,
                n == max_len(self.coeffs@, other.coeffs@),
                i <= n,
                result@ == add_seq(self.coeffs@, other.coeffs@, p as int).subrange(0, i as int),
            decreases n - i,
        {
            let a = if i < self.coeffs.len() { self.coeffs[i] } else { 0 };
            let b = if i < other.coeffs.len() { other.coeffs[i] } else { 0 };
            result.push(Self::add_mod(a, b, p));
            i += 1;
        }
        proof {
            let full = add_seq(self.coeffs@, other.coeffs@, p as int);
            assert(result@ == full);
            lemma_reduced_seq_new_mod(n as nat, |i: int| coef(self.coeffs@, i) + coef(other.coeffs@, i), p as int);
            assert(reduce_seq(result@, p as int) == result@) by {
                assert forall|i: int| 0 <= i < result@.len() implies #[trigger] reduce_seq(result@, p as int)[i] == result@[i] by {
                    lemma_small_mod(result@[i] as nat, p as nat);
                }
            }
        }
        ModularPoly::new(result, p)
    }

    /// Difference of two polynomials with the same modulus.
    pub fn sub(&self, other: &ModularPoly) -> (res: ModularPoly)
        requires
            self.p == other.p,
            self.wf(),
            other.wf(),
        ensures
            res.p == self.p,
            res.coeffs@ == trim(sub_seq(self.coeffs@, other.coeffs@, self.p as int)),
            res.wf(),
    {
        let p = self.p;
        let n = if self.coeffs.len() >= other.coeffs.len() {
            self.coeffs.len()
        } else {
            other.coeffs.len()
        };
        let mut result: Vec<u64> = Vec::new();
        let mut i: usize = 0;
        while i < n
            invariant
                p == self.p,
                self.wf(),
                other.wf(),
                p == other.p,
                n == max_len(self.coeffs@, other.coeffs@),
                i <= n,
                result@ == sub_seq(self.coeffs@, other.coeffs@, p as int).subrange(0, i as int),
            decreases n - i,
        {
            let a = if i < self.coeffs.len() { self.coeffs[i] } else { 0 };
            let b = if i < other.coeffs.len() { other.coeffs[i] } else { 0 };
            result.push(Self::sub_mod(a, b, p));
            i += 1;
        }
        proof {
            let full = sub_seq(self.coeffs@, other.coeffs@, p as int);
            assert(result@ == full);
            lemma_reduced_seq_new_mod(n as nat, |i: int| coef(self.coeffs@, i) - coef(other.coeffs@, i), p as int);
            assert(reduce_seq(result@, p as int) == result@) by {
                assert forall|i: int| 0 <= i < result@.len() implies #[trigger] reduce_seq(result@, p as int)[i] == result@[i] by {
                    lemma_small_mod(result@[i] as nat, p as nat);
                }
            }
        }
        ModularPoly::new(result, p)
    }

    /// Product of two polynomials with the same modulus.
    pub fn mul(&self, other: &ModularPoly) -> (res: ModularPoly)
        requires
            self.p == other.p,
            self.wf(),
            other.wf(),
            self.coeffs@.len() + other.coeffs@.len() <= usize::MAX,
        ensures
            res.p == self.p,
            res.wf(),
            seq_is_zero(self.coeffs@) || seq_is_zero(other.coeffs@) ==> res.coeffs@ == seq![0u64],
            !seq_is_zero(self.coeffs@) && !seq_is_zero(other.coeffs@) ==> res.coeffs@ == trim(
                mul_seq(self.coeffs@, other.coeffs@, self.p as int),
            ),
    {
        let p = self.p;
        if self.is_zero() || other.is_zero() {
            return ModularPoly::zero(p);
        }
        let la = self.coeffs.len();
        let lb = other.coeffs.len();
        let result_len = la - 1 + lb;
        let mut result: Vec<u64> = Vec::new();
        let mut z: usize = 0;
        while z < result_len
            invariant
                z <= result_len,
                result@.len() == z,
                forall|k: int| 0 <= k < z ==> #[trigger] result@[k] == 0,
            decreases result_len - z,
        {
            result.push(0);
            z += 1;
        }
        let ghost a = self.coeffs@;
        let ghost b = other.coeffs@;
        proof {
            lemma_small_mod(0, p as nat);
            assert forall|k: int| 0 <= k < result_len implies #[trigger] result@[k] as int == conv_upto(a, b, k, 0) % (p as int) by {
            }
        }
        let mut i: usize = 0;
        while i < la
            invariant
                a == self.coeffs@,
                b == other.coeffs@,
                la == a.len(),
                lb == b.len(),
                la >= 1,
                lb >= 1,
                result_len == la + lb - 1,
                p == self.p,
                p > 0,
                reduced(a, p as int),
                reduced(b, p as int),
                i <= la,
                result@.len() == result_len,
                forall|k: int| 0 <= k < result_len ==> #[trigger] result@[k] as int == conv_upto(a, b, k, i as int) % (p as int),
            decreases la - i,
        {
            let mut j: usize = 0;
            while j < lb
                invariant
                    a == self.coeffs@,
                    b == other.coeffs@,
                    la == a.len(),
                    lb == b.len(),
                    result_len == la + lb - 1,
                    p == self.p,
                    p > 0,
                    reduced(a, p as int),
                    reduced(b, p as int),
                    i < la,
                    j <= lb,
                    result@.len() == result_len,
                    forall|k: int| 0 <= k < result_len ==> #[trigger] result@[k] as int == (conv_upto(a, b, k, i as int)
                        + (if i <= k < i + j { a[i as int] * b[k - i] } else { 0 })) % (p as int),
                decreases lb - j,
            {
                let product = Self::mul_mod(self.coeffs[i], other.coeffs[j], p);
                let old_val = result[i + j];
                proof {
                    lemma_mod_bound(conv_upto(a, b, (i + j) as int, i as int) + a[i as int] * b[j as int] * 0, p as int);
                }
                let new_val = Self::add_mod(old_val, product, p);
                proof {
                    let k = (i + j) as int;
                    let x = conv_upto(a, b, k, i as int);
                    let y = a[i as int] * b[j as int];
                    assert(old_val as int == x % (p as int));
                    lemma_add_mod_noop(x, y, p as int);
                }
                result.set(i + j, new_val);
                j += 1;
            }
            proof {
                assert forall|k: int| 0 <= k < result_len implies #[trigger] result@[k] as int == conv_upto(a, b, k, (i + 1) as int) % (p as int) by {
                    assert(conv_upto(a, b, k, (i + 1) as int) == conv_upto(a, b, k, i as int) + coef(a, i as int) * coef(b, k - i));
                    if !(i <= k < i + lb) {
                        assert(coef(b, k - i) == 0);
                        assert(coef(a, i as int) * coef(b, k - i) == 0) by (nonlinear_arith)
                            requires coef(b, k - i) == 0;
                    }
                }
            }
            i += 1;
        }
        proof {
            assert(result@ == mul_seq(a, b, p as int)) by {
                assert forall|k: int| 0 <= k < result_len implies #[trigger] result@[k] == mul_seq(a, b, p as int)[k] by {
                    lemma_mod_bound(conv(a, b, k), p as int);
                }
            }
            assert(reduce_seq(result@, p as int) == result@) by {
                assert forall|k: int| 0 <= k < result@.len() implies #[trigger] reduce_seq(result@, p as int)[k] == result@[k] by {
                    lemma_mod_bound(conv(a, b, k), p as int);
                    lemma_small_mod(result@[k] as nat, p as nat);
                }
            }
        }
        ModularPoly::new(result, p)
    }
}

/// `a == q * d + r` coefficient by coefficient modulo `p`.
pub open spec fn division_identity(a: Seq<u64>, q: Seq<u64>, d: Seq<u64>, r: Seq<u64>, p: int) -> bool {
    forall|k: int| #[trigger] coef(a, k) == (conv(q, d, k) + coef(r, k)) % p
}

/// The leading coefficient, as division uses it.
pub open spec fn leading(s: Seq<u64>) -> int {
    s[seq_degree(s)] as int
}

proof fn lemma_conv_upto_change(a: Seq<u64>, a2: Seq<u64>, b: Seq<u64>, k: int, n: int, s: int)
    requires
        forall|i: int| i != s ==> #[trigger] coef(a2, i) == coef(a, i),
        n >= 0,
    ensures
        conv_upto(a2, b, k, n) == conv_upto(a, b, k, n) + (if 0 <= s < n {
            (coef(a2, s) - coef(a, s)) * coef(b, k - s)
        } else {
            0
        }),
    decreases n,
{
    if n > 0 {
        lemma_conv_upto_change(a, a2, b, k, n - 1, s);
        if n - 1 == s {
            lemma_mul_is_distributive_sub_other_way(coef(b, k - s), coef(a2, s), coef(a, s));
        } else {
            assert(coef(a2, n - 1) == coef(a, n - 1));
        }
    }
}

pub(crate) proof fn lemma_conv_upto_beyond(a: Seq<u64>, b: Seq<u64>, k: int, n: int)
    requires
        n >= a.len(),
    ensures
        conv_upto(a, b, k, n) == conv(a, b, k),
    decreases n,
{
    if n > a.len() {
        lemma_conv_upto_beyond(a, b, k, n - 1);
        assert(coef(a, n - 1) == 0);
        lemma_mul_basics(coef(b, k - (n - 1)));
    }
}

proof fn lemma_conv_upto_zero(a: Seq<u64>, b: Seq<u64>, k: int, n: int)
    requires
        n >= 0,
        forall|i: int| #[trigger] coef(a, i) == 0,
    ensures
        conv_upto(a, b, k, n) == 0,
    decreases n,
{
    if n > 0 {
        lemma_conv_upto_zero(a, b, k, n - 1);
        lemma_mul_basics(coef(b, k - (n - 1)));
    }
}

/// Product with a monomial `c * x^s`.
proof fn lemma_conv_monomial(t: Seq<u64>, b: Seq<u64>, k: int, s: int)
    requires
        0 <= s < t.len(),
        forall|i: int| i != s ==> #[trigger] coef(t, i) == 0,
    ensures
        conv(t, b, k) == coef(t, s) * coef(b, k - s),
{
    let z = Seq::new(t.len(), |i: int| 0u64);
    assert forall|i: int| i != s implies #[trigger] coef(t, i) == coef(z, i) by {
    }
    assert forall|i: int| #[trigger] coef(z, i) == 0 by {
    }
    lemma_conv_upto_change(z, t, b, k, t.len() as int, s);
    lemma_conv_upto_zero(z, b, k, t.len() as int);
}

/// Product with a constant `[c]`.
proof fn lemma_conv_constant(a: Seq<u64>, b: Seq<u64>, k: int, n: int)
    requires
        b.len() == 1,
        n >= 0,
    ensures
        conv_upto(a, b, k, n) == (if 0 <= k < n { coef(a, k) * b[0] } else { 0 }),
    decreases n,
{
    if n > 0 {
        lemma_conv_constant(a, b, k, n - 1);
        if n - 1 != k {
            assert(coef(b, k - (n - 1)) == 0);
            lemma_mul_basics(coef(a, n - 1));
        }
    }
}

/// `(x * y) % p == z` and `(y * w) % p == 1` give `(z * w) % p == x % p`.
proof fn lemma_cancel_inverse(x: int, y: int, w: int, z: int, p: int)
    requires
        p > 0,
        z == (x * w) % p,
        (y * w) % p == 1,
    ensures
        (z * y) % p == x % p,
{
    lemma_mul_mod_noop_left(x * w, y, p);
    lemma_mul_is_associative(x, w, y);
    lemma_mul_is_commutative(w, y);
    lemma_mul_mod_noop_right(x, y * w, p);
    lemma_mul_basics(x);
}

/// `self_k == (C + D) % p` is kept when `c * e` moves from `D` to `C`.
proof fn lemma_division_step(sk: int, cc: int, dd: int, ce: int, p: int)
    requires
        p > 0,
        sk == (cc + dd) % p,
    ensures
        sk == ((cc + ce) + (dd - ce % p) % p) % p,
{
    let x = cc + ce;
    let y = dd - ce % p;
    lemma_fundamental_div_mod(y, p);
    assert(x + y % p == p * (-(y / p)) + (x + y)) by {
        lemma_mul_unary_negation(p, y / p);
    }
    lemma_mod_multiples_vanish(-(y / p), x + y, p);
    lemma_fundamental_div_mod(ce, p);
    assert(x + y == p * (ce / p) + (cc + dd));
    lemma_mod_multiples_vanish(ce / p, cc + dd, p);
}

impl ModularPoly {
    /// Computes both the quotient and the remainder of polynomial division:
    /// `None` exactly when the divisor is zero; otherwise `Some((q, r))` with
    /// `self == q * divisor + r` and `r` of smaller degree than the divisor
    /// (zero when the divisor is constant).
    pub fn get_quotient_and_remainder(&self, divisor: &ModularPoly) -> (res: Option<(ModularPoly, ModularPoly)>)
        requires
            self.p == divisor.p,
            self.p >= 2,
            self.wf(),
            divisor.wf(),
            !seq_is_zero(divisor.coeffs@) ==> has_inverse(leading(divisor.coeffs@), self.p as int),
            self.coeffs@.len() + divisor.coeffs@.len() <= usize::MAX,
        ensures
            res is None <==> seq_is_zero(divisor.coeffs@),
            res matches Some((q, r)) ==> {
                &&& q.p == self.p
                &&& r.p == self.p
                &&& q.wf()
                &&& r.wf()
                &&& division_identity(self.coeffs@, q.coeffs@, divisor.coeffs@, r.coeffs@, self.p as int)
                &&& (seq_is_zero(r.coeffs@) || r.coeffs@.len() <= seq_degree(divisor.coeffs@))
                &&& (seq_is_zero(self.coeffs@) ==> q.coeffs@ == seq![0u64] && r.coeffs@ == seq![0u64])
                &&& (divisor.coeffs@.len() == 1 ==> r.coeffs@ == seq![0u64])
                &&& (q.coeffs@.len() == 0 <==> (!seq_is_zero(self.coeffs@) && divisor.coeffs@.len() > 1
                    && seq_degree(self.coeffs@) < seq_degree(divisor.coeffs@)))
            },
    {
        let p = self.p;
        if divisor.is_zero() {
            return None;
        }
        if self.is_zero() {
            let q = ModularPoly::zero(p);
            let r = ModularPoly::zero(p);
            proof {
                assert forall|k: int| #[trigger] coef(self.coeffs@, k) == (conv(q.coeffs@, divisor.coeffs@, k) + coef(r.coeffs@, k)) % (p as int) by {
                    assert(coef(self.coeffs@, k) == 0);
                    assert forall|i: int| #[trigger] coef(q.coeffs@, i) == 0 by {}
                    lemma_conv_upto_zero(q.coeffs@, divisor.coeffs@, k, 1);
                    lemma_small_mod(0, p as nat);
                }
            }
            return Some((q, r));
        }
        if divisor.is_constant() {
            let divisor_const = divisor.coeffs[0];
            if divisor_const == 0 {
                return None;
            }
            let inv_opt = Self::mod_inverse(divisor_const, p);
            let inv = match inv_opt {
                Some(x) => x,
                None => {
                    proof {
                        assert(leading(divisor.coeffs@) == divisor_const);
                    }
                    return None;
                },
            };
            let mut quotient_coeffs: Vec<u64> = Vec::new();
            let mut i: usize = 0;
            while i < self.coeffs.len()
                invariant
                    p == self.p,
                    p >= 2,
                    i <= self.coeffs.len(),
                    quotient_coeffs@.len() == i,
                    forall|j: int| 0 <= j < i ==> #[trigger] quotient_coeffs@[j] as int == (self.coeffs@[j] * inv) % (p as int),
                decreases self.coeffs.len() - i,
            {
                quotient_coeffs.push(Self::mul_mod(self.coeffs[i], inv, p));
                i += 1;
            }
            let q = ModularPoly::new(quotient_coeffs, p);
            let r = ModularPoly::zero(p);
            proof {
                let qs = quotient_coeffs@;
                assert(reduce_seq(qs, p as int) == qs) by {
                    assert forall|j: int| 0 <= j < qs.len() implies #[trigger] reduce_seq(qs, p as int)[j] == qs[j] by {
                        lemma_mod_bound(self.coeffs@[j] * inv, p as int);
                        lemma_small_mod(qs[j] as nat, p as nat);
                    }
                }
                lemma_trim_props(qs, p as int);
                assert forall|k: int| #[trigger] coef(self.coeffs@, k) == (conv(q.coeffs@, divisor.coeffs@, k) + coef(r.coeffs@, k)) % (p as int) by {
                    lemma_conv_constant(q.coeffs@, divisor.coeffs@, k, q.coeffs@.len() as int);
                    assert(coef(r.coeffs@, k) == 0);
                    if 0 <= k < self.coeffs@.len() {
                        assert(coef(q.coeffs@, k) == qs[k]);
                        lemma_cancel_inverse(self.coeffs@[k] as int, divisor_const as int, inv as int, qs[k] as int, p as int);
                        lemma_mul_is_commutative(divisor_const as int, inv as int);
                        lemma_small_mod(self.coeffs@[k] as nat, p as nat);
                        if k >= q.coeffs@.len() {
                            assert(coef(q.coeffs@, k) == 0);
                            lemma_small_mod(0, p as nat);
                            assert(qs[k] == 0);
                            lemma_mul_basics(divisor_const as int);
                        }
                    } else {
                        assert(coef(q.coeffs@, k) == 0);
                        lemma_small_mod(0, p as nat);
                    }
                }
                assert(q.coeffs@.len() > 0);
            }
            return Some((q, r));
        }
        let divisor_degree = divisor.degree();
        let divisor_leading_coeff = divisor.coeffs[divisor_degree];
        let inv = match Self::mod_inverse(divisor_leading_coeff, p) {
            Some(x) => x,
            None => {
                return None;
            },
        };
        let mut dividend = ModularPoly { coeffs: self.coeffs.clone(), p };
        let mut quotient_coeffs: Vec<u64> = Vec::new();
        let ghost d = divisor.coeffs@;
        let ghost n = divisor_degree as int;
        let ghost pi = p as int;
        proof {
            assert forall|k: int| #[trigger] coef(self.coeffs@, k) == (conv(quotient_coeffs@, d, k) + coef(dividend.coeffs@, k)) % pi by {
                lemma_mod_bound(coef(self.coeffs@, k), pi);
                lemma_small_mod(coef(self.coeffs@, k) as nat, pi as nat);
            }
        }
        while dividend.degree() >= divisor_degree
            invariant
                p == self.p,
                pi == p,
                p >= 2,
                d == divisor.coeffs@,
                divisor.wf(),
                d.len() > 1,
                n == d.len() - 1,
                divisor_degree == n,
                divisor_leading_coeff == d[n],
                (divisor_leading_coeff * inv) % pi == 1,
                inv < p,
                dividend.wf(),
                dividend.p == p,
                !seq_is_zero(dividend.coeffs@) || quotient_coeffs@.len() > 0,
                reduced(quotient_coeffs@, pi),
                quotient_coeffs@.len() == 0 ==> dividend.coeffs@ == self.coeffs@,
                quotient_coeffs@.len() > 0 ==> seq_degree(self.coeffs@) >= n,
                dividend.coeffs@.len() <= self.coeffs@.len(),
                self.coeffs@.len() + d.len() <= usize::MAX,
                divisor.p == p,
                quotient_coeffs@.len() > 0 ==> quotient_coeffs@.last() != 0,
                forall|i: int| 0 <= i < quotient_coeffs@.len() && i + n <= seq_degree(dividend.coeffs@) ==> #[trigger] quotient_coeffs@[i] == 0,
                quotient_coeffs@.len() > 0 ==> seq_degree(dividend.coeffs@) - n < quotient_coeffs@.len(),
                forall|k: int| #[trigger] coef(self.coeffs@, k) == (conv(quotient_coeffs@, d, k) + coef(dividend.coeffs@, k)) % pi,
            decreases dividend.coeffs@.len(),
        {
            let dividend_degree = dividend.degree();
            let dividend_leading_coeff = dividend.coeffs[dividend_degree];
            let quotient_coeff = Self::mul_mod(dividend_leading_coeff, inv, p);
            let ghost oldq = quotient_coeffs@;
            let ghost olddiv = dividend.coeffs@;
            let s = dividend_degree - divisor_degree;
            while quotient_coeffs.len() <= s
                invariant
                    quotient_coeffs@.len() == oldq.len() || (oldq.len() <= quotient_coeffs@.len() <= s + 1),
                    quotient_coeffs@.len() >= oldq.len(),
                    forall|i: int| 0 <= i < oldq.len() ==> #[trigger] quotient_coeffs@[i] == oldq[i],
                    forall|i: int| oldq.len() <= i < quotient_coeffs@.len() ==> #[trigger] quotient_coeffs@[i] == 0,
                decreases s + 1 - quotient_coeffs@.len(),
            {
                quotient_coeffs.push(0);
            }
            let ghost padded = quotient_coeffs@;
            quotient_coeffs.set(s, quotient_coeff);
            let mut to_subtract: Vec<u64> = Vec::new();
            let mut z: usize = 0;
            while z < s
                invariant
                    z <= s,
                    to_subtract@.len() == z,
                    forall|i: int| 0 <= i < z ==> #[trigger] to_subtract@[i] == 0,
                decreases s - z,
            {
                to_subtract.push(0);
                z += 1;
            }
            to_subtract.push(quotient_coeff);
            proof {
                lemma_mod_bound(dividend_leading_coeff * inv, pi);
                // the new quotient coefficient is not zero
                assert(dividend_leading_coeff != 0);
                if quotient_coeff == 0 {
                    lemma_cancel_inverse(dividend_leading_coeff as int, divisor_leading_coeff as int, inv as int, 0, pi);
                    lemma_mul_basics(divisor_leading_coeff as int);
                    lemma_small_mod(0, pi as nat);
                    lemma_small_mod(dividend_leading_coeff as nat, pi as nat);
                }
                assert(reduce_seq(to_subtract@, pi) == to_subtract@) by {
                    assert forall|i: int| 0 <= i < to_subtract@.len() implies #[trigger] reduce_seq(to_subtract@, pi)[i] == to_subtract@[i] by {
                        lemma_small_mod(to_subtract@[i] as nat, pi as nat);
                    }
                }
            }
            let to_subtract_poly = ModularPoly::new(to_subtract, p);
            proof {
                assert(to_subtract_poly.coeffs@ == to_subtract@);
                assert(!seq_is_zero(to_subtract_poly.coeffs@));
            }
            let subtract_term = to_subtract_poly.mul(divisor);
            let new_dividend = dividend.sub(&subtract_term);
            proof {
                let t = to_subtract@;
                let st = subtract_term.coeffs@;
                let nd = new_dividend.coeffs@;
                let newq = quotient_coeffs@;
                let c = quotient_coeff as int;
                let m = dividend_degree as int;
                lemma_trim_props(mul_seq(t, d, pi), pi);
                lemma_trim_props(sub_seq(olddiv, st, pi), pi);
                assert forall|k: int| #[trigger] coef(st, k) == (c * coef(d, k - s)) % pi by {
                    assert forall|i: int| i != s implies #[trigger] coef(t, i) == 0 by {}
                    lemma_conv_monomial(t, d, k, s as int);
                    if !(0 <= k < mul_seq(t, d, pi).len()) {
                        assert(coef(d, k - s) == 0);
                        lemma_mul_basics(c);
                        lemma_small_mod(0, pi as nat);
                    }
                }
                assert forall|k: int| #[trigger] coef(nd, k) == (coef(olddiv, k) - coef(st, k)) % pi by {
                    if !(0 <= k < sub_seq(olddiv, st, pi).len()) {
                        lemma_small_mod(0, pi as nat);
                    }
                }
                // quotient update
                assert forall|i: int| i != s implies #[trigger] coef(newq, i) == coef(oldq, i) by {}
                assert(coef(oldq, s as int) == 0) by {
                    if (s as int) < oldq.len() {
                        assert(oldq[s as int] == 0);
                    }
                }
                assert forall|k: int| #[trigger] coef(self.coeffs@, k) == (conv(newq, d, k) + coef(nd, k)) % pi by {
                    lemma_conv_upto_change(oldq, newq, d, k, newq.len() as int, s as int);
                    lemma_conv_upto_beyond(oldq, d, k, newq.len() as int);
                    lemma_division_step(coef(self.coeffs@, k), conv(oldq, d, k), coef(olddiv, k), c * coef(d, k - s), pi);
                }
                // the degree decreases
                assert(coef(nd, m) == 0) by {
                    lemma_cancel_inverse(dividend_leading_coeff as int, divisor_leading_coeff as int, inv as int, c, pi);
                    lemma_mul_is_commutative(c, divisor_leading_coeff as int);
                    lemma_small_mod(dividend_leading_coeff as nat, pi as nat);
                    assert(coef(d, m - s) == divisor_leading_coeff);
                    lemma_mod_self_0(pi);
                    lemma_small_mod(0, pi as nat);
                }
                assert forall|k: int| k > m implies #[trigger] coef(nd, k) == 0 by {
                    assert(coef(olddiv, k) == 0);
                    assert(coef(d, k - s) == 0);
                    lemma_mul_basics(c);
                    lemma_small_mod(0, pi as nat);
                }
                assert(nd.len() <= m) by {
                    if nd.len() > m {
                        if nd.len() - 1 > m {
                            assert(coef(nd, nd.len() - 1) == 0);
                        }
                        assert(nd.last() == 0);
                    }
                }
                assert forall|i: int| 0 <= i < newq.len() && i + n <= seq_degree(nd) implies #[trigger] newq[i] == 0 by {
                    assert(i != s);
                    if i < oldq.len() {
                        assert(i + n <= seq_degree(olddiv));
                    }
                }
                assert(newq.last() != 0) by {
                    if oldq.len() > 0 {
                        assert(newq.len() == oldq.len());
                        assert(newq.last() == oldq.last()) by {
                            assert(s < oldq.len() - 1) by {
                                if s as int == oldq.len() - 1 {
                                    assert(oldq[s as int] == 0);
                                }
                            }
                        }
                    }
                }
            }
            let old_len = dividend.coeffs.len();
            dividend = new_dividend;
            if dividend.degree() >= dividend_degree {
                return None;
            }
        }
        let q = ModularPoly::new(quotient_coeffs, p);
        proof {
            let qs = quotient_coeffs@;
            assert(reduce_seq(qs, pi) == qs) by {
                assert forall|j: int| 0 <= j < qs.len() implies #[trigger] reduce_seq(qs, pi)[j] == qs[j] by {
                    lemma_small_mod(qs[j] as nat, pi as nat);
                }
            }
            lemma_trim_of_normalized(qs);
        }
        Some((q, dividend))
    }

    /// Computes the remainder of polynomial division; `None` exactly when the
    /// divisor is zero.
    pub fn remainder(&self, divisor: &ModularPoly) -> (res: Option<ModularPoly>)
        requires
            self.p == divisor.p,
            self.p >= 2,
            self.wf(),
            divisor.wf(),
            !seq_is_zero(divisor.coeffs@) ==> has_inverse(leading(divisor.coeffs@), self.p as int),
            self.coeffs@.len() + divisor.coeffs@.len() <= usize::MAX,
        ensures
            res is None <==> seq_is_zero(divisor.coeffs@),
            res matches Some(r) ==> {
                &&& r.p == self.p
                &&& r.wf()
                &&& (seq_is_zero(r.coeffs@) || r.coeffs@.len() <= seq_degree(divisor.coeffs@))
                &&& (divisor.coeffs@.len() == 1 ==> r.coeffs@ == seq![0u64])
                &&& (seq_is_zero(self.coeffs@) ==> r.coeffs@ == seq![0u64])
                &&& exists|q: Seq<u64>| #[trigger] division_identity(self.coeffs@, q, divisor.coeffs@, r.coeffs@, self.p as int)
            },
    {
        match self.get_quotient_and_remainder(divisor) {
            Some((q, r)) => {
                proof {
                    let qs = q.coeffs@;
                    assert(division_identity(self.coeffs@, qs, divisor.coeffs@, r.coeffs@, self.p as int));
                }
                Some(r)
            },
            None => None,
        }
    }

    /// Computes the quotient of polynomial division; `None` exactly when the
    /// divisor is zero.
    pub fn quotient(&self, divisor: &ModularPoly) -> (res: Option<ModularPoly>)
        requires
            self.p == divisor.p,
            self.p >= 2,
            self.wf(),
            divisor.wf(),
            !seq_is_zero(divisor.coeffs@) ==> has_inverse(leading(divisor.coeffs@), self.p as int),
            self.coeffs@.len() + divisor.coeffs@.len() <= usize::MAX,
        ensures
            res is None <==> seq_is_zero(divisor.coeffs@),
            res matches Some(q) ==> {
                &&& q.p == self.p
                &&& q.wf()
                &&& exists|r: Seq<u64>| (seq_is_zero(r) || r.len() <= seq_degree(divisor.coeffs@))
                    && #[trigger] division_identity(self.coeffs@, q.coeffs@, divisor.coeffs@, r, self.p as int)
            },
    {
        match self.get_quotient_and_remainder(divisor) {
            Some((q, r)) => {
                proof {
                    let rs = r.coeffs@;
                    assert(seq_is_zero(rs) || rs.len() <= seq_degree(divisor.coeffs@));
                    assert(division_identity(self.coeffs@, q.coeffs@, divisor.coeffs@, rs, self.p as int));
                }
                Some(q)
            },
            None => None,
        }
    }
}

impl<'a> std::ops::Add for &'a ModularPoly {
    type Output = ModularPoly;

    /// `&a + &b` is `a.add(&b)`.
    fn add(self, other: &'a ModularPoly) -> (res: ModularPoly)
        ensures
            res.p == self.p,
            res.coeffs@ == trim(add_seq(self.coeffs@, other.coeffs@, self.p as int)),
            res.wf(),
    {
        ModularPoly::add(self, other)
    }
}

/// The operator form states its result in its own `ensures`; the generic
/// operator specification is not used for this type.
impl<'a> vstd::std_specs::ops::AddSpecImpl for &'a ModularPoly {
    open spec fn obeys_add_spec() -> bool {
        false
    }

    open spec fn add_req(self, other: &'a ModularPoly) -> bool {
        self.p == other.p && self.wf() && other.wf()
    }

    open spec fn add_spec(self, other: &'a ModularPoly) -> ModularPoly {
        arbitrary()
    }
}

impl<'a> std::ops::Sub for &'a ModularPoly {
    type Output = ModularPoly;

    /// `&a - &b` is `a.sub(&b)`.
    fn sub(self, other: &'a ModularPoly) -> (res: ModularPoly)
        ensures
            res.p == self.p,
            res.coeffs@ == trim(sub_seq(self.coeffs@, other.coeffs@, self.p as int)),
            res.wf(),
    {
        ModularPoly::sub(self, other)
    }
}

/// The operator form states its result in its own `ensures`; the generic
/// operator specification is not used for this type.
impl<'a> vstd::std_specs::ops::SubSpecImpl for &'a ModularPoly {
    open spec fn obeys_sub_spec() -> bool {
        false
    }

    open spec fn sub_req(self, other: &'a ModularPoly) -> bool {
        self.p == other.p && self.wf() && other.wf()
    }

    open spec fn sub_spec(self, other: &'a ModularPoly) -> ModularPoly {
        arbitrary()
    }
}

impl<'a> std::ops::Mul for &'a ModularPoly {
    type Output = ModularPoly;

    /// `&a * &b` is `a.mul(&b)`.
    fn mul(self, other: &'a ModularPoly) -> (res: ModularPoly)
        ensures
            res.p == self.p,
            res.wf(),
            seq_is_zero(self.coeffs@) || seq_is_zero(other.coeffs@) ==> res.coeffs@ == seq![0u64],
            !seq_is_zero(self.coeffs@) && !seq_is_zero(other.coeffs@) ==> res.coeffs@ == trim(
                mul_seq(self.coeffs@, other.coeffs@, self.p as int),
            ),
    {
        ModularPoly::mul(self, other)
    }
}

/// The operator form states its result in its own `ensures`; the generic
/// operator specification is not used for this type.
impl<'a> vstd::std_specs::ops::MulSpecImpl for &'a ModularPoly {
    open spec fn obeys_mul_spec() -> bool {
        false
    }

    open spec fn mul_req(self, other: &'a ModularPoly) -> bool {
        self.p == other.p && self.wf() && other.wf() && self.coeffs@.len() + other.coeffs@.len()
            <= usize::MAX
    }

    open spec fn mul_spec(self, other: &'a ModularPoly) -> ModularPoly {
        arbitrary()
    }
}



} // verus!
