//! A polynomial in two variables written as an equation in `x` and `y`,
//! with superscript degrees, such as `x² + y² = 25`.

use vstd::prelude::*;
use crate::poly::{Poly, sv};
use crate::poly_format::{Term, TermV, terms_of, terms_view, terms_in_range};
use crate::text::{decimal, push_char, push_decimal};

verus! {

/// The superscript character of a decimal digit.
pub open spec fn sup_digit(d: int) -> char {
    if d == 0 {
        '⁰'
    } else if d == 1 {
        '¹'
    } else if d == 2 {
        '²'
    } else if d == 3 {
        '³'
    } else if d == 4 {
        '⁴'
    } else if d == 5 {
        '⁵'
    } else if d == 6 {
        '⁶'
    } else if d == 7 {
        '⁷'
    } else if d == 8 {
        '⁸'
    } else {
        '⁹'
    }
}

/// The decimal numeral of `n` in superscript digits.
pub open spec fn superscript(n: nat) -> Seq<char>
    decreases n,
{
    if n < 10 {
        seq![sup_digit(n as int)]
    } else {
        superscript(n / 10).push(sup_digit((n % 10) as int))
    }
}

/// One signed part of an equation side: a `-` before the first part when its
/// number is negative; ` + ` before a later part when its number is
/// positive and ` - ` otherwise.
pub open spec fn part_text(p: (int, Seq<char>), first: bool) -> Seq<char> {
    let sign = if !first {
        if p.0 > 0 { seq![' ', '+', ' '] } else { seq![' ', '-', ' '] }
    } else if p.0 < 0 {
        seq!['-']
    } else {
        seq![]
    };
    sign + p.1
}

/// The first `n` parts, one after the other.
pub open spec fn parts_text_upto(ps: Seq<(int, Seq<char>)>, n: int) -> Seq<char>
    decreases n,
{
    if n <= 0 {
        seq![]
    } else {
        parts_text_upto(ps, n - 1) + part_text(ps[n - 1], n - 1 == 0)
    }
}

/// The parts of an equation side; `0` when there are none.
pub open spec fn parts_text(ps: Seq<(int, Seq<char>)>) -> Seq<char> {
    if ps.len() == 0 {
        seq!['0']
    } else {
        parts_text_upto(ps, ps.len() as int)
    }
}

/// Parts as plain values.
pub open spec fn parts_view(ps: Seq<(i64, String)>) -> Seq<(int, Seq<char>)> {
    Seq::new(ps.len(), |i: int| (ps[i].0 as int, ps[i].1@))
}

/// The degree of `u` among the first `n` variables of a term: that of the
/// last one that is `u`, zero when none is.
pub open spec fn deg_of(vs: Seq<(u8, u32)>, u: u8, n: int) -> int
    decreases n,
{
    if n <= 0 {
        0
    } else if vs[n - 1].0 == u {
        vs[n - 1].1 as int
    } else {
        deg_of(vs, u, n - 1)
    }
}

/// The degree of `x` in a term.
pub open spec fn x_deg(t: TermV, x: u8) -> int {
    deg_of(t.1, x, t.1.len() as int)
}

/// The degree of `y` in a term; zero when `y` is `x`.
pub open spec fn y_deg(t: TermV, x: u8, y: u8) -> int {
    if x == y { 0 } else { deg_of(t.1, y, t.1.len() as int) }
}

/// Every variable of every term is `x` or `y`.
pub open spec fn only_x_y(ts: Seq<TermV>, x: u8, y: u8) -> bool {
    forall|i: int, j: int|
        0 <= i < ts.len() && 0 <= j < ts[i].1.len() ==> #[trigger] ts[i].1[j].0 == x || ts[i].1[j].0 == y
}

/// The number of the last of the first `n` terms without `x` and `y`.
pub open spec fn eq_constant(ts: Seq<TermV>, x: u8, y: u8, n: int) -> Option<int>
    decreases n,
{
    if n <= 0 {
        None
    } else if x_deg(ts[n - 1], x) == 0 && y_deg(ts[n - 1], x, y) == 0 {
        Some(ts[n - 1].0)
    } else {
        eq_constant(ts, x, y, n - 1)
    }
}

/// The first `n` terms with `x` or `y`, as `(number, degree of x, degree of y)`.
pub open spec fn eq_var_terms(ts: Seq<TermV>, x: u8, y: u8, n: int) -> Seq<(i64, u32, u32)>
    decreases n,
{
    if n <= 0 {
        seq![]
    } else {
        let t = ts[n - 1];
        if x_deg(t, x) == 0 && y_deg(t, x, y) == 0 {
            eq_var_terms(ts, x, y, n - 1)
        } else {
            eq_var_terms(ts, x, y, n - 1).push((t.0 as i64, x_deg(t, x) as u32, y_deg(t, x, y) as u32))
        }
    }
}

/// Every term's degrees in `x` and `y` add up within a `u32`.
pub open spec fn degree_sums_fit(ts: Seq<TermV>, x: u8, y: u8) -> bool {
    forall|i: int| 0 <= i < ts.len() ==> x_deg(#[trigger] ts[i], x) + y_deg(ts[i], x, y) <= u32::MAX
}

/// `a` goes before `b`: a higher total degree, or the same and a higher degree of `x`.
pub open spec fn goes_before(a: (i64, u32, u32), b: (i64, u32, u32)) -> bool {
    a.1 + a.2 > b.1 + b.2 || (a.1 + a.2 == b.1 + b.2 && a.1 > b.1)
}

/// Where `e` enters a list that is in order, after every entry that it does
/// not go before, looking from position `k` on.
pub open spec fn entry_pos(r: Seq<(i64, u32, u32)>, e: (i64, u32, u32), k: int) -> int
    decreases r.len() - k,
{
    if k < 0 || k >= r.len() {
        r.len() as int
    } else if goes_before(e, r[k]) {
        k
    } else {
        entry_pos(r, e, k + 1)
    }
}

/// The first `n` entries in order of `goes_before`, entries in neither order
/// keeping their places (a stable sort, by insertion).
pub open spec fn sort_upto(s: Seq<(i64, u32, u32)>, n: int) -> Seq<(i64, u32, u32)>
    decreases n,
{
    if n <= 0 {
        seq![]
    } else {
        let r = sort_upto(s, n - 1);
        r.insert(entry_pos(r, s[n - 1], 0), s[n - 1])
    }
}

/// The monomial of a term with `x` or `y`: its number when that is not 1 in
/// absolute value, then `x` and `y` with their degrees above one in superscript.
pub open spec fn monomial_text(t: (i64, u32, u32)) -> Seq<char> {
    let a = if t.0 < 0 { -t.0 } else { t.0 as int };
    if t.1 == 0 && t.2 == 0 {
        decimal(a as nat)
    } else {
        (if a != 1 { decimal(a as nat) } else { seq![] }) + (if t.1 > 0 {
            seq!['x'] + (if t.1 > 1 { superscript(t.1 as nat) } else { seq![] })
        } else {
            seq![]
        }) + (if t.2 > 0 {
            seq!['y'] + (if t.2 > 1 { superscript(t.2 as nat) } else { seq![] })
        } else {
            seq![]
        })
    }
}

/// The parts of the side with the variables.
pub open spec fn eq_parts(vt: Seq<(i64, u32, u32)>) -> Seq<(int, Seq<char>)> {
    Seq::new(vt.len(), |i: int| (vt[i].0 as int, monomial_text(vt[i])))
}

/// The parts with their signs turned.
pub open spec fn negated(ps: Seq<(int, Seq<char>)>) -> Seq<(int, Seq<char>)> {
    Seq::new(ps.len(), |i: int| (-ps[i].0, ps[i].1))
}

/// The equation of a polynomial given by its terms: the terms with variables
/// on the left in order of `goes_before`, the constant on the right, the
/// left side negated when the constant is positive.
pub open spec fn equation_text(ts: Seq<TermV>, x: u8, y: u8) -> Seq<char> {
    let ps = eq_parts(sort_upto(eq_var_terms(ts, x, y, ts.len() as int), eq_var_terms(ts, x, y, ts.len() as int).len() as int));
    let eq0 = seq![' ', '=', ' '];
    match eq_constant(ts, x, y, ts.len() as int) {
        Some(c) => if c > 0 {
            if ps.len() > 0 {
                parts_text(negated(ps)) + eq0 + decimal(c as nat)
            } else {
                seq!['0'] + eq0 + decimal(c as nat)
            }
        } else if c < 0 {
            if ps.len() > 0 {
                parts_text(ps) + eq0 + decimal((-c) as nat)
            } else {
                seq!['0'] + eq0 + decimal((-c) as nat)
            }
        } else {
            if ps.len() > 0 {
                parts_text(ps) + eq0 + seq!['0']
            } else {
                seq!['0'] + eq0 + seq!['0']
            }
        },
        None => if ps.len() > 0 {
            parts_text(ps) + eq0 + seq!['0']
        } else {
            seq!['0'] + eq0 + seq!['0']
        },
    }
}

/// Appends `n` in superscript digits.
fn push_superscript(s: &mut String, n: u64)
    ensures
        final(s)@ == old(s)@ + superscript(n as nat),
    decreases n,
{
    if n >= 10 {
        push_superscript(s, n / 10);
        push_char(s, sup_char(n % 10));
        assert(superscript(n as nat) == superscript((n / 10) as nat).push(sup_digit((n % 10) as int)));
    } else {
        push_char(s, sup_char(n));
    }
}

/// The superscript character of the digit `d`.
fn sup_char(d: u64) -> (c: char)
    requires
        d < 10,
    ensures
        c == sup_digit(d as int),
{
    match d {
        0 => '⁰',
        1 => '¹',
        2 => '²',
        3 => '³',
        4 => '⁴',
        5 => '⁵',
        6 => '⁶',
        7 => '⁷',
        8 => '⁸',
        _ => '⁹',
    }
}

impl Poly {
    /// The decimal numeral of a degree in superscript digits.
    pub fn degree_to_superscript(degree: u32) -> (r: String)
        ensures
            r@ == superscript(degree as nat),
    {
        let mut s = String::new();
        push_superscript(&mut s, degree as u64);
        assert(s@ =~= superscript(degree as nat));
        s
    }

    /// The parts one after the other with their signs (see `parts_text`).
    fn format_polynomial_parts(parts: &Vec<(i64, String)>) -> (r: String)
        ensures
            r@ == parts_text(parts_view(parts@)),
    {
        let mut result = String::new();
        if parts.len() == 0 {
            push_char(&mut result, '0');
            assert(result@ =~= seq!['0']);
            return result;
        }
        let ghost ps = parts_view(parts@);
        let mut i: usize = 0;
        while i < parts.len()
            invariant
                ps == parts_view(parts@),
                i <= parts@.len(),
                result@ == parts_text_upto(ps, i as int),
            decreases parts@.len() - i,
        {
            let coeff = parts[i].0;
            let ghost before = result@;
            if i > 0 {
                if coeff > 0 {
                    push_char(&mut result, ' ');
                    push_char(&mut result, '+');
                    push_char(&mut result, ' ');
                } else {
                    push_char(&mut result, ' ');
                    push_char(&mut result, '-');
                    push_char(&mut result, ' ');
                }
            } else if coeff < 0 {
                push_char(&mut result, '-');
            }
            let ghost mid = result@;
            result.append(parts[i].1.as_str());
            proof {
                assert(ps[i as int] == (coeff as int, parts@[i as int].1@));
                assert(result@ =~= before + part_text(ps[i as int], i == 0));
            }
            i = i + 1;
        }
        result
    }

    /// The degrees of `x` and `y` in a term; `y` counts only when it is not `x`.
    fn term_degrees(t: &Term, x_var: u8, y_var: u8) -> (r: (u32, u32))
        ensures
            r.0 as int == x_deg(t@, x_var),
            r.1 as int == y_deg(t@, x_var, y_var),
    {
        let mut xd: u32 = 0;
        let mut yd: u32 = 0;
        let mut k: usize = 0;
        while k < t.vars.len()
            invariant
                k <= t.vars@.len(),
                xd as int == deg_of(t.vars@, x_var, k as int),
                yd as int == (if x_var == y_var { 0 } else { deg_of(t.vars@, y_var, k as int) }),
            decreases t.vars@.len() - k,
        {
            let (u, d) = t.vars[k];
            if u == x_var {
                xd = d;
            } else if u == y_var {
                yd = d;
            }
            k = k + 1;
        }
        (xd, yd)
    }

    /// The polynomial, which has no variables other than `x_var` and `y_var`,
    /// as an equation in `x` and `y` (see `equation_text`).
    pub fn as_formatted_equation(&self, x_var: u8, y_var: u8) -> (r: String)
        requires
            only_x_y(terms_of(sv(*self)), x_var, y_var),
            terms_in_range(terms_of(sv(*self))),
            degree_sums_fit(terms_of(sv(*self)), x_var, y_var),
        ensures
            r@ == equation_text(terms_of(sv(*self)), x_var, y_var),
    {
        let terms = self.to_terms();
        let ghost ts = terms_of(sv(*self));
        let mut constant_term: Option<i64> = None;
        let mut variable_terms: Vec<(i64, u32, u32)> = Vec::new();
        let mut i: usize = 0;
        while i < terms.len()
            invariant
                terms_view(terms@) == ts,
                ts == terms_of(sv(*self)),
                terms_in_range(ts),
                degree_sums_fit(ts, x_var, y_var),
                i <= terms@.len(),
                (match constant_term {
                    Some(c) => eq_constant(ts, x_var, y_var, i as int) == Some(c as int),
                    None => eq_constant(ts, x_var, y_var, i as int) == None::<int>,
                }),
                variable_terms@ == eq_var_terms(ts, x_var, y_var, i as int),
                forall|q: int| 0 <= q < variable_terms@.len() ==> (#[trigger] variable_terms@[q]).0 > i64::MIN && variable_terms@[q].1 + variable_terms@[q].2 <= u32::MAX,
            decreases terms@.len() - i,
        {
            let t: &Term = &terms[i];
            assert(ts[i as int] == t@);
            let (xd, yd) = Poly::term_degrees(t, x_var, y_var);
            if xd == 0 && yd == 0 {
                constant_term = Some(t.constant);
            } else {
                variable_terms.push((t.constant, xd, yd));
            }
            i = i + 1;
        }
        let ghost vt = variable_terms@;
        let mut sorted: Vec<(i64, u32, u32)> = Vec::new();
        let mut j: usize = 0;
        while j < variable_terms.len()
            invariant
                vt == variable_terms@,
                j <= vt.len(),
                sorted@ == sort_upto(vt, j as int),
                sorted@.len() == j,
                forall|q: int| 0 <= q < vt.len() ==> (#[trigger] vt[q]).0 > i64::MIN && vt[q].1 + vt[q].2 <= u32::MAX,
                forall|q: int| 0 <= q < sorted@.len() ==> (#[trigger] sorted@[q]).0 > i64::MIN && sorted@[q].1 + sorted@[q].2 <= u32::MAX,
            decreases vt.len() - j,
        {
            let e = variable_terms[j];
            let mut p: usize = 0;
            while p < sorted.len() && !Poly::term_goes_before(e, sorted[p])
                invariant
                    p <= sorted@.len(),
                    entry_pos(sorted@, e, 0) == entry_pos(sorted@, e, p as int),
                    e.1 + e.2 <= u32::MAX,
                    forall|q: int| 0 <= q < sorted@.len() ==> (#[trigger] sorted@[q]).1 + sorted@[q].2 <= u32::MAX,
                decreases sorted@.len() - p,
            {
                p = p + 1;
            }
            let ghost old_sorted = sorted@;
            sorted.insert(p, e);
            proof {
                assert(entry_pos(old_sorted, e, p as int) == p as int);
                assert(sort_upto(vt, j + 1) == old_sorted.insert(p as int, e));
                assert forall|q: int| 0 <= q < sorted@.len() implies (#[trigger] sorted@[q]).0 > i64::MIN && sorted@[q].1
                    + sorted@[q].2 <= u32::MAX by {
                    if q < p {
                        assert(sorted@[q] == old_sorted[q]);
                    } else if q > p {
                        assert(sorted@[q] == old_sorted[q - 1]);
                    }
                }
            }
            j = j + 1;
        }
        let mut parts: Vec<(i64, String)> = Vec::new();
        let mut k: usize = 0;
        while k < sorted.len()
            invariant
                sorted@ == sort_upto(vt, vt.len() as int),
                k <= sorted@.len(),
                parts@.len() == k,
                forall|q: int| 0 <= q < sorted@.len() ==> (#[trigger] sorted@[q]).0 > i64::MIN,
                forall|q: int| 0 <= q < k ==> #[trigger] parts_view(parts@)[q] == eq_parts(sorted@)[q],
                forall|q: int| 0 <= q < k ==> (#[trigger] parts@[q]).0 > i64::MIN,
            decreases sorted@.len() - k,
        {
            let (coeff, xd, yd) = sorted[k];
            let mut monomial = String::new();
            let a: u64 = if coeff < 0 { (-coeff) as u64 } else { coeff as u64 };
            if xd == 0 && yd == 0 {
                push_decimal(&mut monomial, a);
            } else {
                if a != 1 {
                    push_decimal(&mut monomial, a);
                }
                if xd > 0 {
                    push_char(&mut monomial, 'x');
                    if xd > 1 {
                        push_superscript(&mut monomial, xd as u64);
                    }
                }
                if yd > 0 {
                    push_char(&mut monomial, 'y');
                    if yd > 1 {
                        push_superscript(&mut monomial, yd as u64);
                    }
                }
            }
            proof {
                assert(monomial@ =~= monomial_text(sorted@[k as int]));
            }
            let ghost before = parts@;
            parts.push((coeff, monomial));
            proof {
                assert forall|q: int| 0 <= q < k + 1 implies #[trigger] parts_view(parts@)[q] == eq_parts(sorted@)[q] by {
                    if q < k {
                        assert(parts@[q] == before[q]);
                        assert(parts_view(before)[q] == eq_parts(sorted@)[q]);
                    }
                }
            }
            k = k + 1;
        }
        let ghost ps = eq_parts(sorted@);
        proof {
            assert(parts_view(parts@) =~= ps);
        }
        let mut equation = String::new();
        let has_parts = parts.len() > 0;
        match constant_term {
            Some(c) => {
                if c > 0 {
                    if has_parts {
                        let mut negs: Vec<(i64, String)> = Vec::new();
                        let mut q: usize = 0;
                        while q < parts.len()
                            invariant
                                q <= parts@.len(),
                                negs@.len() == q,
                                forall|z: int| 0 <= z < parts@.len() ==> (#[trigger] parts@[z]).0 > i64::MIN,
                                forall|z: int| 0 <= z < q ==> #[trigger] parts_view(negs@)[z] == negated(parts_view(parts@))[z],
                            decreases parts@.len() - q,
                        {
                            let m = parts[q].1.clone();
                            let ghost before = negs@;
                            negs.push((-parts[q].0, m));
                            proof {
                                assert forall|z: int| 0 <= z < q + 1 implies #[trigger] parts_view(negs@)[z] == negated(
                                    parts_view(parts@),
                                )[z] by {
                                    if z < q {
                                        assert(negs@[z] == before[z]);
                                        assert(parts_view(before)[z] == negated(parts_view(parts@))[z]);
                                    }
                                }
                            }
                            q = q + 1;
                        }
                        proof {
                            assert(parts_view(negs@) =~= negated(ps));
                        }
                        let side = Poly::format_polynomial_parts(&negs);
                        equation.append(side.as_str());
                    } else {
                        push_char(&mut equation, '0');
                    }
                    push_char(&mut equation, ' ');
                    push_char(&mut equation, '=');
                    push_char(&mut equation, ' ');
                    push_decimal(&mut equation, c as u64);
                } else if c < 0 {
                    if has_parts {
                        let side = Poly::format_polynomial_parts(&parts);
                        equation.append(side.as_str());
                    } else {
                        push_char(&mut equation, '0');
                    }
                    push_char(&mut equation, ' ');
                    push_char(&mut equation, '=');
                    push_char(&mut equation, ' ');
                    proof {
                        assert(eq_constant(ts, x_var, y_var, ts.len() as int) == Some(c as int));
                        assert(c > i64::MIN) by {
                            lemma_eq_constant_range(ts, x_var, y_var, ts.len() as int);
                        }
                    }
                    push_decimal(&mut equation, (-c) as u64);
                } else {
                    if has_parts {
                        let side = Poly::format_polynomial_parts(&parts);
                        equation.append(side.as_str());
                    } else {
                        push_char(&mut equation, '0');
                    }
                    push_char(&mut equation, ' ');
                    push_char(&mut equation, '=');
                    push_char(&mut equation, ' ');
                    push_char(&mut equation, '0');
                }
            },
            None => {
                if has_parts {
                    let side = Poly::format_polynomial_parts(&parts);
                    equation.append(side.as_str());
                } else {
                    push_char(&mut equation, '0');
                }
                push_char(&mut equation, ' ');
                push_char(&mut equation, '=');
                push_char(&mut equation, ' ');
                push_char(&mut equation, '0');
            },
        }
        proof {
            assert(equation@ =~= equation_text(ts, x_var, y_var));
        }
        equation
    }

    /// Whether `a` goes before `b` (see `goes_before`).
    fn term_goes_before(a: (i64, u32, u32), b: (i64, u32, u32)) -> (r: bool)
        requires
            a.1 + a.2 <= u32::MAX,
            b.1 + b.2 <= u32::MAX,
        ensures
            r == goes_before(a, b),
    {
        let total1 = a.1 + a.2;
        let total2 = b.1 + b.2;
        total1 > total2 || (total1 == total2 && a.1 > b.1)
    }
}

/// The constant of an equation is the number of one of the terms.
proof fn lemma_eq_constant_range(ts: Seq<TermV>, x: u8, y: u8, n: int)
    requires
        terms_in_range(ts),
        n <= ts.len(),
    ensures
        eq_constant(ts, x, y, n) matches Some(c) ==> c > i64::MIN,
    decreases n,
{
    if n > 0 {
        lemma_eq_constant_range(ts, x, y, n - 1);
    }
}

} // verus!
