//! What the numbers in a polynomial's text say: every numeral, plain or in
//! superscript, reads back as the number it was written for.

use vstd::prelude::*;
use crate::text::{decimal, digit_char, is_digit, int_text};
use crate::poly_parse::{all_digits, digits_value};
use crate::poly_equation::{sup_digit, superscript, monomial_text, equation_text, eq_constant};
use crate::poly_format::{TermV, iabs, var_name, vars_text, term_text, omitted_note, poly_text, terms_text_from};
use crate::modular_text::mp_term;

verus! {

/// `s` is a numeral of at least one digit whose value is `n`.
pub open spec fn numeral_of(s: Seq<char>, n: int) -> bool {
    &&& s.len() >= 1
    &&& all_digits(s)
    &&& digits_value(s) == n
}

/// The digit that a superscript character stands for, or -1.
pub open spec fn sup_index(c: char) -> int {
    if c == '⁰' {
        0
    } else if c == '¹' {
        1
    } else if c == '²' {
        2
    } else if c == '³' {
        3
    } else if c == '⁴' {
        4
    } else if c == '⁵' {
        5
    } else if c == '⁶' {
        6
    } else if c == '⁷' {
        7
    } else if c == '⁸' {
        8
    } else if c == '⁹' {
        9
    } else {
        -1
    }
}

/// The value of a string of superscript digits.
pub open spec fn sup_value(s: Seq<char>) -> int
    decreases s.len(),
{
    if s.len() == 0 {
        0
    } else {
        sup_value(s.drop_last()) * 10 + sup_index(s.last())
    }
}

/// `s` is a superscript numeral of at least one digit whose value is `n`.
pub open spec fn sup_numeral_of(s: Seq<char>, n: int) -> bool {
    &&& s.len() >= 1
    &&& forall|i: int| 0 <= i < s.len() ==> 0 <= #[trigger] sup_index(s[i]) <= 9
    &&& sup_value(s) == n
}

/// `s` writes the power `v^e` of an equation: nothing for `e == 0`, the
/// letter alone for `e == 1`, else the letter and `e` in superscript.
pub open spec fn eq_power_of(s: Seq<char>, v: char, e: int) -> bool {
    if e == 0 {
        s.len() == 0
    } else if e == 1 {
        s == seq![v]
    } else {
        s.len() >= 2 && s[0] == v && sup_numeral_of(s.skip(1), e)
    }
}

/// The monomial of `t` is `num`, `xs` and `ys`: the coefficient's absolute
/// value as a numeral (left out when it is 1 and `x` or `y` follows), then
/// the powers of `x` and `y`.
pub open spec fn monomial_parts(t: (i64, u32, u32), num: Seq<char>, xs: Seq<char>, ys: Seq<char>) -> bool {
    let a = iabs(t.0 as int);
    &&& monomial_text(t) == num + xs + ys
    &&& (if a == 1 && (t.1 > 0 || t.2 > 0) {
        num.len() == 0
    } else {
        numeral_of(num, a)
    })
    &&& eq_power_of(xs, 'x', t.1 as int)
    &&& eq_power_of(ys, 'y', t.2 as int)
}

/// The equation is `lhs = rhs`, `rhs` the numeral of the constant term's
/// absolute value, 0 when there is none.
pub open spec fn equation_sides(ts: Seq<TermV>, x: u8, y: u8, lhs: Seq<char>, rhs: Seq<char>) -> bool {
    let c = match eq_constant(ts, x, y, ts.len() as int) {
        Some(c) => c,
        None => 0,
    };
    &&& equation_text(ts, x, y) == lhs + seq![' ', '=', ' '] + rhs
    &&& numeral_of(rhs, iabs(c))
}

/// The variable at `j` is written as `pre`, its name and `pw` (see
/// `law_vars_text`).
pub open spec fn var_parts(vs: Seq<(u8, u32)>, j: int, star: bool, pre: Seq<char>, pw: Seq<char>) -> bool {
    &&& vars_text(vs, j, star) == pre + var_name(vs[j].0) + pw + vars_text(vs, j + 1, star)
    &&& pre == (if star || j > 0 { seq!['*'] } else { Seq::<char>::empty() })
    &&& (if vs[j].1 > 1 {
        pw.len() >= 2 && pw[0] == '^' && numeral_of(pw.skip(1), vs[j].1 as int)
    } else {
        pw.len() == 0
    })
}

/// The term is `sign`, `num` and its variables (see `law_term_text`).
pub open spec fn term_parts(t: TermV, first: bool, sign: Seq<char>, num: Seq<char>) -> bool {
    let a = iabs(t.0);
    &&& term_text(t, first) == sign + num + vars_text(t.1, 0, a != 1)
    &&& sign == (if t.0 < 0 {
        if first { seq!['-'] } else { seq![' ', '-', ' '] }
    } else {
        if first { Seq::<char>::empty() } else { seq![' ', '+', ' '] }
    })
    &&& (if a == 1 && t.1.len() > 0 {
        num.len() == 0
    } else {
        numeral_of(num, a)
    })
}

/// A decimal numeral reads back as its number.
pub proof fn law_decimal_reads_back(n: nat)
    ensures
        numeral_of(decimal(n), n as int),
    decreases n,
{
    if n >= 10 {
        law_decimal_reads_back(n / 10);
        let d = decimal(n);
        assert(d.drop_last() =~= decimal(n / 10));
        assert(d.last() == digit_char((n % 10) as int));
        assert(d.last() as int == 48 + n % 10);
        assert(is_digit(d.last()));
        assert(digits_value(d) == digits_value(d.drop_last()) * 10 + (d.last() as int - 48));
        assert(n == (n / 10) * 10 + n % 10);
        assert forall|i: int| 0 <= i < d.len() implies #[trigger] is_digit(d[i]) by {
            if i < d.len() - 1 {
                assert(d[i] == decimal(n / 10)[i]);
            }
        }
    } else {
        let d = decimal(n);
        assert(d == seq![digit_char(n as int)]);
        assert(d.drop_last() =~= Seq::<char>::empty());
        assert(d.last() as int == 48 + n);
        assert(digits_value(d) == digits_value(d.drop_last()) * 10 + (d.last() as int - 48));
        assert(is_digit(d[0]));
    }
}

/// A superscript numeral reads back as its number.
pub proof fn law_superscript_reads_back(n: nat)
    ensures
        sup_numeral_of(superscript(n), n as int),
    decreases n,
{
    if n >= 10 {
        law_superscript_reads_back(n / 10);
        let d = superscript(n);
        assert(d.drop_last() =~= superscript(n / 10));
        assert(d.last() == sup_digit((n % 10) as int));
        assert(sup_index(d.last()) == n % 10);
        assert(sup_value(d) == sup_value(d.drop_last()) * 10 + sup_index(d.last()));
        assert(n == (n / 10) * 10 + n % 10);
        assert forall|i: int| 0 <= i < d.len() implies 0 <= #[trigger] sup_index(d[i]) <= 9 by {
            if i < d.len() - 1 {
                assert(d[i] == superscript(n / 10)[i]);
            }
        }
    } else {
        let d = superscript(n);
        assert(d == seq![sup_digit(n as int)]);
        assert(d.drop_last() =~= Seq::<char>::empty());
        assert(sup_index(d.last()) == n);
        assert(sup_value(d) == sup_value(d.drop_last()) * 10 + sup_index(d.last()));
        assert(0 <= sup_index(d[0]) <= 9);
    }
}

/// An integer's text is its absolute value as a numeral, after a minus sign
/// exactly when it is negative.
pub proof fn law_int_text(n: int)
    ensures
        n < 0 ==> int_text(n)[0] == '-' && numeral_of(int_text(n).skip(1), -n),
        n >= 0 ==> numeral_of(int_text(n), n),
{
    if n < 0 {
        law_decimal_reads_back((-n) as nat);
        assert(int_text(n).skip(1) =~= decimal((-n) as nat));
    } else {
        law_decimal_reads_back(n as nat);
    }
}

/// A monomial of an equation is its coefficient's absolute value as a
/// numeral (left out when it is 1 and `x` or `y` follows), then `x` with its
/// degree, then `y` with its degree; degrees above one in superscript.
pub proof fn law_monomial_text(t: (i64, u32, u32))
    ensures
        exists|num: Seq<char>, xs: Seq<char>, ys: Seq<char>| #[trigger] monomial_parts(t, num, xs, ys),
{
    let a = iabs(t.0 as int);
    assert(a == (if t.0 < 0 { -t.0 } else { t.0 as int }));
    law_decimal_reads_back(a as nat);
    law_superscript_reads_back(t.1 as nat);
    law_superscript_reads_back(t.2 as nat);
    let num = if a == 1 && (t.1 > 0 || t.2 > 0) { Seq::<char>::empty() } else { decimal(a as nat) };
    let xs = if t.1 == 0 { Seq::<char>::empty() } else if t.1 == 1 { seq!['x'] } else { seq!['x'] + superscript(t.1 as nat) };
    let ys = if t.2 == 0 { Seq::<char>::empty() } else if t.2 == 1 { seq!['y'] } else { seq!['y'] + superscript(t.2 as nat) };
    if t.1 > 1 {
        assert(xs.skip(1) =~= superscript(t.1 as nat));
    }
    if t.2 > 1 {
        assert(ys.skip(1) =~= superscript(t.2 as nat));
    }
    assert(eq_power_of(xs, 'x', t.1 as int));
    assert(eq_power_of(ys, 'y', t.2 as int));
    assert(monomial_text(t) =~= num + xs + ys);
    assert(monomial_parts(t, num, xs, ys));
}

/// The right side of an equation is the absolute value of the constant
/// term, 0 when there is none, as a numeral.
pub proof fn law_equation_right_side(ts: Seq<TermV>, x: u8, y: u8)
    ensures
        exists|lhs: Seq<char>, rhs: Seq<char>| #[trigger] equation_sides(ts, x, y, lhs, rhs),
{
    let c = match eq_constant(ts, x, y, ts.len() as int) {
        Some(c) => c,
        None => 0,
    };
    law_decimal_reads_back(iabs(c) as nat);
    law_decimal_reads_back(0);
    assert(decimal(0) =~= seq!['0']);
    let rhs = decimal(iabs(c) as nat);
    assert(numeral_of(rhs, iabs(c)));
    let t = equation_text(ts, x, y);
    let lhs = t.take(t.len() - 3 - rhs.len());
    assert(t =~= lhs + seq![' ', '=', ' '] + rhs);
    assert(equation_sides(ts, x, y, lhs, rhs));
}

/// A variable's name is its letter, then, for the variables after the
/// first 26, the numeral of how many times 26 lies below it.
pub proof fn law_var_name(v: u8)
    ensures
        var_name(v)[0] == (97 + v % 26) as char,
        v < 26 ==> var_name(v).len() == 1,
        v >= 26 ==> numeral_of(var_name(v).skip(1), (v / 26) as int),
{
    law_decimal_reads_back((v / 26) as nat);
    if v >= 26 {
        assert(var_name(v).skip(1) =~= decimal((v / 26) as nat));
    }
}

/// In the text of a term's variables from position `j` on, the variable at
/// `j` is written by its name, then, when its degree is above one, `^` and
/// the degree as a numeral; a `*` goes before it when it is not the first
/// or `star` holds; the later variables follow.
pub proof fn law_vars_text(vs: Seq<(u8, u32)>, j: int, star: bool)
    requires
        0 <= j < vs.len(),
    ensures
        exists|pre: Seq<char>, pw: Seq<char>| #[trigger] var_parts(vs, j, star, pre, pw),
{
    law_decimal_reads_back(vs[j].1 as nat);
    let pre = if star || j > 0 { seq!['*'] } else { Seq::<char>::empty() };
    let pw = if vs[j].1 > 1 { seq!['^'] + decimal(vs[j].1 as nat) } else { Seq::<char>::empty() };
    if vs[j].1 > 1 {
        assert(pw.skip(1) =~= decimal(vs[j].1 as nat));
        assert(numeral_of(pw.skip(1), vs[j].1 as int));
    }
    assert(vars_text(vs, j, star) =~= pre + var_name(vs[j].0) + pw + vars_text(vs, j + 1, star));
    assert(var_parts(vs, j, star, pre, pw));
}

/// A term's text is its sign (`-` or ` - ` when negative, ` + ` when not
/// first and not negative), then its coefficient's absolute value as a
/// numeral (left out when it is 1 and variables follow), then its variables,
/// each after a `*` when a numeral comes first.
pub proof fn law_term_text(t: TermV, first: bool)
    ensures
        exists|sign: Seq<char>, num: Seq<char>| #[trigger] term_parts(t, first, sign, num),
{
    let a = iabs(t.0);
    law_decimal_reads_back(a as nat);
    let sign = if t.0 < 0 {
        if first { seq!['-'] } else { seq![' ', '-', ' '] }
    } else {
        if first { Seq::<char>::empty() } else { seq![' ', '+', ' '] }
    };
    let num = if a != 1 || t.1.len() == 0 { decimal(a as nat) } else { Seq::<char>::empty() };
    assert(term_text(t, first) =~= sign + num + vars_text(t.1, 0, a != 1));
    if !(a == 1 && t.1.len() > 0) {
        assert(numeral_of(num, a));
    }
    assert(term_parts(t, first, sign, num));
}

/// The term `c x^i` of a polynomial over Z/pZ is `num`, then `pw`: the
/// coefficient as a numeral (left out when it is 1 beside a power of `x`),
/// then nothing for `i == 0`, `x` for `i == 1`, else `x^` and `i` as a numeral.
pub open spec fn mp_term_parts(c: u64, i: int, num: Seq<char>, pw: Seq<char>) -> bool {
    &&& mp_term(c, i) == num + pw
    &&& (if c == 1 && i > 0 {
        num.len() == 0
    } else {
        numeral_of(num, c as int)
    })
    &&& (if i == 0 {
        pw.len() == 0
    } else if i == 1 {
        pw == seq!['x']
    } else {
        pw.len() >= 3 && pw[0] == 'x' && pw[1] == '^' && numeral_of(pw.skip(2), i)
    })
}

/// The numerals of a term over Z/pZ read back as its coefficient and its
/// power of `x`.
pub proof fn law_mp_term(c: u64, i: int)
    requires
        i >= 0,
    ensures
        exists|num: Seq<char>, pw: Seq<char>| #[trigger] mp_term_parts(c, i, num, pw),
{
    law_decimal_reads_back(c as nat);
    law_decimal_reads_back(i as nat);
    let num = if c == 1 && i > 0 { Seq::<char>::empty() } else { decimal(c as nat) };
    let pw = if i == 0 {
        Seq::<char>::empty()
    } else if i == 1 {
        seq!['x']
    } else {
        seq!['x', '^'] + decimal(i as nat)
    };
    if i > 1 {
        assert(pw.skip(2) =~= decimal(i as nat));
    }
    assert(mp_term(c, i) =~= num + pw);
    assert(mp_term_parts(c, i, num, pw));
}

/// The texts of the terms from position `i` on, one after the other, the
/// term at position 0 written as the first.
pub open spec fn all_terms(ts: Seq<TermV>, i: int) -> Seq<char>
    decreases ts.len() - i,
{
    if i < 0 || i >= ts.len() {
        Seq::empty()
    } else {
        term_text(ts[i], i == 0) + all_terms(ts, i + 1)
    }
}

proof fn lemma_full_from(ts: Seq<TermV>, i: int, lex: int)
    requires
        0 <= i,
    ensures
        terms_text_from(ts, i, lex, i == 0, true) == all_terms(ts, i),
    decreases ts.len() - i,
{
    if i < ts.len() {
        lemma_full_from(ts, i + 1, lex + crate::poly_format::term_lexemes(ts[i]));
    }
}

/// The full text of a polynomial writes every term, in order, and nothing
/// else: `0` when there are none.
pub proof fn law_full_text(ts: Seq<TermV>)
    ensures
        ts.len() > 0 ==> poly_text(ts, true) == all_terms(ts, 0),
        ts.len() == 0 ==> poly_text(ts, true) == seq!['0'],
{
    lemma_full_from(ts, 0, 0);
}

/// The note for omitted terms gives their number as a numeral.
pub proof fn law_omitted_note(k: int)
    requires
        k >= 0,
    ensures
        exists|d: Seq<char>|
            #[trigger] numeral_of(d, k) && omitted_note(k) == seq!['.', '.', '.', ' ', '('] + d + " terms omitted)"@,
{
    reveal_strlit(" terms omitted)");
    law_decimal_reads_back(k as nat);
    let d = decimal(k as nat);
    assert(omitted_note(k) =~= seq!['.', '.', '.', ' ', '('] + d + " terms omitted)"@);
    assert(numeral_of(d, k));
}

} // verus!
