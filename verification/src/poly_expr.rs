//! Reading polynomials written with parentheses, as Pari/GP prints them:
//! sums of monomials and of parenthesized sums, each of which may be
//! followed by `*` and a monomial, such as `(b + 1)*a - b`.

use vstd::prelude::*;
use crate::poly::{Poly, sv};
use crate::spoly::{canonical, eval, max_abs, ordered, size, lemma_canonical_ordered, lemma_size_pos, abs};
use crate::poly_parse::{ParseError, ParseErrorV, Outcome, read_poly, abs_sum, terms_value, readable};
use crate::poly_subst::capped;
use crate::text::{unicode_whitespace, trim_ws, is_whitespace, push_char, push_str, push_range, push_trimmed, str_chars};

verus! {

/// What reading a piece of an expression gives at the values `env`: its
/// value and the position after it, an error message, or a number too large.
pub enum ExprOutcome {
    Parsed(int, int),
    Failed(Seq<char>),
    Overflowed,
}

/// The text that std's `Debug` gives a string: the string in double quotes,
/// with the escapes that `str::escape_debug` applies.
pub uninterp spec fn str_debug_text(s: Seq<char>) -> Seq<char>;

/// std's formatting with `{:?}` of a string: the result is a function of the
/// string alone, named `str_debug_text`; the escaping itself is not stated.
#[verifier::external_body]
fn str_debug(s: &str) -> (r: String)
    ensures
        r@ == str_debug_text(s@),
{
    format!("{:?}", s)
}

/// The text of a parse error as its derived `Debug` writes it: the variant's
/// name, then the text of the error as a string's `Debug` writes it, in
/// parentheses.
pub open spec fn error_debug_text(e: ParseErrorV) -> Seq<char> {
    match e {
        ParseErrorV::InvalidVariable(t) => "InvalidVariable("@ + str_debug_text(t) + ")"@,
        ParseErrorV::InvalidTerm(t) => "InvalidTerm("@ + str_debug_text(t) + ")"@,
    }
}

/// A parse error as its derived `Debug` writes it (see `error_debug_text`).
fn error_debug(e: &ParseError) -> (r: String)
    ensures
        r@ == error_debug_text(e@),
{
    let mut m = String::new();
    match e {
        ParseError::InvalidVariable(t) => {
            push_str(&mut m, "InvalidVariable(");
            let d = str_debug(t.as_str());
            m.append(d.as_str());
        },
        ParseError::InvalidTerm(t) => {
            push_str(&mut m, "InvalidTerm(");
            let d = str_debug(t.as_str());
            m.append(d.as_str());
        },
    }
    push_char(&mut m, ')');
    proof {
        reveal_strlit("InvalidVariable(");
        reveal_strlit("InvalidTerm(");
        reveal_strlit(")");
        assert(m@ =~= error_debug_text(e@));
    }
    m
}

/// The message for a monomial that does not read.
pub open spec fn monomial_message(text: Seq<char>, e: ParseErrorV) -> Seq<char> {
    "Invalid monomial '"@ + text + "': "@ + error_debug_text(e)
}

/// The message for a constant that would not fit in an `i64`.
pub open spec fn overflow_message() -> Seq<char> {
    "Coefficient overflow"@
}

/// The first position from `p` on that is not white space.
pub open spec fn skip_ws(s: Seq<char>, p: int) -> int
    decreases s.len() - p,
{
    if 0 <= p < s.len() && unicode_whitespace(s[p]) {
        skip_ws(s, p + 1)
    } else {
        p
    }
}

/// The first position from `p` on that holds `+`, `-` or `)`, or the end.
pub open spec fn mono_end(s: Seq<char>, p: int) -> int
    decreases s.len() - p,
{
    if 0 <= p < s.len() && !(s[p] == '+' || s[p] == '-' || s[p] == ')') {
        mono_end(s, p + 1)
    } else {
        p
    }
}

/// A monomial from position `p`: after white space, the text up to the next
/// `+`, `-` or `)`, trimmed and read as a polynomial (see `read_poly`); one
/// when that text is empty.
pub open spec fn mono_at(s: Seq<char>, p: int, env: spec_fn(u8) -> int) -> ExprOutcome {
    let q = skip_ws(s, p);
    if q >= s.len() {
        ExprOutcome::Parsed(1, q)
    } else {
        let e = mono_end(s, q);
        let text = trim_ws(s.subrange(q, e));
        if text.len() == 0 {
            ExprOutcome::Parsed(1, e)
        } else {
            match read_poly(text) {
                Outcome::Good(ts) => if abs_sum(ts) <= i64::MAX {
                    ExprOutcome::Parsed(terms_value(ts, env), e)
                } else {
                    ExprOutcome::Overflowed
                },
                Outcome::Bad(err) => ExprOutcome::Failed(monomial_message(text, err)),
                Outcome::Overflow => ExprOutcome::Overflowed,
            }
        }
    }
}

/// The rest of a sum from position `pos`, with `sign` for the next piece and
/// `acc` the value so far: a `)` ends it; `(` opens a sum, which may be
/// followed by `*` and a monomial; `+` and `-` set the sign of what follows;
/// white space is skipped; anything else starts a monomial.
pub open spec fn expr_from(s: Seq<char>, pos: int, sign: int, acc: int, env: spec_fn(u8) -> int) -> ExprOutcome
    decreases s.len() - pos,
{
    if pos < 0 || pos >= s.len() {
        ExprOutcome::Parsed(acc, pos)
    } else {
        let c = s[pos];
        if c == ')' {
            ExprOutcome::Parsed(acc, pos + 1)
        } else if c == '(' {
            match expr_from(s, pos + 1, 1, 0, env) {
                ExprOutcome::Parsed(sub, np) => if np <= pos || np > s.len() {
                    ExprOutcome::Overflowed
                } else if np < s.len() && s[np] == '*' {
                    match mono_at(s, np + 1, env) {
                        ExprOutcome::Parsed(m, fp) => if fp <= pos || fp > s.len() {
                            ExprOutcome::Overflowed
                        } else {
                            expr_from(s, fp, sign, acc + sign * (sub * m), env)
                        },
                        ExprOutcome::Failed(msg) => ExprOutcome::Failed(msg),
                        ExprOutcome::Overflowed => ExprOutcome::Overflowed,
                    }
                } else {
                    expr_from(s, np, sign, acc + sign * sub, env)
                },
                ExprOutcome::Failed(msg) => ExprOutcome::Failed(msg),
                ExprOutcome::Overflowed => ExprOutcome::Overflowed,
            }
        } else if c == '+' {
            expr_from(s, pos + 1, 1, acc, env)
        } else if c == '-' {
            expr_from(s, pos + 1, -1, acc, env)
        } else if unicode_whitespace(c) {
            expr_from(s, pos + 1, sign, acc, env)
        } else {
            match mono_at(s, pos, env) {
                ExprOutcome::Parsed(m, np) => if np <= pos || np > s.len() {
                    ExprOutcome::Overflowed
                } else {
                    expr_from(s, np, sign, acc + sign * m, env)
                },
                ExprOutcome::Failed(msg) => ExprOutcome::Failed(msg),
                ExprOutcome::Overflowed => ExprOutcome::Overflowed,
            }
        }
    }
}

/// The expression read from the trimmed text, as `from_poly_expression` reads it.
pub open spec fn poly_expression(s: Seq<char>, env: spec_fn(u8) -> int) -> ExprOutcome {
    let t = trim_ws(s);
    if t.len() == 0 {
        ExprOutcome::Parsed(0, 0)
    } else {
        expr_from(t, 0, 1, 0, env)
    }
}

/// `skip_ws` stays within the text.
proof fn lemma_skip_ws(s: Seq<char>, p: int)
    requires
        0 <= p <= s.len(),
    ensures
        p <= skip_ws(s, p) <= s.len(),
    decreases s.len() - p,
{
    if 0 <= p < s.len() && unicode_whitespace(s[p]) {
        lemma_skip_ws(s, p + 1);
    }
}

/// `mono_end` stays within the text.
proof fn lemma_mono_end(s: Seq<char>, p: int)
    requires
        0 <= p <= s.len(),
    ensures
        p <= mono_end(s, p) <= s.len(),
    decreases s.len() - p,
{
    if 0 <= p < s.len() && !(s[p] == '+' || s[p] == '-' || s[p] == ')') {
        lemma_mono_end(s, p + 1);
    }
}

/// Whether `a * b` is within the bound that `multiply` keeps.
fn mul_fits(a: &Poly, b: &Poly) -> (r: bool)
    ensures
        r <==> size(sv(*a)) * max_abs(sv(*a)) * max_abs(sv(*b)) <= i64::MAX,
{
    proof {
        lemma_size_pos(sv(*a));
    }
    let n = a.node_count();
    let ma = a.max_abs_coefficient();
    let mb = b.max_abs_coefficient();
    crate::poly_subst::product_fits(n, ma, mb, Ghost(size(sv(*a))))
}

/// Whether `a + k * b` is within the bound that `add_poly_scaled` asks for.
fn add_fits(a: &Poly, b: &Poly, k: i64) -> (r: bool)
    ensures
        r <==> max_abs(sv(*a)) + max_abs(sv(*b)) * abs(k as int) <= i64::MAX,
{
    let ma = a.max_abs_coefficient();
    let mb = b.max_abs_coefficient();
    let ak: u64 = if k < 0 { if k == i64::MIN { 0x8000_0000_0000_0000u64 } else { (-k) as u64 } } else { k as u64 };
    match mb.checked_mul(ak) {
        Some(x) => match ma.checked_add(x) {
            Some(y) => y <= i64::MAX as u64,
            None => false,
        },
        None => {
            proof {
                assert(ma + mb * ak > i64::MAX) by (nonlinear_arith)
                    requires
                        mb * ak > u64::MAX,
                        ma >= 0,
                ;
            }
            false
        },
    }
}

impl Poly {
    /// Reads a monomial from position `pos` (see `mono_at`).
    fn extract_monomial(s: &Vec<char>, pos: usize) -> (r: Result<(Poly, usize), String>)
        requires
            pos <= s@.len(),
        ensures
            match r {
                Ok((p, end)) => canonical(sv(p)) && pos <= end <= s@.len() && (forall|env: spec_fn(u8) -> int|
                    #[trigger] mono_at(s@, pos as int, env) == ExprOutcome::Parsed(eval(sv(p), env), end as int)) && (
                pos < s@.len() && !unicode_whitespace(s@[pos as int]) && !(s@[pos as int] == '+' || s@[pos as int]
                    == '-' || s@[pos as int] == ')') ==> end > pos),
                Err(m) => (m@ == overflow_message() && forall|env: spec_fn(u8) -> int| #[trigger] mono_at(
                    s@,
                    pos as int,
                    env,
                ) is Overflowed) || forall|env: spec_fn(u8) -> int| #[trigger] mono_at(s@, pos as int, env)
                    == ExprOutcome::Failed(m@),
            },
    {
        let ghost v = s@;
        let mut p = pos;
        while p < s.len() && is_whitespace(s[p])
            invariant
                v == s@,
                pos <= p <= s@.len(),
                skip_ws(v, pos as int) == skip_ws(v, p as int),
            decreases s@.len() - p,
        {
            p = p + 1;
        }
        if p >= s.len() {
            return Ok((Poly::Constant(1), p));
        }
        let start = p;
        while p < s.len() && !(s[p] == '+' || s[p] == '-' || s[p] == ')')
            invariant
                v == s@,
                start <= p <= s@.len(),
                mono_end(v, start as int) == mono_end(v, p as int),
            decreases s@.len() - p,
        {
            p = p + 1;
        }
        let mut piece: Vec<char> = Vec::new();
        let mut k = start;
        while k < p
            invariant
                v == s@,
                start <= k <= p <= s@.len(),
                piece@ == v.subrange(start as int, k as int),
            decreases p - k,
        {
            piece.push(s[k]);
            assert(v.subrange(start as int, k as int + 1) =~= v.subrange(start as int, k as int).push(v[k as int]));
            k = k + 1;
        }
        let mut text = String::new();
        push_trimmed(&mut text, &piece);
        assert(text@ =~= trim_ws(v.subrange(start as int, p as int)));
        if text.as_str().unicode_len() == 0 {
            return Ok((Poly::Constant(1), p));
        }
        let read = match Poly::new_checked(text.as_str()) {
            Some(x) => x,
            None => {
                let m = crate::elimination::overflow_text();
                return Err(m);
            },
        };
        match read {
            Ok(poly) => Ok((poly, p)),
            Err(e) => {
                let mut m = String::new();
                push_str(&mut m, "Invalid monomial '");
                m.append(text.as_str());
                push_str(&mut m, "': ");
                let d = error_debug(&e);
                m.append(d.as_str());
                proof {
                    assert(m@ =~= monomial_message(text@, e@));
                }
                Err(m)
            },
        }
    }

    /// Reads a sum from position `pos` up to its closing `)` or the end of the
    /// text (see `expr_from`). An error that the text does not account for is
    /// a constant too large for an `i64` on the way (`overflow_message`).
    fn parse_expression(s: &Vec<char>, pos: usize) -> (r: Result<(Poly, usize), String>)
        requires
            pos <= s@.len(),
        ensures
            match r {
                Ok((p, end)) => canonical(sv(p)) && pos <= end <= s@.len() && forall|env: spec_fn(u8) -> int|
                    #[trigger] expr_from(s@, pos as int, 1, 0, env) == ExprOutcome::Parsed(eval(sv(p), env), end as int),
                Err(m) => m@ == overflow_message() || forall|env: spec_fn(u8) -> int| #[trigger] expr_from(
                    s@,
                    pos as int,
                    1,
                    0,
                    env,
                ) == ExprOutcome::Failed(m@),
            },
        decreases s@.len() - pos,
    {
        let ghost v = s@;
        let mut result = Poly::Constant(0);
        let mut sign: i64 = 1;
        let mut p = pos;
        while p < s.len()
            invariant
                v == s@,
                pos <= p <= s@.len(),
                sign == 1 || sign == -1,
                canonical(sv(result)),
                forall|env: spec_fn(u8) -> int| #[trigger] expr_from(v, pos as int, 1, 0, env) == expr_from(
                    v,
                    p as int,
                    sign as int,
                    eval(sv(result), env),
                    env,
                ),
            decreases s@.len() - p,
        {
            let ch = s[p];
            let ghost p0 = p;
            let ghost acc0 = sv(result);
            if ch == ')' {
                return Ok((result, p + 1));
            } else if ch == '(' {
                let (sub, np) = match Poly::parse_expression(s, p + 1) {
                    Ok(x) => x,
                    Err(m) => {
                        proof {
                            if m@ != overflow_message() {
                                assert forall|env: spec_fn(u8) -> int| #[trigger] expr_from(v, pos as int, 1, 0, env)
                                    == ExprOutcome::Failed(m@) by {
                                    assert(expr_from(v, pos as int, 1, 0, env) == expr_from(
                                        v,
                                        p0 as int,
                                        sign as int,
                                        eval(acc0, env),
                                        env,
                                    ));
                                    assert(expr_from(v, p0 + 1, 1, 0, env) == ExprOutcome::Failed(m@));
                                }
                            }
                        }
                        return Err(m);
                    },
                };
                proof {
                    assert forall|env: spec_fn(u8) -> int| #[trigger] expr_from(v, pos as int, 1, 0, env) == (
                    if np < v.len() && v[np as int] == '*' {
                        match mono_at(v, np + 1, env) {
                            ExprOutcome::Parsed(m, fp) => if fp <= p0 || fp > v.len() {
                                ExprOutcome::Overflowed
                            } else {
                                expr_from(v, fp, sign as int, eval(acc0, env) + sign * (eval(sv(sub), env) * m), env)
                            },
                            ExprOutcome::Failed(msg) => ExprOutcome::Failed(msg),
                            ExprOutcome::Overflowed => ExprOutcome::Overflowed,
                        }
                    } else {
                        expr_from(v, np as int, sign as int, eval(acc0, env) + sign * eval(sv(sub), env), env)
                    }) by {
                        assert(expr_from(v, pos as int, 1, 0, env) == expr_from(v, p0 as int, sign as int, eval(acc0, env), env));
                        assert(expr_from(v, p0 + 1, 1, 0, env) == ExprOutcome::Parsed(eval(sv(sub), env), np as int));
                    }
                }
                let product = if np < s.len() && s[np] == '*' {
                    let (monomial, fp) = match Poly::extract_monomial(s, np + 1) {
                        Ok(x) => x,
                        Err(m) => {
                            proof {
                                if m@ != overflow_message() {
                                    assert forall|env: spec_fn(u8) -> int| #[trigger] expr_from(v, pos as int, 1, 0, env)
                                        == ExprOutcome::Failed(m@) by {
                                        assert(mono_at(v, np + 1, env) == ExprOutcome::Failed(m@));
                                    }
                                }
                            }
                            return Err(m);
                        },
                    };
                    proof {
                        lemma_canonical_ordered(sv(sub));
                        lemma_canonical_ordered(sv(monomial));
                    }
                    if !mul_fits(&sub, &monomial) {
                        let mut m = String::new();
                        push_str(&mut m, "Coefficient overflow");
                        return Err(m);
                    }
                    let prod = sub.multiply(&monomial);
                    p = fp;
                    proof {
                        assert forall|env: spec_fn(u8) -> int| #[trigger] expr_from(v, pos as int, 1, 0, env) == expr_from(
                            v,
                            p as int,
                            sign as int,
                            eval(sv(result), env) + sign * eval(sv(prod), env),
                            env,
                        ) by {
                            assert(eval(sv(prod), env) == eval(sv(sub), env) * eval(sv(monomial), env));
                        }
                    }
                    prod
                } else {
                    p = np;
                    proof {
                        lemma_canonical_ordered(sv(sub));
                    }
                    sub
                };
                proof {
                    lemma_canonical_ordered(sv(result));
                    assert forall|env: spec_fn(u8) -> int| #[trigger] expr_from(v, pos as int, 1, 0, env) == expr_from(
                        v,
                        p as int,
                        sign as int,
                        eval(acc0, env) + sign * eval(sv(product), env),
                        env,
                    ) by {
                    }
                }
                if !add_fits(&result, &product, sign) {
                    let mut m = String::new();
                    push_str(&mut m, "Coefficient overflow");
                    return Err(m);
                }
                result.add_poly_scaled(&product, sign);
            } else if ch == '+' || ch == '-' {
                sign = if ch == '+' { 1 } else { -1 };
                p = p + 1;
            } else if is_whitespace(ch) {
                p = p + 1;
            } else {
                let (monomial, np) = match Poly::extract_monomial(s, p) {
                    Ok(x) => x,
                    Err(m) => {
                        proof {
                            if m@ != overflow_message() {
                                assert forall|env: spec_fn(u8) -> int| #[trigger] expr_from(v, pos as int, 1, 0, env)
                                    == ExprOutcome::Failed(m@) by {
                                    assert(expr_from(v, pos as int, 1, 0, env) == expr_from(
                                        v,
                                        p0 as int,
                                        sign as int,
                                        eval(acc0, env),
                                        env,
                                    ));
                                    assert(mono_at(v, p0 as int, env) == ExprOutcome::Failed(m@));
                                }
                            }
                        }
                        return Err(m);
                    },
                };
                proof {
                    lemma_canonical_ordered(sv(result));
                    lemma_canonical_ordered(sv(monomial));
                }
                if !add_fits(&result, &monomial, sign) {
                    let mut m = String::new();
                    push_str(&mut m, "Coefficient overflow");
                    return Err(m);
                }
                result.add_poly_scaled(&monomial, sign);
                p = np;
            }
        }
        Ok((result, p))
    }

    /// Reads a polynomial written with parentheses (see `poly_expression`);
    /// an empty text is zero. An error that the text does not account for is
    /// a constant too large for an `i64` on the way (`overflow_message`).
    pub fn from_poly_expression(s: &str) -> (r: Result<Poly, String>)
        ensures
            match r {
                Ok(p) => canonical(sv(p)) && forall|env: spec_fn(u8) -> int| #[trigger] poly_expression(s@, env) matches ExprOutcome::Parsed(
                    x,
                    _,
                ) && eval(sv(p), env) == x,
                Err(m) => m@ == overflow_message() || forall|env: spec_fn(u8) -> int| #[trigger] poly_expression(s@, env)
                    == ExprOutcome::Failed(m@),
            },
    {
        let cs = str_chars(s);
        let mut trimmed = String::new();
        push_trimmed(&mut trimmed, &cs);
        let t = str_chars(trimmed.as_str());
        if t.len() == 0 {
            return Ok(Poly::Constant(0));
        }
        match Poly::parse_expression(&t, 0) {
            Ok((p, _)) => Ok(p),
            Err(m) => Err(m),
        }
    }
}

} // verus!
