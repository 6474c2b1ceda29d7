//! The text exchanged with Pari/GP: the tasks that factor a polynomial or
//! divide two polynomials by their common divisor, and the reading and
//! checking of what comes back.

use vstd::prelude::*;
use std::rc::Rc;
use crate::poly::{Poly, sv, is_product};
use crate::spoly::{SPoly, eval, ordered, scaled, lemma_canonical_ordered};
use crate::poly_format::{poly_text, terms_of};
use crate::poly_parse::{split_chars, split_on, pieces_view};
use crate::poly_expr::overflow_message;
use crate::text::{push_str, push_char, push_trimmed, push_decimal, str_chars, trim_ws, decimal};
use crate::scene_object::strings_view;
use crate::scene_factors::poly_trees;

verus! {

/// Whether one polynomial is the other, node for node.
pub fn same_poly(a: &Poly, b: &Poly) -> (r: bool)
    ensures
        r == (sv(*a) == sv(*b)),
    decreases crate::spoly::size(sv(*a)),
{
    match (a, b) {
        (Poly::Constant(c), Poly::Constant(d)) => *c == *d,
        (Poly::Nested(v, cs), Poly::Nested(w, ds)) => {
            if *v != *w || cs.len() != ds.len() {
                proof {
                    if cs.len() != ds.len() {
                        assert(sv(*a)->Nested_1.len() != sv(*b)->Nested_1.len());
                    }
                }
                return false;
            }
            let ghost ks = crate::poly::sv_kids(cs@);
            let ghost ls = crate::poly::sv_kids(ds@);
            let mut i: usize = 0;
            while i < cs.len()
                invariant
                    *a == Poly::Nested(*v, *cs),
                    *b == Poly::Nested(*w, *ds),
                    *v == *w,
                    cs@.len() == ds@.len(),
                    ks == crate::poly::sv_kids(cs@),
                    ls == crate::poly::sv_kids(ds@),
                    i <= cs@.len(),
                    forall|q: int| 0 <= q < i ==> #[trigger] ks[q] == ls[q],
                decreases cs@.len() - i,
            {
                proof {
                    crate::poly::lemma_kid_smaller(*a, i as int);
                }
                let x: &Poly = &cs[i];
                let y: &Poly = &ds[i];
                assert(ks[i as int] == sv(*x));
                assert(ls[i as int] == sv(*y));
                if !same_poly(x, y) {
                    return false;
                }
                i = i + 1;
            }
            assert(ks =~= ls);
            true
        },
        (Poly::Constant(_), Poly::Nested(_, _)) => false,
        (Poly::Nested(_, _), Poly::Constant(_)) => false,
    }
}

/// The full text of a polynomial (see `poly_text`).
pub open spec fn full_text(p: Poly) -> Seq<char> {
    poly_text(terms_of(sv(p)), true)
}

impl Poly {
    /// The Pari/GP task that prints the factors of the polynomial, then
    /// their multiplicities, then `Done`.
    pub fn factor_task(&self) -> (r: String)
        ensures
            r@ == "{expr = Vec(factor("@ + full_text(*self) + "));print(expr[1]);print(expr[2]);print(\"Done\")}"@,
    {
        let t = self.text(true);
        let mut s = String::new();
        push_str(&mut s, "{expr = Vec(factor(");
        push_str(&mut s, t.as_str());
        push_str(&mut s, "));print(expr[1]);print(expr[2]);print(\"Done\")}");
        s
    }

    /// The Pari/GP task that prints the common divisor of two polynomials,
    /// then each divided by it, then `Done`.
    pub fn gcd_task(poly1: &Poly, poly2: &Poly) -> (r: String)
        ensures
            r@ == "{pp = "@ + full_text(*poly1) + "; qq = "@ + full_text(*poly2)
                + "; gg = gcd([pp, qq]); print(gg); print(pp / gg); print(qq / gg); print(\"Done\")}"@,
    {
        let t1 = poly1.text(true);
        let t2 = poly2.text(true);
        let mut s = String::new();
        push_str(&mut s, "{pp = ");
        push_str(&mut s, t1.as_str());
        push_str(&mut s, "; qq = ");
        push_str(&mut s, t2.as_str());
        push_str(&mut s, "; gg = gcd([pp, qq]); print(gg); print(pp / gg); print(qq / gg); print(\"Done\")}");
        s
    }
}

/// What `format!("{:?}", lines)` writes for a list of strings.
pub uninterp spec fn lines_debug_text(lines: Seq<Seq<char>>) -> Seq<char>;

/// std's `Debug` formatting of a list of strings (`format!("{:?}", ..)`):
/// the strings quoted and escaped, between brackets. The text is named
/// (`lines_debug_text`); nothing more is claimed of it.
#[verifier::external_body]
fn lines_debug(lines: &Vec<String>) -> (r: String)
    ensures
        r@ == lines_debug_text(strings_view(lines@)),
{
    format!("{:?}", lines)
}

/// A line of Pari/GP output of the form `[a,b,...]~`, trimmed: the pieces
/// between the commas, each trimmed; `None` when the line has another form.
pub open spec fn pari_list(line: Seq<char>) -> Option<Seq<Seq<char>>> {
    let t = trim_ws(line);
    if t.len() >= 3 && t[0] == '[' && t[t.len() - 2] == ']' && t[t.len() - 1] == '~' {
        let pieces = split_on(t.subrange(1, t.len() - 2), ',');
        Some(Seq::new(pieces.len(), |i: int| trim_ws(pieces[i])))
    } else {
        None
    }
}

/// The pieces of a line of the form `[a,b,...]~` (see `pari_list`).
fn read_pari_list(line: &String) -> (r: Option<Vec<String>>)
    ensures
        match r {
            Some(v) => pari_list(line@) == Some(strings_view(v@)),
            None => pari_list(line@) is None,
        },
{
    let cs = str_chars(line.as_str());
    let mut tr = String::new();
    push_trimmed(&mut tr, &cs);
    let t = str_chars(tr.as_str());
    let n = t.len();
    if !(n >= 3 && t[0] == '[' && t[n - 2] == ']' && t[n - 1] == '~') {
        return None;
    }
    let mut inner: Vec<char> = Vec::new();
    let mut i: usize = 1;
    while i < n - 2
        invariant
            t@ == trim_ws(line@),
            n == t@.len(),
            n >= 3,
            1 <= i <= n - 2,
            inner@ == t@.subrange(1, i as int),
        decreases n - 2 - i,
    {
        inner.push(t[i]);
        assert(t@.subrange(1, i as int + 1) =~= t@.subrange(1, i as int).push(t@[i as int]));
        i = i + 1;
    }
    let parts = split_chars(&inner, ',');
    let ghost pv = pieces_view(parts@);
    let mut out: Vec<String> = Vec::new();
    let mut j: usize = 0;
    while j < parts.len()
        invariant
            pv == pieces_view(parts@),
            j <= parts@.len(),
            out@.len() == j,
            forall|q: int| 0 <= q < j ==> #[trigger] strings_view(out@)[q] == trim_ws(pv[q]),
        decreases parts@.len() - j,
    {
        let mut s = String::new();
        push_trimmed(&mut s, &parts[j]);
        let ghost before = out@;
        out.push(s);
        proof {
            assert forall|q: int| 0 <= q < j + 1 implies #[trigger] strings_view(out@)[q] == trim_ws(pv[q]) by {
                if q < j {
                    assert(out@[q] == before[q]);
                    assert(strings_view(before)[q] == trim_ws(pv[q]));
                }
            }
        }
        j = j + 1;
    }
    proof {
        let pieces = split_on(t@.subrange(1, n - 2), ',');
        assert(pv == pieces);
        assert(strings_view(out@) =~= Seq::new(pieces.len(), |i: int| trim_ws(pieces[i])));
    }
    Some(out)
}

/// What reading the output of a factoring task gives: the factors' texts
/// and the multiplicities' texts, or the error.
pub open spec fn factor_lists(lines: Seq<Seq<char>>) -> Result<(Seq<Seq<char>>, Seq<Seq<char>>), Seq<char>> {
    if lines.len() < 2 {
        Err("Expected at least 2 lines of output from Pari/GP. Output: "@ + lines_debug_text(lines))
    } else {
        match pari_list(lines[0]) {
            None => Err("Invalid factors line format: "@ + trim_ws(lines[0])),
            Some(fs) => match pari_list(lines[1]) {
                None => Err("Invalid degrees line format: "@ + trim_ws(lines[1])),
                Some(ds) => if fs.len() != ds.len() {
                    Err("Mismatch between factors ("@ + decimal(fs.len()) + ") and degrees ("@ + decimal(ds.len())
                        + ")"@)
                } else {
                    Ok((fs, ds))
                },
            },
        }
    }
}

/// Reads the output of a factoring task (see `factor_lists`).
pub fn split_factor_output(lines: &Vec<String>) -> (r: Result<(Vec<String>, Vec<String>), String>)
    ensures
        match r {
            Ok((fs, ds)) => factor_lists(strings_view(lines@)) == Ok::<(Seq<Seq<char>>, Seq<Seq<char>>), Seq<char>>(
                (strings_view(fs@), strings_view(ds@)),
            ),
            Err(m) => factor_lists(strings_view(lines@)) == Err::<(Seq<Seq<char>>, Seq<Seq<char>>), Seq<char>>(m@),
        },
{
    let ghost lv = strings_view(lines@);
    if lines.len() < 2 {
        let mut m = String::new();
        push_str(&mut m, "Expected at least 2 lines of output from Pari/GP. Output: ");
        let d = lines_debug(lines);
        push_str(&mut m, d.as_str());
        return Err(m);
    }
    assert(lv[0] == lines@[0]@ && lv[1] == lines@[1]@);
    let fs = match read_pari_list(&lines[0]) {
        Some(v) => v,
        None => {
            let mut m = String::new();
            push_str(&mut m, "Invalid factors line format: ");
            let cs = str_chars(lines[0].as_str());
            push_trimmed(&mut m, &cs);
            return Err(m);
        },
    };
    let ds = match read_pari_list(&lines[1]) {
        Some(v) => v,
        None => {
            let mut m = String::new();
            push_str(&mut m, "Invalid degrees line format: ");
            let cs = str_chars(lines[1].as_str());
            push_trimmed(&mut m, &cs);
            return Err(m);
        },
    };
    if fs.len() != ds.len() {
        let mut m = String::new();
        push_str(&mut m, "Mismatch between factors (");
        push_decimal(&mut m, fs.len() as u64);
        push_str(&mut m, ") and degrees (");
        push_decimal(&mut m, ds.len() as u64);
        push_str(&mut m, ")");
        return Err(m);
    }
    Ok((fs, ds))
}

/// How std's `str::parse::<u32>` reads the digits from position `i`, with
/// `acc` read so far: the value, or the message of the error that stops it
/// first (a character that is not a digit, or a value above `u32::MAX`).
pub open spec fn digits_value(s: Seq<char>, i: int, acc: int) -> Result<int, Seq<char>>
    decreases s.len() - i,
{
    if i < 0 || i >= s.len() {
        Ok(acc)
    } else if !('0' <= s[i] <= '9') {
        Err("invalid digit found in string"@)
    } else {
        let a = acc * 10 + (s[i] as int - 48);
        if a > u32::MAX {
            Err("number too large to fit in target type"@)
        } else {
            digits_value(s, i + 1, a)
        }
    }
}

/// How std's `str::parse::<u32>` reads a text: an empty text, and a sign
/// alone, are errors; a leading `+` is skipped; then the digits (see
/// `digits_value`).
pub open spec fn u32_value(s: Seq<char>) -> Result<int, Seq<char>> {
    if s.len() == 0 {
        Err("cannot parse integer from empty string"@)
    } else if (s[0] == '+' || s[0] == '-') && s.len() == 1 {
        Err("invalid digit found in string"@)
    } else if s[0] == '+' {
        digits_value(s, 1, 0)
    } else {
        digits_value(s, 0, 0)
    }
}

/// Reads a `u32` as std's `str::parse::<u32>` does (see `u32_value`).
fn parse_u32(text: &String) -> (r: Result<u32, String>)
    ensures
        match r {
            Ok(n) => u32_value(text@) == Ok::<int, Seq<char>>(n as int),
            Err(m) => u32_value(text@) == Err::<int, Seq<char>>(m@),
        },
{
    let cs = str_chars(text.as_str());
    if cs.len() == 0 {
        return Err(crate::elimination::message_of("cannot parse integer from empty string"));
    }
    if (cs[0] == '+' || cs[0] == '-') && cs.len() == 1 {
        return Err(crate::elimination::message_of("invalid digit found in string"));
    }
    let mut i: usize = if cs[0] == '+' { 1 } else { 0 };
    let ghost start = i as int;
    let mut acc: u32 = 0;
    while i < cs.len()
        invariant
            cs@ == text@,
            start <= i <= cs@.len(),
            u32_value(text@) == digits_value(cs@, i as int, acc as int),
        decreases cs@.len() - i,
    {
        let c = cs[i];
        if !('0' <= c && c <= '9') {
            return Err(crate::elimination::message_of("invalid digit found in string"));
        }
        let d = (c as u32) - 48;
        if acc > (u32::MAX - d) / 10 {
            return Err(crate::elimination::message_of("number too large to fit in target type"));
        }
        acc = acc * 10 + d;
        i = i + 1;
    }
    Ok(acc)
}

/// Each multiplicity read (see `u32_value`), or the first error.
pub open spec fn degrees_read(ds: Seq<Seq<char>>, n: int) -> Result<Seq<int>, Seq<char>>
    decreases n,
{
    if n <= 0 {
        Ok(seq![])
    } else {
        match degrees_read(ds, n - 1) {
            Err(m) => Err(m),
            Ok(v) => match u32_value(ds[n - 1]) {
                Ok(d) => Ok(v.push(d)),
                Err(e) => Err("Failed to parse degree '"@ + ds[n - 1] + "': "@ + e),
            },
        }
    }
}

/// An error stays the error of every longer prefix.
proof fn lemma_degrees_err(ds: Seq<Seq<char>>, i: int, n: int)
    requires
        1 <= i <= n,
        degrees_read(ds, i) is Err,
    ensures
        degrees_read(ds, n) == degrees_read(ds, i),
    decreases n - i,
{
    if n > i {
        lemma_degrees_err(ds, i, n - 1);
    }
}

/// Reads the multiplicities of a factoring (see `degrees_read`).
pub fn parse_degrees(ds: &Vec<String>) -> (r: Result<Vec<u32>, String>)
    ensures
        match r {
            Ok(v) => degrees_read(strings_view(ds@), ds@.len() as int) == Ok::<Seq<int>, Seq<char>>(
                Seq::new(v@.len(), |i: int| v@[i] as int),
            ),
            Err(m) => degrees_read(strings_view(ds@), ds@.len() as int) == Err::<Seq<int>, Seq<char>>(m@),
        },
{
    let ghost dv = strings_view(ds@);
    let mut out: Vec<u32> = Vec::new();
    let mut i: usize = 0;
    assert(Seq::new(out@.len(), |q: int| out@[q] as int) =~= Seq::<int>::empty());
    while i < ds.len()
        invariant
            dv == strings_view(ds@),
            i <= ds@.len(),
            degrees_read(dv, i as int) == Ok::<Seq<int>, Seq<char>>(Seq::new(out@.len(), |q: int| out@[q] as int)),
        decreases ds@.len() - i,
    {
        assert(dv[i as int] == ds@[i as int]@);
        match parse_u32(&ds[i]) {
            Ok(d) => {
                let ghost before = out@;
                out.push(d);
                assert(Seq::new(out@.len(), |q: int| out@[q] as int) =~= Seq::new(before.len(), |q: int| before[q] as int).push(
                    d as int,
                ));
            },
            Err(e) => {
                let mut m = String::new();
                push_str(&mut m, "Failed to parse degree '");
                push_str(&mut m, ds[i].as_str());
                push_str(&mut m, "': ");
                push_str(&mut m, e.as_str());
                proof {
                    assert(degrees_read(dv, i as int + 1) == Err::<Seq<int>, Seq<char>>(m@));
                    lemma_degrees_err(dv, i as int + 1, ds@.len() as int);
                }
                return Err(m);
            },
        }
        i = i + 1;
    }
    Ok(out)
}

/// `b` to the power `e`.
pub open spec fn power(b: int, e: nat) -> int
    decreases e,
{
    if e == 0 {
        1
    } else {
        power(b, (e - 1) as nat) * b
    }
}

/// The product of the factors, each to its multiplicity (at least one).
pub open spec fn factored_value(fs: Seq<SPoly>, ds: Seq<u32>, env: spec_fn(u8) -> int) -> int
    decreases fs.len(),
{
    if fs.len() == 0 {
        1
    } else {
        let d = ds[fs.len() - 1];
        factored_value(fs.drop_last(), ds, env) * power(eval(fs.last(), env), if d >= 1 { d as nat } else { 1 })
    }
}

/// Whether multiplying every constant by -1 keeps it in an `i64` (see `scale_fits`).
fn negation_fits(p: &Poly) -> (r: bool)
    ensures
        r == crate::spoly::scale_fits(sv(*p), -1),
    decreases crate::spoly::size(sv(*p)),
{
    match p {
        Poly::Constant(c) => *c != i64::MIN,
        Poly::Nested(_, cs) => {
            let ghost ks = crate::poly::sv_kids(cs@);
            let mut i: usize = 0;
            while i < cs.len()
                invariant
                    ks == crate::poly::sv_kids(cs@),
                    sv(*p)->Nested_1 == ks,
                    sv(*p) is Nested,
                    i <= cs@.len(),
                    forall|q: int| 0 <= q < i ==> crate::spoly::scale_fits(#[trigger] ks[q], -1),
                decreases cs@.len() - i,
            {
                proof {
                    crate::poly::lemma_kid_smaller(*p, i as int);
                }
                let k: &Poly = &cs[i];
                assert(ks[i as int] == sv(*k));
                if !negation_fits(k) {
                    return false;
                }
                i = i + 1;
            }
            true
        },
    }
}

/// The prefix of the message when a factoring does not multiply back to
/// the polynomial, up to the product's text.
pub open spec fn mismatch_prefix(p: Poly) -> Seq<char> {
    "Factorization verification failed. Original: "@ + poly_text(terms_of(sv(p)), false) + ", Reconstructed: "@
}

/// Checks that the factors, each to its multiplicity (at least one),
/// multiply back to the polynomial or to its negation, and gives the
/// factors back; the error says what the product was instead.
pub fn check_factorization(poly: &Poly, factors: &Vec<Poly>, degrees: &Vec<u32>) -> (r: Result<Vec<Poly>, String>)
    requires
        factors@.len() == degrees@.len(),
        forall|i: int| 0 <= i < factors@.len() ==> ordered(#[trigger] poly_trees(factors@)[i]),
    ensures
        match r {
            Ok(v) => poly_trees(v@) == poly_trees(factors@) && forall|env: spec_fn(u8) -> int|
                #[trigger] eval(sv(*poly), env) == factored_value(poly_trees(factors@), degrees@, env) || eval(
                    sv(*poly),
                    env,
                ) == -factored_value(poly_trees(factors@), degrees@, env),
            Err(m) => m@ == overflow_message() || m@.take(mismatch_prefix(*poly).len() as int) == mismatch_prefix(*poly),
        },
{
    let ghost fs = poly_trees(factors@);
    let mut rec = Poly::Constant(1);
    let mut i: usize = 0;
    while i < factors.len()
        invariant
            fs == poly_trees(factors@),
            factors@.len() == degrees@.len(),
            forall|q: int| 0 <= q < factors@.len() ==> ordered(#[trigger] fs[q]),
            i <= factors@.len(),
            ordered(sv(rec)),
            forall|env: spec_fn(u8) -> int| #[trigger] eval(sv(rec), env) == factored_value(fs.take(i as int), degrees@, env),
        decreases factors@.len() - i,
    {
        let f: &Poly = &factors[i];
        assert(fs[i as int] == sv(*f));
        let d = degrees[i];
        let mut fp = f.copy();
        let mut k: u32 = 1;
        proof {
            assert forall|env: spec_fn(u8) -> int| #[trigger] eval(sv(fp), env) == power(eval(sv(*f), env), 1) by {
                assert(power(eval(sv(*f), env), 0) == 1);
            }
        }
        while k < d
            invariant
                ordered(sv(*f)),
                ordered(sv(fp)),
                1 <= k,
                d >= 1 ==> k <= d,
                d == 0 ==> k == 1,
                forall|env: spec_fn(u8) -> int| #[trigger] eval(sv(fp), env) == power(eval(sv(*f), env), k as nat),
            decreases d - k,
        {
            let next = match fp.try_multiply(f) {
                Some(x) => x,
                None => {
                    return Err(crate::elimination::overflow_text());
                },
            };
            proof {
                assert forall|env: spec_fn(u8) -> int| #[trigger] eval(sv(next), env) == power(
                    eval(sv(*f), env),
                    (k + 1) as nat,
                ) by {
                    assert(eval(sv(next), env) == eval(sv(fp), env) * eval(sv(*f), env));
                    assert(power(eval(sv(*f), env), (k + 1) as nat) == power(eval(sv(*f), env), k as nat) * eval(sv(*f), env));
                }
            }
            fp = next;
            k = k + 1;
        }
        let next = match rec.try_multiply(&fp) {
            Some(x) => x,
            None => {
                return Err(crate::elimination::overflow_text());
            },
        };
        proof {
            let t = fs.take(i as int + 1);
            assert(t.drop_last() =~= fs.take(i as int));
            assert(t.last() == fs[i as int]);
            let ex: nat = if d >= 1 { d as nat } else { 1 };
            assert(k == ex);
            assert forall|env: spec_fn(u8) -> int| #[trigger] eval(sv(next), env) == factored_value(t, degrees@, env) by {
                assert(eval(sv(next), env) == eval(sv(rec), env) * eval(sv(fp), env));
                assert(t.len() - 1 == i);
                assert(degrees@[t.len() - 1] == d);
                assert(eval(sv(fp), env) == power(eval(fs[i as int], env), ex));
            }
        }
        rec = next;
        i = i + 1;
    }
    proof {
        assert(fs.take(i as int) =~= fs);
    }
    if !same_poly(&rec, poly) {
        if !negation_fits(&rec) {
            return Err(crate::elimination::overflow_text());
        }
        let ghost before = sv(rec);
        rec.scale(-1);
        proof {
            assert forall|env: spec_fn(u8) -> int| #[trigger] eval(sv(rec), env) == -factored_value(fs, degrees@, env) by {
                crate::spoly::lemma_eval_scaled(before, -1, env);
            }
        }
        if !same_poly(&rec, poly) {
            let mut m = String::new();
            push_str(&mut m, "Factorization verification failed. Original: ");
            let a = poly.to_string();
            push_str(&mut m, a.as_str());
            push_str(&mut m, ", Reconstructed: ");
            let ghost pre = m@;
            assert(pre == mismatch_prefix(*poly));
            let b = rec.to_string();
            push_str(&mut m, b.as_str());
            assert(m@.take(pre.len() as int) =~= pre);
            return Err(m);
        }
    }
    let mut out: Vec<Poly> = Vec::new();
    let mut j: usize = 0;
    while j < factors.len()
        invariant
            j <= factors@.len(),
            out@.len() == j,
            forall|q: int| 0 <= q < j ==> sv(#[trigger] out@[q]) == sv(factors@[q]),
        decreases factors@.len() - j,
    {
        out.push(factors[j].copy());
        j = j + 1;
    }
    assert(poly_trees(out@) =~= poly_trees(factors@));
    Ok(out)
}

/// What the output of a divisor task is read as: the trimmed divisor and
/// the two quotients, when there are exactly three lines and the divisor
/// is not `1`.
pub open spec fn gcd_texts(lines: Seq<Seq<char>>) -> Option<(Seq<char>, Seq<char>, Seq<char>)> {
    if lines.len() != 3 || trim_ws(lines[0]) == "1"@ {
        None
    } else {
        Some((trim_ws(lines[0]), trim_ws(lines[1]), trim_ws(lines[2])))
    }
}

/// Reads the output of a divisor task (see `gcd_texts`).
pub fn read_gcd_output(lines: &Vec<String>) -> (r: Option<(String, String, String)>)
    ensures
        match r {
            Some((g, a, b)) => gcd_texts(strings_view(lines@)) == Some((g@, a@, b@)),
            None => gcd_texts(strings_view(lines@)) is None,
        },
{
    if lines.len() != 3 {
        return None;
    }
    let ghost lv = strings_view(lines@);
    assert(lv[0] == lines@[0]@ && lv[1] == lines@[1]@ && lv[2] == lines@[2]@);
    let mut g = String::new();
    push_trimmed(&mut g, &str_chars(lines[0].as_str()));
    if crate::scene_kinds::same_text(g.as_str(), "1") {
        return None;
    }
    let mut a = String::new();
    push_trimmed(&mut a, &str_chars(lines[1].as_str()));
    let mut b = String::new();
    push_trimmed(&mut b, &str_chars(lines[2].as_str()));
    Some((g, a, b))
}

/// Two polynomials divided by their common divisor, and that divisor.
#[derive(Debug, Clone)]
pub struct ReductionResult {
    pub reduced1: Rc<Poly>,
    pub reduced2: Rc<Poly>,
    pub gcd: Rc<Poly>,
}

} // verus!
