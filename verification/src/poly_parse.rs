//! Reading polynomials from text such as `2*a^2*b - 3*b + 7`.
//!
//! The grammar is given by spec functions on the characters of the text; the
//! parser is proved to follow it, and the polynomial it builds to be the
//! normal form whose value is the sum of the terms read.

use vstd::prelude::*;
use vstd::arithmetic::power::pow;
use std::rc::Rc;
use crate::poly::{Poly, sv};
use crate::spoly::{SPoly, above_eq, bounded, canonical, eval, lemma_max_abs, lemma_max_abs_least, max_abs, ordered};
use crate::text::{is_alphabetic, is_ascii_letter, is_digit, str_chars, unicode_alphabetic};

verus! {

/// What went wrong while reading a polynomial.
#[derive(Debug)]
pub enum ParseError {
    InvalidVariable(String),
    InvalidTerm(String),
}

/// A parse error as plain values.
pub enum ParseErrorV {
    InvalidVariable(Seq<char>),
    InvalidTerm(Seq<char>),
}

impl View for ParseError {
    type V = ParseErrorV;

    open spec fn view(&self) -> ParseErrorV {
        match self {
            ParseError::InvalidVariable(s) => ParseErrorV::InvalidVariable(s@),
            ParseError::InvalidTerm(s) => ParseErrorV::InvalidTerm(s@),
        }
    }
}

// ---------------------------------------------------------------------------
// Numbers.
// ---------------------------------------------------------------------------

/// Every character is a decimal digit.
pub open spec fn all_digits(s: Seq<char>) -> bool {
    forall|i: int| 0 <= i < s.len() ==> #[trigger] is_digit(s[i])
}

/// The value of a string of decimal digits.
pub open spec fn digits_value(s: Seq<char>) -> int
    decreases s.len(),
{
    if s.len() == 0 {
        0
    } else {
        digits_value(s.drop_last()) * 10 + (s.last() as int - 48)
    }
}

/// The value of an unsigned numeral as std's `from_str` reads it: an optional
/// `+`, then at least one digit, and a value of at most `max`.
pub open spec fn unsigned_value(s: Seq<char>, max: int) -> Option<int> {
    let t = if s.len() > 0 && s[0] == '+' { s.drop_first() } else { s };
    if t.len() == 0 || !all_digits(t) || digits_value(t) > max {
        None
    } else {
        Some(digits_value(t))
    }
}

/// The value of a signed numeral as std's `i64::from_str` reads it: an
/// optional `+` or `-`, then at least one digit, and a value that fits.
pub open spec fn i64_value(s: Seq<char>) -> Option<int> {
    let neg = s.len() > 0 && s[0] == '-';
    let t = if s.len() > 0 && (s[0] == '+' || s[0] == '-') { s.drop_first() } else { s };
    if t.len() == 0 || !all_digits(t) {
        None
    } else {
        let v = if neg { -digits_value(t) } else { digits_value(t) };
        if i64::MIN <= v <= i64::MAX {
            Some(v)
        } else {
            None
        }
    }
}

// ---------------------------------------------------------------------------
// Splitting.
// ---------------------------------------------------------------------------

/// The pieces of `s[..n]` between separators: the finished ones and the one
/// being read.
pub open spec fn split_state(s: Seq<char>, sep: char, n: int) -> (Seq<Seq<char>>, Seq<char>)
    decreases n,
{
    if n <= 0 {
        (seq![], seq![])
    } else {
        let (done, cur) = split_state(s, sep, n - 1);
        if s[n - 1] == sep {
            (done.push(cur), seq![])
        } else {
            (done, cur.push(s[n - 1]))
        }
    }
}

/// The pieces of `s` between occurrences of `sep`, as std's `str::split` gives them.
pub open spec fn split_on(s: Seq<char>, sep: char) -> Seq<Seq<char>> {
    let (done, cur) = split_state(s, sep, s.len() as int);
    done.push(cur)
}

// ---------------------------------------------------------------------------
// Variables.
// ---------------------------------------------------------------------------

/// The index of a letter: `a` and `A` are 0, `z` and `Z` are 25.
pub open spec fn letter_index(c: char) -> int {
    if 'a' <= c <= 'z' {
        c as int - 97
    } else {
        c as int - 65
    }
}

/// The index that a variable name denotes: a letter, optionally followed by a
/// number `n` that adds `26 * n`. `None` when the name is not of that form.
pub open spec fn var_index(s: Seq<char>) -> Option<int> {
    if s.len() == 0 || !is_ascii_letter(s[0]) {
        None
    } else if s.len() == 1 {
        Some(letter_index(s[0]))
    } else {
        match unsigned_value(s.drop_first(), 255) {
            Some(n) => Some(letter_index(s[0]) + n * 26),
            None => None,
        }
    }
}

/// The name denotes an index that does not fit in a `u8`.
pub open spec fn var_overflows(s: Seq<char>) -> bool {
    match var_index(s) {
        Some(x) => x > 255,
        None => false,
    }
}

// ---------------------------------------------------------------------------
// Terms.
// ---------------------------------------------------------------------------

/// The outcome of reading a term or a polynomial: what was read, an error, or
/// an arithmetic overflow.
pub enum Outcome<T> {
    Good(T),
    Bad(ParseErrorV),
    Overflow,
}

/// A term as read: its coefficient and the degree of each of the 256 variables.
pub type TermRead = (int, Seq<int>);

/// The characters of `'text'`, between single quotes.
pub open spec fn quoted(s: Seq<char>) -> Seq<char> {
    seq!['\''] + s + seq!['\'']
}

/// The message text `m` followed by a quoted part.
pub open spec fn msg_with(m: Seq<char>, part: Seq<char>) -> Seq<char> {
    m + quoted(part)
}

/// Reads the factors `parts[i..]` of a term, with coefficient `c` and degrees
/// `degs` so far.
pub open spec fn term_from(parts: Seq<Seq<char>>, i: int, c: int, degs: Seq<int>) -> Outcome<TermRead>
    decreases parts.len() - i,
{
    if i < 0 || i >= parts.len() {
        Outcome::Good((c, degs))
    } else {
        let part = parts[i];
        if part.len() == 0 {
            Outcome::Bad(ParseErrorV::InvalidTerm("Empty part in term"@))
        } else if unicode_alphabetic(part[0]) {
            let vd = split_on(part, '^');
            if vd.len() > 2 {
                Outcome::Bad(ParseErrorV::InvalidTerm(msg_with("Invalid variable format in "@, part)))
            } else {
                let deg = if vd.len() == 2 { unsigned_value(vd[1], u32::MAX as int) } else { Some(1int) };
                match deg {
                    None => Outcome::Bad(ParseErrorV::InvalidTerm(msg_with("Invalid degree in "@, part))),
                    Some(d) => if d < 1 {
                        Outcome::Bad(ParseErrorV::InvalidTerm(msg_with("Invalid degree in "@, part)))
                    } else {
                        match var_index(vd[0]) {
                            None => Outcome::Bad(ParseErrorV::InvalidVariable(vd[0])),
                            Some(x) => if x > 255 || degs[x] + d > u32::MAX {
                                Outcome::Overflow
                            } else {
                                term_from(parts, i + 1, c, degs.update(x, degs[x] + d))
                            },
                        }
                    },
                }
            }
        } else {
            let num_str = if part[0] == '+' || part[0] == '-' { part.drop_first() } else { part };
            if num_str.len() == 0 {
                Outcome::Bad(ParseErrorV::InvalidTerm(msg_with("Invalid constant part "@, part)))
            } else {
                match i64_value(num_str) {
                    None => Outcome::Bad(ParseErrorV::InvalidTerm(msg_with("Invalid constant "@, num_str))),
                    Some(n) => {
                        let f = if part[0] == '-' { -n } else { n };
                        if f > i64::MAX || c * f < i64::MIN || c * f > i64::MAX {
                            Outcome::Overflow
                        } else {
                            term_from(parts, i + 1, c * f, degs)
                        }
                    },
                }
            }
        }
    }
}

/// No variable has a degree yet.
pub open spec fn no_degrees() -> Seq<int> {
    Seq::new(256, |i: int| 0int)
}

/// The text of a term as the factors are read from it: a leading `-` before a
/// letter stands for a factor `-1`.
pub open spec fn term_factors_text(t: Seq<char>) -> Seq<char> {
    if t.len() > 1 && t[0] == '-' && unicode_alphabetic(t[1]) {
        seq!['-', '1', '*'] + t.drop_first()
    } else {
        t
    }
}

/// Reads a term: factors separated by `*`, each a number or a variable with
/// an optional `^degree`; the coefficient is the product of the numbers, and
/// the degrees of a variable add up.
pub open spec fn read_term(t: Seq<char>) -> Outcome<TermRead> {
    term_from(split_on(term_factors_text(t), '*'), 0, 1, no_degrees())
}

// ---------------------------------------------------------------------------
// Polynomials.
// ---------------------------------------------------------------------------

/// The terms of `s[..n]` with their signs, the term being read and its sign.
/// A `+` or `-` ends a term unless nothing was read yet or the text read ends
/// in `*`; spaces are skipped.
pub open spec fn terms_state(s: Seq<char>, n: int) -> (Seq<(int, Seq<char>)>, Seq<char>, int)
    decreases n,
{
    if n <= 0 {
        (seq![], seq![], 1)
    } else {
        let (done, cur, sign) = terms_state(s, n - 1);
        let c = s[n - 1];
        if (c == '+' || c == '-') && cur.len() > 0 && cur.last() != '*' {
            (done.push((sign, cur)), seq![], if c == '+' { 1 } else { -1 })
        } else if c == ' ' {
            (done, cur, sign)
        } else {
            (done, cur.push(c), sign)
        }
    }
}

/// The terms of a polynomial's text, each with its sign.
pub open spec fn raw_terms(s: Seq<char>) -> Seq<(int, Seq<char>)> {
    let (done, cur, sign) = terms_state(s, s.len() as int);
    if cur.len() > 0 {
        done.push((sign, cur))
    } else {
        done
    }
}

/// `goods` followed by what an outcome holds.
pub open spec fn prepend(goods: Seq<TermRead>, o: Outcome<Seq<TermRead>>) -> Outcome<Seq<TermRead>> {
    match o {
        Outcome::Good(rest) => Outcome::Good(goods + rest),
        Outcome::Bad(e) => Outcome::Bad(e),
        Outcome::Overflow => Outcome::Overflow,
    }
}

/// Reads the terms `raws[i..]` in order, each multiplied by its sign; the first
/// term that fails decides the outcome.
pub open spec fn read_terms_from(raws: Seq<(int, Seq<char>)>, i: int) -> Outcome<Seq<TermRead>>
    decreases raws.len() - i,
{
    if i < 0 || i >= raws.len() {
        Outcome::Good(seq![])
    } else {
        match read_term(raws[i].1) {
            Outcome::Good(t) => {
                let c = t.0 * raws[i].0;
                if c < i64::MIN || c > i64::MAX {
                    Outcome::Overflow
                } else {
                    prepend(seq![(c, t.1)], read_terms_from(raws, i + 1))
                }
            },
            Outcome::Bad(e) => Outcome::Bad(e),
            Outcome::Overflow => Outcome::Overflow,
        }
    }
}

/// What reading a polynomial's text gives.
pub open spec fn read_poly(s: Seq<char>) -> Outcome<Seq<TermRead>> {
    read_terms_from(raw_terms(s), 0)
}

/// `env(k)^degs[k] * env(k+1)^degs[k+1] * ... * env(255)^degs[255]`.
pub open spec fn monomial_from(degs: Seq<int>, env: spec_fn(u8) -> int, k: int) -> int
    decreases 256 - k,
{
    if k < 0 || k >= 256 {
        1
    } else {
        pow(env(k as u8), degs[k] as nat) * monomial_from(degs, env, k + 1)
    }
}

/// The value of a term.
pub open spec fn term_value(t: TermRead, env: spec_fn(u8) -> int) -> int {
    t.0 * monomial_from(t.1, env, 0)
}

/// The value of a sum of terms.
pub open spec fn terms_value(ts: Seq<TermRead>, env: spec_fn(u8) -> int) -> int
    decreases ts.len(),
{
    if ts.len() == 0 {
        0
    } else {
        terms_value(ts.drop_last(), env) + term_value(ts.last(), env)
    }
}

/// The sum of the absolute values of the coefficients.
pub open spec fn abs_sum(ts: Seq<TermRead>) -> int
    decreases ts.len(),
{
    if ts.len() == 0 {
        0
    } else {
        abs_sum(ts.drop_last()) + (if ts.last().0 < 0 { -ts.last().0 } else { ts.last().0 })
    }
}

/// Reading the text does not overflow, and the sum of the absolute values of
/// the coefficients read fits in an `i64`.
pub open spec fn readable(s: Seq<char>) -> bool {
    match read_poly(s) {
        Outcome::Good(ts) => abs_sum(ts) <= i64::MAX,
        Outcome::Bad(_) => true,
        Outcome::Overflow => false,
    }
}


// ---------------------------------------------------------------------------
// Reading numbers.
// ---------------------------------------------------------------------------

/// The value of a digit string does not go down as digits are appended.
proof fn lemma_digits_prefix(t: Seq<char>, k: int)
    requires
        0 <= k <= t.len(),
        all_digits(t),
    ensures
        0 <= digits_value(t.take(k)) <= digits_value(t),
    decreases t.len() - k,
{
    if k < t.len() {
        lemma_digits_prefix(t, k + 1);
        let p = t.take(k + 1);
        assert(p.drop_last() =~= t.take(k));
        assert(is_digit(t[k]));
    } else {
        assert(t.take(k) =~= t);
    }
    lemma_digits_nonneg(t.take(k));
}

/// Digit strings have non-negative values.
proof fn lemma_digits_nonneg(t: Seq<char>)
    requires
        all_digits(t),
    ensures
        digits_value(t) >= 0,
    decreases t.len(),
{
    if t.len() > 0 {
        assert(all_digits(t.drop_last()));
        lemma_digits_nonneg(t.drop_last());
        assert(is_digit(t[t.len() - 1]));
    }
}

/// The value of the digits `s[start..]`, when they are all digits and the
/// value is at most `max`.
fn digits_upto(s: &Vec<char>, start: usize, max: u64) -> (r: Option<u64>)
    requires
        start <= s@.len(),
    ensures
        match r {
            Some(v) => all_digits(s@.skip(start as int)) && v == digits_value(s@.skip(start as int)) && v <= max,
            None => !all_digits(s@.skip(start as int)) || digits_value(s@.skip(start as int)) > max,
        },
{
    let ghost t = s@.skip(start as int);
    let mut v: u64 = 0;
    let mut i: usize = start;
    while i < s.len()
        invariant
            t == s@.skip(start as int),
            start <= i <= s@.len(),
            all_digits(t.take(i - start)),
            v == digits_value(t.take(i - start)),
            v <= max,
        decreases s@.len() - i,
    {
        let c = s[i];
        if !('0' <= c && c <= '9') {
            proof {
                assert(t[i - start] == c);
                assert(!is_digit(t[i - start]));
            }
            return None;
        }
        let d: u64 = (c as u32 - 48) as u64;
        let ghost k: int = i - start;
        proof {
            assert(t.take(k + 1).drop_last() =~= t.take(k));
            assert(t.take(k + 1).last() == c);
        }
        if d > max || v > (max - d) / 10 {
            proof {
                assert(v * 10 + d > max) by (nonlinear_arith)
                    requires
                        d > max || v > (max - d) / 10,
                        v >= 0,
                        d < 10,
                ;
                if all_digits(t) {
                    lemma_digits_prefix(t, k + 1);
                }
            }
            return None;
        }
        proof {
            assert(v * 10 + d <= max) by (nonlinear_arith)
                requires
                    v <= (max - d) / 10,
                    d <= max,
            ;
        }
        v = v * 10 + d;
        proof {
            assert forall|j: int| 0 <= j < k + 1 implies #[trigger] is_digit(t.take(k + 1)[j]) by {
                if j < k {
                    assert(t.take(k + 1)[j] == t.take(k)[j]);
                }
            }
        }
        i = i + 1;
    }
    proof {
        assert(t.take(i - start) =~= t);
    }
    Some(v)
}

/// std's reading of an unsigned numeral no larger than `max` (see `unsigned_value`).
fn unsigned_of(s: &Vec<char>, max: u64) -> (r: Option<u64>)
    ensures
        match r {
            Some(v) => unsigned_value(s@, max as int) == Some(v as int),
            None => unsigned_value(s@, max as int) is None,
        },
{
    let start: usize = if s.len() > 0 && s[0] == '+' { 1 } else { 0 };
    proof {
        let t = if s@.len() > 0 && s@[0] == '+' { s@.drop_first() } else { s@ };
        assert(t =~= s@.skip(start as int));
    }
    if start == s.len() {
        return None;
    }
    digits_upto(s, start, max)
}

/// std's reading of an `i64` numeral (see `i64_value`).
fn i64_of(s: &Vec<char>) -> (r: Option<i64>)
    ensures
        match r {
            Some(v) => i64_value(s@) == Some(v as int),
            None => i64_value(s@) is None,
        },
{
    let neg = s.len() > 0 && s[0] == '-';
    let start: usize = if s.len() > 0 && (s[0] == '+' || s[0] == '-') { 1 } else { 0 };
    proof {
        let t = if s@.len() > 0 && (s@[0] == '+' || s@[0] == '-') { s@.drop_first() } else { s@ };
        assert(t =~= s@.skip(start as int));
    }
    if start == s.len() {
        return None;
    }
    let max: u64 = if neg { 9223372036854775808 } else { 9223372036854775807 };
    match digits_upto(s, start, max) {
        Some(v) => {
            if neg {
                if v == 9223372036854775808 {
                    Some(i64::MIN)
                } else {
                    Some(-(v as i64))
                }
            } else {
                Some(v as i64)
            }
        },
        None => {
            proof {
                let t = s@.skip(start as int);
                if all_digits(t) {
                    lemma_digits_nonneg(t);
                }
            }
            None
        },
    }
}

// ---------------------------------------------------------------------------
// Splitting and messages.
// ---------------------------------------------------------------------------

/// The views of a list of character lists.
pub open spec fn pieces_view(v: Seq<Vec<char>>) -> Seq<Seq<char>> {
    Seq::new(v.len(), |i: int| v[i]@)
}

/// The pieces of `s` between occurrences of `sep` (see `split_on`).
pub(crate) fn split_chars(s: &Vec<char>, sep: char) -> (r: Vec<Vec<char>>)
    ensures
        pieces_view(r@) == split_on(s@, sep),
{
    let mut done: Vec<Vec<char>> = Vec::new();
    let mut cur: Vec<char> = Vec::new();
    let mut i: usize = 0;
    while i < s.len()
        invariant
            i <= s@.len(),
            (pieces_view(done@), cur@) == split_state(s@, sep, i as int),
        decreases s@.len() - i,
    {
        let c = s[i];
        if c == sep {
            let finished = cur;
            let ghost before = pieces_view(done@);
            done.push(finished);
            cur = Vec::new();
            assert(pieces_view(done@) =~= before.push(finished@));
        } else {
            cur.push(c);
        }
        i = i + 1;
    }
    let ghost before = pieces_view(done@);
    let last = cur;
    done.push(last);
    assert(pieces_view(done@) =~= before.push(last@));
    done
}

/// A string holding the characters `cs`.
pub(crate) fn string_of(cs: &Vec<char>) -> (r: String)
    ensures
        r@ == cs@,
{
    let mut r = String::new();
    let mut i: usize = 0;
    while i < cs.len()
        invariant
            i <= cs@.len(),
            r@ == cs@.take(i as int),
        decreases cs@.len() - i,
    {
        crate::text::push_char(&mut r, cs[i]);
        assert(cs@.take(i as int + 1) =~= cs@.take(i as int).push(cs@[i as int]));
        i = i + 1;
    }
    assert(cs@.take(i as int) =~= cs@);
    r
}

/// The message `m` followed by `part` between single quotes.
fn message(m: &str, part: &Vec<char>) -> (r: String)
    ensures
        r@ == msg_with(m@, part@),
{
    let mut r = String::new();
    crate::text::push_str(&mut r, m);
    crate::text::push_char(&mut r, '\'');
    let mut i: usize = 0;
    let ghost base = r@;
    while i < part.len()
        invariant
            i <= part@.len(),
            r@ == base + part@.take(i as int),
        decreases part@.len() - i,
    {
        crate::text::push_char(&mut r, part[i]);
        assert(part@.take(i as int + 1) =~= part@.take(i as int).push(part@[i as int]));
        i = i + 1;
    }
    crate::text::push_char(&mut r, '\'');
    assert(part@.take(i as int) =~= part@);
    assert(r@ =~= msg_with(m@, part@));
    r
}


// ---------------------------------------------------------------------------
// Reading variables and terms.
// ---------------------------------------------------------------------------

/// `s[from..]` as a new list.
fn chars_from(s: &Vec<char>, from: usize) -> (r: Vec<char>)
    requires
        from <= s@.len(),
    ensures
        r@ == s@.skip(from as int),
{
    let mut r: Vec<char> = Vec::new();
    let mut i: usize = from;
    while i < s.len()
        invariant
            from <= i <= s@.len(),
            r@ == s@.subrange(from as int, i as int),
        decreases s@.len() - i,
    {
        r.push(s[i]);
        assert(s@.subrange(from as int, i as int + 1) =~= s@.subrange(from as int, i as int).push(s@[i as int]));
        i = i + 1;
    }
    assert(s@.subrange(from as int, i as int) =~= s@.skip(from as int));
    r
}

/// The index of the variable named by `cs` (see `var_index`).
fn var_of(cs: &Vec<char>) -> (r: Option<u8>)
    requires
        !var_overflows(cs@),
    ensures
        match r {
            Some(x) => var_index(cs@) == Some(x as int),
            None => var_index(cs@) is None,
        },
{
    if cs.len() == 0 {
        return None;
    }
    let c = cs[0];
    if !(('a' <= c && c <= 'z') || ('A' <= c && c <= 'Z')) {
        return None;
    }
    let base: u8 = if 'a' <= c && c <= 'z' { (c as u32 - 97) as u8 } else { (c as u32 - 65) as u8 };
    if cs.len() == 1 {
        return Some(base);
    }
    let rest = chars_from(cs, 1);
    assert(rest@ =~= cs@.drop_first());
    match unsigned_of(&rest, 255) {
        Some(n) => Some(base + (n as u8) * 26),
        None => None,
    }
}

/// Whether a variable name stays within the 256 variables (see `var_overflows`).
fn var_fits(cs: &Vec<char>) -> (r: bool)
    ensures
        r == !var_overflows(cs@),
{
    if cs.len() <= 1 {
        return true;
    }
    let c = cs[0];
    if !(('a' <= c && c <= 'z') || ('A' <= c && c <= 'Z')) {
        return true;
    }
    let base: u32 = if 'a' <= c && c <= 'z' { c as u32 - 97 } else { c as u32 - 65 };
    let rest = chars_from(cs, 1);
    assert(rest@ =~= cs@.drop_first());
    match unsigned_of(&rest, 255) {
        Some(n) => base + (n as u32) * 26 <= 255,
        None => true,
    }
}

/// The degrees as integers.
pub open spec fn degs_view(d: Seq<u32>) -> Seq<int> {
    Seq::new(d.len(), |i: int| d[i] as int)
}

/// Reads a term (see `read_term`): its coefficient and the degree of each
/// variable, `None` when the reading overflows.
fn read_term_chars(t: &Vec<char>) -> (r: Result<Option<(i64, Vec<u32>)>, ParseError>)
    ensures
        match r {
            Ok(Some((c, d))) => d@.len() == 256 && read_term(t@) == Outcome::Good((c as int, degs_view(d@))),
            Ok(None) => read_term(t@) is Overflow,
            Err(e) => read_term(t@) == Outcome::<TermRead>::Bad(e@),
        },
{
    let ft: Vec<char> = if t.len() > 1 && t[0] == '-' && is_alphabetic(t[1]) {
        let mut f: Vec<char> = Vec::new();
        f.push('-');
        f.push('1');
        f.push('*');
        let rest = chars_from(t, 1);
        let mut i: usize = 0;
        while i < rest.len()
            invariant
                i <= rest@.len(),
                f@ == seq!['-', '1', '*'] + rest@.take(i as int),
            decreases rest@.len() - i,
        {
            f.push(rest[i]);
            assert(rest@.take(i as int + 1) =~= rest@.take(i as int).push(rest@[i as int]));
            i = i + 1;
        }
        assert(rest@.take(i as int) =~= rest@);
        assert(t@.drop_first() =~= t@.skip(1));
        f
    } else {
        chars_from(t, 0)
    };
    assert(ft@ =~= term_factors_text(t@));
    let parts = split_chars(&ft, '*');
    let ghost pv = pieces_view(parts@);
    let mut degs: Vec<u32> = Vec::new();
    let mut k: usize = 0;
    while k < 256
        invariant
            k <= 256,
            degs@.len() == k,
            forall|j: int| 0 <= j < k ==> #[trigger] degs@[j] == 0,
        decreases 256 - k,
    {
        degs.push(0);
        k = k + 1;
    }
    assert(degs_view(degs@) =~= no_degrees());
    let mut c: i64 = 1;
    let mut i: usize = 0;
    while i < parts.len()
        invariant
            pv == pieces_view(parts@),
            pv == split_on(term_factors_text(t@), '*'),
            i <= parts@.len(),
            degs@.len() == 256,
            read_term(t@) == term_from(pv, i as int, c as int, degs_view(degs@)),
        decreases parts@.len() - i,
    {
        let part: &Vec<char> = &parts[i];
        assert(part@ == pv[i as int]);
        if part.len() == 0 {
            return Err(ParseError::InvalidTerm(String::from_str("Empty part in term")));
        }
        if is_alphabetic(part[0]) {
            let vd = split_chars(part, '^');
            let ghost vdv = pieces_view(vd@);
            if vd.len() > 2 {
                return Err(ParseError::InvalidTerm(message("Invalid variable format in ", part)));
            }
            let deg: Option<u64> = if vd.len() == 2 {
                assert(vd@[1]@ == vdv[1]);
                unsigned_of(&vd[1], 4294967295)
            } else {
                Some(1)
            };
            match deg {
                None => {
                    return Err(ParseError::InvalidTerm(message("Invalid degree in ", part)));
                },
                Some(d) => {
                    if d < 1 {
                        return Err(ParseError::InvalidTerm(message("Invalid degree in ", part)));
                    }
                    assert(vd@[0]@ == vdv[0]);
                    if !var_fits(&vd[0]) {
                        return Ok(None);
                    }
                    match var_of(&vd[0]) {
                        None => {
                            return Err(ParseError::InvalidVariable(string_of(&vd[0])));
                        },
                        Some(x) => {
                            let nd: u64 = degs[x as usize] as u64 + d;
                            if nd > 4294967295 {
                                return Ok(None);
                            }
                            let ghost before = degs_view(degs@);
                            degs.set(x as usize, nd as u32);
                            assert(degs_view(degs@) =~= before.update(x as int, before[x as int] + d));
                        },
                    }
                },
            }
        } else {
            let signed = part[0] == '+' || part[0] == '-';
            let num_str: Vec<char> = if signed { chars_from(part, 1) } else { chars_from(part, 0) };
            assert(num_str@ =~= (if part@[0] == '+' || part@[0] == '-' { part@.drop_first() } else { part@ }));
            if num_str.len() == 0 {
                return Err(ParseError::InvalidTerm(message("Invalid constant part ", part)));
            }
            match i64_of(&num_str) {
                None => {
                    return Err(ParseError::InvalidTerm(message("Invalid constant ", &num_str)));
                },
                Some(n) => {
                    if part[0] == '-' && n == i64::MIN {
                        return Ok(None);
                    }
                    let f: i64 = if part[0] == '-' { -n } else { n };
                    match c.checked_mul(f) {
                        Some(x) => {
                            c = x;
                        },
                        None => {
                            return Ok(None);
                        },
                    }
                },
            }
        }
        i = i + 1;
    }
    Ok(Some((c, degs)))
}

/// The variables of degrees `degs[..k]` that are not zero, in increasing order.
pub open spec fn vars_upto(degs: Seq<int>, k: int) -> Seq<(u8, u32)>
    decreases k,
{
    if k <= 0 {
        seq![]
    } else {
        vars_upto(degs, k - 1) + (if degs[k - 1] > 0 { seq![((k - 1) as u8, degs[k - 1] as u32)] } else { seq![] })
    }
}

impl Poly {
    /// Reads a variable name: a letter, `a` to `z` or `A` to `Z` for 0 to 25,
    /// optionally followed by a number `n` that adds `26 * n`.
    pub fn parse_var(s: &str) -> (r: Result<u8, ParseError>)
        requires
            !var_overflows(s@),
        ensures
            match r {
                Ok(x) => var_index(s@) == Some(x as int),
                Err(e) => var_index(s@) is None && e@ == ParseErrorV::InvalidVariable(s@),
            },
    {
        let cs = str_chars(s);
        match var_of(&cs) {
            Some(x) => Ok(x),
            None => Err(ParseError::InvalidVariable(string_of(&cs))),
        }
    }

    /// Reads a term (see `read_term`); its variables come in increasing order.
    pub fn parse_term(term_str: &str) -> (r: Result<crate::poly_format::Term, ParseError>)
        requires
            !(read_term(term_str@) is Overflow),
        ensures
            match r {
                Ok(t) => read_term(term_str@) is Good && t.constant == read_term(term_str@)->Good_0.0 && t.vars@
                    == vars_upto(read_term(term_str@)->Good_0.1, 256),
                Err(e) => read_term(term_str@) == Outcome::<TermRead>::Bad(e@),
            },
    {
        let cs = str_chars(term_str);
        match read_term_chars(&cs) {
            Err(e) => Err(e),
            Ok(None) => {
                proof {
                    assert(false);
                }
                Err(ParseError::InvalidTerm(String::new()))
            },
            Ok(Some((c, degs))) => {
                let mut vars: Vec<(u8, u32)> = Vec::new();
                let mut k: usize = 0;
                while k < 256
                    invariant
                        k <= 256,
                        degs@.len() == 256,
                        vars@ == vars_upto(degs_view(degs@), k as int),
                    decreases 256 - k,
                {
                    if degs[k] > 0 {
                        vars.push((k as u8, degs[k]));
                    }
                    proof {
                        let dv = degs_view(degs@);
                        assert(dv[k as int] == degs@[k as int] as int);
                    }
                    k = k + 1;
                    assert(vars@ =~= vars_upto(degs_view(degs@), k as int));
                }
                Ok(crate::poly_format::Term { constant: c, vars })
            },
        }
    }
}


/// The value of a sum of terms is the value of its first terms plus the last.
proof fn lemma_terms_value_push(ts: Seq<TermRead>, t: TermRead, env: spec_fn(u8) -> int)
    ensures
        terms_value(ts.push(t), env) == terms_value(ts, env) + term_value(t, env),
{
    assert(ts.push(t).drop_last() =~= ts);
}

/// The absolute sum of a concatenation is the sum of the parts.
proof fn lemma_abs_sum_append(a: Seq<TermRead>, b: Seq<TermRead>)
    ensures
        abs_sum(a + b) == abs_sum(a) + abs_sum(b),
        abs_sum(b) >= 0,
    decreases b.len(),
{
    if b.len() == 0 {
        assert(a + b =~= a);
    } else {
        lemma_abs_sum_append(a, b.drop_last());
        assert((a + b).drop_last() =~= a + b.drop_last());
    }
}

/// The monomial `c * x0^degs[0] * ... * x255^degs[255]`.
fn monomial(c: i64, degs: &Vec<u32>) -> (r: Poly)
    requires
        degs@.len() == 256,
        c > i64::MIN,
    ensures
        ordered(sv(r)),
        bounded(sv(r), if c < 0 { -c } else { c as int }),
        forall|env: spec_fn(u8) -> int| #[trigger] eval(sv(r), env) == c * monomial_from(degs_view(degs@), env, 0),
{
    let ghost dv = degs_view(degs@);
    let ghost b: int = if c < 0 { -c } else { c as int };
    let mut m = Poly::Constant(c);
    let mut k: usize = 256;
    while k > 0
        invariant
            k <= 256,
            dv == degs_view(degs@),
            degs@.len() == 256,
            ordered(sv(m)),
            b >= 0,
            bounded(sv(m), b),
            sv(m) is Nested ==> sv(m)->Nested_0 >= k,
            forall|env: spec_fn(u8) -> int| #[trigger] eval(sv(m), env) == c * monomial_from(dv, env, k as int),
        decreases k,
    {
        let v: usize = k - 1;
        let d = degs[v];
        assert(dv[v as int] == d as int);
        if d > 0 {
            assert(above_eq(sv(m), v as u8));
            let ghost old_m = sv(m);
            m = Poly::shift_poly(m, v as u8, d as usize);
            proof {
                assert forall|env: spec_fn(u8) -> int| #[trigger] eval(sv(m), env) == c * monomial_from(dv, env, v as int) by {
                    let p = pow(env(v as u8), d as nat);
                    let rest = monomial_from(dv, env, k as int);
                    assert(eval(sv(m), env) == p * eval(old_m, env));
                    assert(p * (c * rest) == c * (p * rest)) by (nonlinear_arith);
                }
            }
        } else {
            proof {
                assert forall|env: spec_fn(u8) -> int| #[trigger] eval(sv(m), env) == c * monomial_from(dv, env, v as int) by {
                    assert(pow(env(v as u8), 0) == 1) by {
                        reveal(pow);
                    }
                }
            }
        }
        k = v;
    }
    m
}

impl Poly {
    /// Reads a polynomial: terms separated by `+` and `-` (see `read_poly`),
    /// summed up into the normal form.
    pub fn new(poly_str: &str) -> (r: Result<Poly, ParseError>)
        requires
            readable(poly_str@),
        ensures
            match r {
                Ok(p) => read_poly(poly_str@) is Good && canonical(sv(p)) && forall|env: spec_fn(u8) -> int| #[trigger]
                    eval(sv(p), env) == terms_value(read_poly(poly_str@)->Good_0, env),
                Err(e) => read_poly(poly_str@) == Outcome::<Seq<TermRead>>::Bad(e@),
            },
    {
        match Poly::new_checked(poly_str) {
            Some(x) => x,
            None => {
                proof {
                    assert(false);
                }
                Ok(Poly::Constant(0))
            },
        }
    }

    /// `new` on any text: `None` exactly when the text is not `readable`,
    /// that is when reading it overflows an `i64` (or a degree a `u32`, or a
    /// variable index 255), or when the constants add up beyond `i64::MAX`.
    pub fn new_checked(poly_str: &str) -> (r: Option<Result<Poly, ParseError>>)
        ensures
            r is None <==> !readable(poly_str@),
            r matches Some(x) ==> match x {
                Ok(p) => read_poly(poly_str@) is Good && canonical(sv(p)) && forall|env: spec_fn(u8) -> int| #[trigger]
                    eval(sv(p), env) == terms_value(read_poly(poly_str@)->Good_0, env),
                Err(e) => read_poly(poly_str@) == Outcome::<Seq<TermRead>>::Bad(e@),
            },
    {
        let cs = str_chars(poly_str);
        let mut raws: Vec<(i64, Vec<char>)> = Vec::new();
        let mut cur: Vec<char> = Vec::new();
        let mut sign: i64 = 1;
        let mut i: usize = 0;
        while i < cs.len()
            invariant
                i <= cs@.len(),
                cs@ == poly_str@,
                (raws_view(raws@), cur@, sign as int) == terms_state(cs@, i as int),
            decreases cs@.len() - i,
        {
            let c = cs[i];
            if (c == '+' || c == '-') && cur.len() > 0 && cur[cur.len() - 1] != '*' {
                let ghost before = raws_view(raws@);
                let finished = cur;
                raws.push((sign, finished));
                assert(raws_view(raws@) =~= before.push((sign as int, finished@)));
                cur = Vec::new();
                sign = if c == '+' { 1 } else { -1 };
            } else if c == ' ' {
            } else {
                cur.push(c);
            }
            i = i + 1;
        }
        if cur.len() > 0 {
            let ghost before = raws_view(raws@);
            let finished = cur;
            raws.push((sign, finished));
            assert(raws_view(raws@) =~= before.push((sign as int, finished@)));
        }
        let ghost rv = raws_view(raws@);
        assert(rv == raw_terms(poly_str@));
        let mut reads: Vec<(i64, Vec<u32>)> = Vec::new();
        let ghost mut goods: Seq<TermRead> = seq![];
        let mut j: usize = 0;
        while j < raws.len()
            invariant
                rv == raws_view(raws@),
                rv == raw_terms(poly_str@),
                j <= raws@.len(),
                read_poly(poly_str@) == prepend(goods, read_terms_from(rv, j as int)),
                reads@.len() == j,
                goods.len() == j,
                forall|q: int| 0 <= q < j ==> (#[trigger] reads@[q]).1@.len() == 256 && goods[q] == (
                    reads@[q].0 as int,
                    degs_view(reads@[q].1@),
                ),
            decreases raws@.len() - j,
        {
            let (sg, text) = (raws[j].0, &raws[j].1);
            assert(rv[j as int] == (sg as int, text@));
            match read_term_chars(text) {
                Err(e) => {
                    return Some(Err(e));
                },
                Ok(None) => {
                    return None;
                },
                Ok(Some((c, d))) => {
                    let c2 = match c.checked_mul(sg) {
                        Some(x) => x,
                        None => {
                            return None;
                        },
                    };
                    proof {
                        let rest = read_terms_from(rv, j as int + 1);
                        assert(read_terms_from(rv, j as int) == prepend(seq![(c2 as int, degs_view(d@))], rest));
                        assert(prepend(goods, prepend(seq![(c2 as int, degs_view(d@))], rest)) == prepend(
                            goods.push((c2 as int, degs_view(d@))),
                            rest,
                        )) by {
                            assert(goods + seq![(c2 as int, degs_view(d@))] =~= goods.push((c2 as int, degs_view(d@))));
                            if rest is Good {
                                assert(goods + (seq![(c2 as int, degs_view(d@))] + rest->Good_0) =~= goods.push(
                                    (c2 as int, degs_view(d@)),
                                ) + rest->Good_0);
                            }
                        }
                        goods = goods.push((c2 as int, degs_view(d@)));
                    }
                    reads.push((c2, d));
                },
            }
            j = j + 1;
        }
        proof {
            assert(goods + seq![] =~= goods);
            assert(read_poly(poly_str@) == Outcome::Good(goods));
        }
        let mut total: u128 = 0;
        let mut z: usize = 0;
        while z < reads.len()
            invariant
                z <= reads@.len(),
                goods.len() == reads@.len(),
                forall|w: int| 0 <= w < reads@.len() ==> goods[w].0 == (#[trigger] reads@[w]).0 as int,
                total as int == abs_sum(goods.take(z as int)),
                total <= z * 0x8000_0000_0000_0000,
            decreases reads@.len() - z,
        {
            let c = reads[z].0;
            let a: u128 = if c < 0 { (0 - (c as i128)) as u128 } else { c as u128 };
            proof {
                assert(goods.take(z as int + 1).drop_last() =~= goods.take(z as int));
                assert(goods.take(z as int + 1).last() == goods[z as int]);
                assert(z * 0x8000_0000_0000_0000 < 0x1_0000_0000_0000_0000_0000_0000_0000_0000 - 0x8000_0000_0000_0000) by (nonlinear_arith)
                    requires
                        z < 0x1_0000_0000_0000_0000,
                ;
            }
            total = total + a;
            z = z + 1;
        }
        proof {
            assert(goods.take(z as int) =~= goods);
        }
        if total > 9223372036854775807 {
            return None;
        }
        let mut acc = Poly::Constant(0);
        let mut q: usize = 0;
        while q < reads.len()
            invariant
                read_poly(poly_str@) == Outcome::Good(goods),
                abs_sum(goods) <= i64::MAX,
                goods.len() == reads@.len(),
                q <= reads@.len(),
                forall|z: int| 0 <= z < reads@.len() ==> (#[trigger] reads@[z]).1@.len() == 256 && goods[z] == (
                    reads@[z].0 as int,
                    degs_view(reads@[z].1@),
                ),
                canonical(sv(acc)),
                bounded(sv(acc), abs_sum(goods.take(q as int))),
                forall|env: spec_fn(u8) -> int| #[trigger] eval(sv(acc), env) == terms_value(goods.take(q as int), env),
            decreases reads@.len() - q,
        {
            let (c, d) = (reads[q].0, &reads[q].1);
            let ghost t = goods[q as int];
            proof {
                lemma_abs_sum_append(goods.take(q as int + 1), goods.skip(q as int + 1));
                assert(goods.take(q as int + 1) + goods.skip(q as int + 1) =~= goods);
                assert(goods.take(q as int + 1).drop_last() =~= goods.take(q as int));
                lemma_abs_sum_append(Seq::<TermRead>::empty(), goods.take(q as int));
                assert(Seq::<TermRead>::empty() + goods.take(q as int) =~= goods.take(q as int));
                assert(goods.take(q as int + 1).last() == t);
            }
            let m = monomial(c, d);
            proof {
                lemma_max_abs_least(sv(acc), abs_sum(goods.take(q as int)));
                lemma_max_abs(sv(m));
                lemma_max_abs_least(sv(m), if c < 0 { -c } else { c as int });
                assert(crate::spoly::abs(1) == 1);
                crate::spoly::lemma_canonical_ordered(sv(acc));
            }
            let ghost old_acc = sv(acc);
            acc.add_poly_scaled(&m, 1);
            proof {
                crate::spoly::lemma_bounded_mono(sv(acc), max_abs(old_acc) + max_abs(sv(m)) * crate::spoly::abs(1),
                    abs_sum(goods.take(q as int + 1)));
                assert forall|env: spec_fn(u8) -> int| #[trigger] eval(sv(acc), env) == terms_value(goods.take(q as int + 1), env) by {
                    lemma_terms_value_push(goods.take(q as int), t, env);
                    assert(goods.take(q as int + 1) =~= goods.take(q as int).push(t));
                }
            }
            q = q + 1;
        }
        proof {
            assert(goods.take(q as int) =~= goods);
        }
        Some(Ok(acc))
    }
}

/// The views of signed raw terms.
pub open spec fn raws_view(v: Seq<(i64, Vec<char>)>) -> Seq<(int, Seq<char>)> {
    Seq::new(v.len(), |i: int| (v[i].0 as int, v[i].1@))
}

} // verus!
