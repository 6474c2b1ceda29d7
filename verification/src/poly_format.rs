//! Polynomials as lists of terms, and as text.

use vstd::prelude::*;
use std::rc::Rc;
use crate::poly::{Poly, sv, sv_kids, lemma_kid_smaller};
use crate::spoly::{SPoly, size};
use crate::text::{decimal, push_char, push_decimal, push_str};

verus! {

/// A monomial: a coefficient and the variables with their degrees.
#[derive(Debug, Clone)]
pub struct Term {
    pub constant: i64,
    /// `(variable index, degree)`
    pub vars: Vec<(u8, u32)>,
}

/// A term as plain values.
pub type TermV = (int, Seq<(u8, u32)>);

impl View for Term {
    type V = TermV;

    open spec fn view(&self) -> TermV {
        (self.constant as int, self.vars@)
    }
}

/// The views of a sequence of terms.
pub open spec fn terms_view(ts: Seq<Term>) -> Seq<TermV> {
    Seq::new(ts.len(), |i: int| ts[i]@)
}

/// The terms of a polynomial: one per non-zero constant of the tree, in the
/// order of the tree, with the variables of the nodes above it at the degrees
/// of the branches taken (degree zero omitted), innermost variable first.
pub open spec fn terms_of(s: SPoly) -> Seq<TermV>
    decreases s, 0int,
{
    match s {
        SPoly::Constant(c) => if c == 0 { seq![] } else { seq![(c, Seq::<(u8, u32)>::empty())] },
        SPoly::Nested(v, cs) => terms_upto(cs, v, cs.len() as int),
    }
}

/// The terms of the first `n` coefficients of a node in `v`.
pub open spec fn terms_upto(cs: Seq<SPoly>, v: u8, n: int) -> Seq<TermV>
    decreases cs, n,
{
    if n <= 0 || n > cs.len() {
        seq![]
    } else {
        terms_upto(cs, v, n - 1) + tag(terms_of(cs[n - 1]), v, n - 1)
    }
}

/// Terms of coefficient `i` of a node in `v`: `v^i` added to each, unless `i` is zero.
pub open spec fn tag(ts: Seq<TermV>, v: u8, i: int) -> Seq<TermV> {
    if i == 0 {
        ts
    } else {
        Seq::new(ts.len(), |j: int| (ts[j].0, ts[j].1.push((v, i as u32))))
    }
}

/// The name of variable `v`: a letter, followed by `v / 26` when that is not zero.
pub open spec fn var_name(v: u8) -> Seq<char> {
    let letter = (97 + (v % 26)) as char;
    if v / 26 == 0 {
        seq![letter]
    } else {
        seq![letter] + decimal((v / 26) as nat)
    }
}

/// The absolute value.
pub open spec fn iabs(c: int) -> int {
    if c < 0 { -c } else { c }
}

/// The variables of a term as text, from position `j` on; a `*` goes before
/// each variable but the first, and before the first too when `star` holds.
pub open spec fn vars_text(vs: Seq<(u8, u32)>, j: int, star: bool) -> Seq<char>
    decreases vs.len() - j,
{
    if 0 <= j < vs.len() {
        (if star || j > 0 { seq!['*'] } else { seq![] }) + var_name(vs[j].0) + (if vs[j].1 > 1 {
            seq!['^'] + decimal(vs[j].1 as nat)
        } else {
            seq![]
        }) + vars_text(vs, j + 1, star)
    } else {
        seq![]
    }
}

/// One term as text; `first` says whether it opens the polynomial.
pub open spec fn term_text(t: TermV, first: bool) -> Seq<char> {
    let a = iabs(t.0);
    let sign = if !first {
        if t.0 < 0 { seq![' ', '-', ' '] } else { seq![' ', '+', ' '] }
    } else if t.0 < 0 {
        seq!['-']
    } else {
        seq![]
    };
    let num = if a != 1 || t.1.len() == 0 { decimal(a as nat) } else { seq![] };
    sign + num + vars_text(t.1, 0, a != 1)
}

/// How many lexemes a term counts for: its number unless omitted, each
/// variable, and each degree above one.
pub open spec fn term_lexemes(t: TermV) -> int {
    (if iabs(t.0) != 1 || t.1.len() == 0 { 1int } else { 0int }) + vars_lexemes(t.1, 0)
}

/// The lexemes of the variables from position `j` on.
pub open spec fn vars_lexemes(vs: Seq<(u8, u32)>, j: int) -> int
    decreases vs.len() - j,
{
    if 0 <= j < vs.len() {
        1 + (if vs[j].1 > 1 { 1int } else { 0int }) + vars_lexemes(vs, j + 1)
    } else {
        0
    }
}

/// The note that stands for omitted terms.
pub open spec fn omitted_note(k: int) -> Seq<char> {
    seq!['.', '.', '.', ' ', '('] + decimal(k as nat) + seq![
        ' ',
        't',
        'e',
        'r',
        'm',
        's',
        ' ',
        'o',
        'm',
        'i',
        't',
        't',
        'e',
        'd',
        ')',
    ]
}

/// The text of the terms from position `i` on, after `lex` lexemes. Unless
/// `full`, once more than a hundred lexemes are written the rest is replaced by
/// a note and the last term.
pub open spec fn terms_text_from(ts: Seq<TermV>, i: int, lex: int, first: bool, full: bool) -> Seq<char>
    decreases ts.len() - i,
{
    if i < 0 || i >= ts.len() {
        seq![]
    } else if !full && lex > 100 {
        omitted_note(ts.len() - i - 1) + term_text(ts.last(), first)
    } else {
        term_text(ts[i], first) + terms_text_from(ts, i + 1, lex + term_lexemes(ts[i]), false, full)
    }
}

/// The text of a polynomial given by its terms; `0` when there are none.
pub open spec fn poly_text(ts: Seq<TermV>, full: bool) -> Seq<char> {
    if ts.len() == 0 {
        seq!['0']
    } else {
        terms_text_from(ts, 0, 0, true, full)
    }
}

/// Every coefficient of every term lies strictly above `i64::MIN`.
pub open spec fn terms_in_range(ts: Seq<TermV>) -> bool {
    forall|i: int| 0 <= i < ts.len() ==> #[trigger] ts[i].0 > i64::MIN
}

/// A copy of a list of variables with their degrees.
fn copy_vars(vs: &Vec<(u8, u32)>) -> (r: Vec<(u8, u32)>)
    ensures
        r@ == vs@,
{
    let mut r: Vec<(u8, u32)> = Vec::new();
    let mut i: usize = 0;
    while i < vs.len()
        invariant
            i <= vs@.len(),
            r@ == vs@.take(i as int),
        decreases vs@.len() - i,
    {
        let (a, b) = vs[i];
        r.push((a, b));
        assert(vs@.take(i as int + 1) =~= vs@.take(i as int).push(vs@[i as int]));
        i = i + 1;
    }
    assert(vs@.take(i as int) =~= vs@);
    r
}

/// Lexeme counts are not negative.
proof fn lemma_vars_lexemes_nonneg(vs: Seq<(u8, u32)>, j: int)
    ensures
        vars_lexemes(vs, j) >= 0,
    decreases vs.len() - j,
{
    if 0 <= j < vs.len() {
        lemma_vars_lexemes_nonneg(vs, j + 1);
    }
}

/// Lexeme counts of terms are not negative.
proof fn lemma_term_lexemes_nonneg(t: TermV)
    ensures
        term_lexemes(t) >= 0,
{
    lemma_vars_lexemes_nonneg(t.1, 0);
}

impl Poly {
    /// The name of variable `var_idx`: `a` to `z`, then `a1` to `z1`, and so on.
    pub fn var_to_string(var_idx: u8) -> (r: String)
        ensures
            r@ == var_name(var_idx),
    {
        let base = var_idx / 26;
        let offset = var_idx % 26;
        let c = (97u8 + offset) as char;
        let mut s = String::new();
        push_char(&mut s, c);
        if base != 0 {
            push_decimal(&mut s, base as u64);
        }
        assert(s@ =~= var_name(var_idx));
        s
    }

    /// The terms of the polynomial (see `terms_of`).
    pub fn to_terms(&self) -> (r: Vec<Term>)
        ensures
            terms_view(r@) == terms_of(sv(*self)),
        decreases size(sv(*self)),
    {
        match self {
            Poly::Constant(n) => {
                let mut r: Vec<Term> = Vec::new();
                if *n != 0 {
                    r.push(Term { constant: *n, vars: Vec::new() });
                }
                assert(terms_view(r@) =~= terms_of(sv(*self)));
                r
            },
            Poly::Nested(v, polys) => {
                let ghost kids = sv_kids(polys@);
                let mut terms: Vec<Term> = Vec::new();
                let mut i: usize = 0;
                assert(terms_view(terms@) =~= terms_upto(kids, *v, 0));
                while i < polys.len()
                    invariant
                        *self == Poly::Nested(*v, *polys),
                        kids == sv_kids(polys@),
                        i <= polys@.len(),
                        terms_view(terms@) == terms_upto(kids, *v, i as int),
                    decreases polys@.len() - i,
                {
                    proof {
                        lemma_kid_smaller(*self, i as int);
                    }
                    let child: &Poly = &polys[i];
                    let sub = child.to_terms();
                    let ghost tagged = tag(terms_of(kids[i as int]), *v, i as int);
                    let ghost base = terms_view(terms@);
                    let mut j: usize = 0;
                    while j < sub.len()
                        invariant
                            terms_view(sub@) == terms_of(kids[i as int]),
                            tagged == tag(terms_of(kids[i as int]), *v, i as int),
                            j <= sub@.len(),
                            terms_view(terms@) == base + tagged.take(j as int),
                        decreases sub@.len() - j,
                    {
                        let t: &Term = &sub[j];
                        let mut vars = copy_vars(&t.vars);
                        if i > 0 {
                            vars.push((*v, i as u32));
                        }
                        let ghost before = terms_view(terms@);
                        terms.push(Term { constant: t.constant, vars });
                        proof {
                            assert(sub@[j as int]@ == terms_of(kids[i as int])[j as int]);
                            assert(terms_view(terms@) =~= before.push(tagged[j as int]));
                            assert(tagged.take(j as int + 1) =~= tagged.take(j as int).push(tagged[j as int]));
                        }
                        j = j + 1;
                    }
                    proof {
                        assert(tagged.take(j as int) =~= tagged);
                    }
                    i = i + 1;
                }
                terms
            },
        }
    }

    /// Appends the text of one term.
    fn push_term(s: &mut String, t: &Term, first: bool)
        ensures
            final(s)@ == old(s)@ + term_text(t@, first),
    {
        let c = t.constant;
        if !first {
            if c < 0 {
                push_char(s, ' ');
                push_char(s, '-');
                push_char(s, ' ');
            } else {
                push_char(s, ' ');
                push_char(s, '+');
                push_char(s, ' ');
            }
        } else if c < 0 {
            push_char(s, '-');
        }
        let ghost after_sign = s@;
        let a: u64 = if c < 0 { ((-(c + 1)) as u64) + 1 } else { c as u64 };
        assert(a as int == iabs(c as int));
        if a != 1 || t.vars.len() == 0 {
            push_decimal(s, a);
        }
        let ghost after_num = s@;
        let star = a != 1;
        let mut j: usize = 0;
        while j < t.vars.len()
            invariant
                j <= t.vars@.len(),
                s@ + vars_text(t.vars@, j as int, star) == after_num + vars_text(t.vars@, 0, star),
            decreases t.vars@.len() - j,
        {
            let ghost before = s@;
            let (var, deg) = t.vars[j];
            if star || j > 0 {
                push_char(s, '*');
            }
            let name = Poly::var_to_string(var);
            push_str(s, name.as_str());
            if deg > 1 {
                push_char(s, '^');
                push_decimal(s, deg as u64);
            }
            proof {
                let vs = t.vars@;
                let piece = (if star || j > 0 { seq!['*'] } else { seq![] }) + var_name(vs[j as int].0) + (if vs[j as int].1
                    > 1 {
                    seq!['^'] + decimal(vs[j as int].1 as nat)
                } else {
                    seq![]
                });
                assert(s@ =~= before + piece);
                assert(vars_text(vs, j as int, star) == piece + vars_text(vs, j as int + 1, star));
            }
            j = j + 1;
        }
        proof {
            assert(s@ =~= old(s)@ + term_text(t@, first));
        }
    }

    /// The lexemes of a term, counted up to a thousand.
    fn term_lexemes_capped(t: &Term) -> (n: u64)
        ensures
            n == (if term_lexemes(t@) < 1000 { term_lexemes(t@) } else { 1000 }),
    {
        let c = t.constant;
        let a: u64 = if c < 0 { ((-(c + 1)) as u64) + 1 } else { c as u64 };
        assert(a as int == iabs(c as int));
        let mut n: u64 = if a != 1 || t.vars.len() == 0 { 1 } else { 0 };
        let ghost head: int = n as int;
        let mut j: usize = 0;
        while j < t.vars.len() && n < 1000
            invariant
                j <= t.vars@.len(),
                head == (if iabs(t@.0) != 1 || t@.1.len() == 0 { 1int } else { 0int }),
                n <= 1000,
                n < 1000 ==> head + vars_lexemes(t.vars@, 0) == n + vars_lexemes(t.vars@, j as int),
                n >= 1000 ==> head + vars_lexemes(t.vars@, 0) >= 1000,
            decreases t.vars@.len() - j,
        {
            let (_, deg) = t.vars[j];
            proof {
                lemma_vars_lexemes_nonneg(t.vars@, j as int + 1);
            }
            n = n + if deg > 1 { 2 } else { 1 };
            j = j + 1;
            if n > 1000 {
                n = 1000;
            }
        }
        proof {
            lemma_vars_lexemes_nonneg(t.vars@, j as int);
        }
        n
    }

    /// The text of the polynomial: its terms joined by signs, `0` when there
    /// are none; unless `full`, once more than a hundred lexemes are written,
    /// the terms but the last are replaced by a note of how many were left out.
    pub fn text(&self, full: bool) -> (r: String)
        ensures
            r@ == poly_text(terms_of(sv(*self)), full),
    {
        let terms = self.to_terms();
        let ghost tv = terms_view(terms@);
        let mut s = String::new();
        if terms.len() == 0 {
            push_char(&mut s, '0');
            assert(s@ =~= poly_text(tv, full));
            return s;
        }
        let ghost mut lex_spec: int = 0;
        let mut lex: u64 = 0;
        let mut first = true;
        let mut i: usize = 0;
        assert(s@ + terms_text_from(tv, 0, 0, true, full) =~= poly_text(tv, full));
        while i < terms.len()
            invariant
                tv == terms_view(terms@),
                tv == terms_of(sv(*self)),
                tv.len() > 0,
                i <= terms@.len(),
                lex_spec >= 0,
                lex == (if lex_spec < 1000 { lex_spec } else { 1000 }),
                first == (i == 0),
                s@ + terms_text_from(tv, i as int, lex_spec, first, full) == poly_text(tv, full),
            decreases terms@.len() - i,
        {
            assert(tv[i as int] == terms@[i as int]@);
            if !full && lex > 100 {
                let rest = terms.len() - i - 1;
                push_str(&mut s, "... (");
                push_decimal(&mut s, rest as u64);
                push_str(&mut s, " terms omitted)");
                let last: &Term = &terms[terms.len() - 1];
                assert(tv.last() == last@);
                Poly::push_term(&mut s, last, first);
                proof {
                    reveal_strlit("... (");
                    reveal_strlit(" terms omitted)");
                    assert(s@ =~= poly_text(tv, full));
                    assert(tv == terms_of(sv(*self)));
                }
                return s;
            }
            let t: &Term = &terms[i];
            Poly::push_term(&mut s, t, first);
            let tl = Poly::term_lexemes_capped(t);
            proof {
                lemma_term_lexemes_nonneg(t@);
                lex_spec = lex_spec + term_lexemes(t@);
            }
            lex = if lex + tl > 1000 { 1000 } else { lex + tl };
            first = false;
            i = i + 1;
        }
        proof {
            assert(s@ =~= poly_text(tv, full));
        }
        s
    }

    /// The text of the polynomial, shortened when it is long (see `text`).
    pub fn to_string(&self) -> (r: String)
        ensures
            r@ == poly_text(terms_of(sv(*self)), false),
    {
        self.text(false)
    }
}

} // verus!
