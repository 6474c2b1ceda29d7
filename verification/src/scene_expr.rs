//! Formulas that the user writes for a scene, made ready for the Python
//! side: powers become `**`, fractions of integers `q(n, d)` and integers
//! `i(n)`; and the names in a formula sorted by how they are used.

use vstd::prelude::*;
use crate::text::{push_char, push_str, str_chars, is_whitespace, lead_ws, trail_ws, unicode_whitespace};
use crate::scene_utils::{SceneUtils, IdentifierExtraction};
use crate::scene_object::strings_view;

verus! {

/// What compiling `pattern` with `regex::Regex::new` and replacing every
/// match in `text` by `rep` with `Regex::replace_all` gives (the text itself
/// when the pattern does not compile).
pub uninterp spec fn regex_replaced(pattern: Seq<char>, text: Seq<char>, rep: Seq<char>) -> Seq<char>;

/// `regex::Regex::new(pattern)` then `Regex::replace_all(text, rep)`, which
/// replaces every non-overlapping match, leftmost first, by `rep` with its
/// `$` group references expanded. A pattern that does not compile leaves the
/// text as it is. The result is named (`regex_replaced`); nothing more is
/// claimed of it.
#[verifier::external_body]
fn replace_all(pattern: &str, text: &str, rep: &str) -> (r: String)
    ensures
        r@ == regex_replaced(pattern@, text@, rep@),
{
    match regex::Regex::new(pattern) {
        Ok(re) => re.replace_all(text, rep).to_string(),
        Err(_) => text.to_string(),
    }
}

/// The text with every `^` written `**`.
pub open spec fn carets_doubled(s: Seq<char>) -> Seq<char>
    decreases s.len(),
{
    if s.len() == 0 {
        seq![]
    } else {
        carets_doubled(s.drop_last()) + (if s.last() == '^' { seq!['*', '*'] } else { seq![s.last()] })
    }
}

/// The text with every `^` written `**` (std's `str::replace("^", "**")`).
fn double_carets(s: &str) -> (r: String)
    ensures
        r@ == carets_doubled(s@),
{
    let cs = str_chars(s);
    let mut out = String::new();
    let mut i: usize = 0;
    while i < cs.len()
        invariant
            cs@ == s@,
            i <= cs@.len(),
            out@ == carets_doubled(cs@.take(i as int)),
        decreases cs@.len() - i,
    {
        assert(cs@.take(i as int + 1).drop_last() =~= cs@.take(i as int));
        if cs[i] == '^' {
            push_char(&mut out, '*');
            push_char(&mut out, '*');
        } else {
            push_char(&mut out, cs[i]);
        }
        assert(out@ =~= carets_doubled(cs@.take(i as int + 1)));
        i = i + 1;
    }
    assert(cs@.take(i as int) =~= cs@);
    out
}

/// The pattern of a fraction of two integers in parentheses.
pub open spec fn fraction_pattern() -> Seq<char> {
    "\\(\\s*(\\d+)\\s*/\\s*(\\d+)\\s*\\)"@
}

/// What a fraction becomes before the integers are wrapped: its integers
/// are marked so that they stay bare.
pub open spec fn fraction_rep() -> Seq<char> {
    "q(__$1, __$2)"@
}

/// The pattern of a standalone integer.
pub open spec fn integer_pattern() -> Seq<char> {
    "\\b\\d+\\b"@
}

/// What a standalone integer becomes.
pub open spec fn integer_rep() -> Seq<char> {
    "i($0)"@
}

/// The pattern of a marked integer.
pub open spec fn marked_pattern() -> Seq<char> {
    "\\b__(\\d+)\\b"@
}

/// What a marked integer becomes: the integer itself.
pub open spec fn marked_rep() -> Seq<char> {
    "$1"@
}

/// A formula as the Python side reads it: `^` becomes `**`, a fraction of
/// integers `(n / d)` becomes `q(n, d)`, and every other standalone integer
/// `n` becomes `i(n)`.
pub open spec fn prepared(e: Seq<char>) -> Seq<char> {
    let f1 = carets_doubled(e);
    let f2 = regex_replaced(fraction_pattern(), f1, fraction_rep());
    let f3 = regex_replaced(integer_pattern(), f2, integer_rep());
    regex_replaced(marked_pattern(), f3, marked_rep())
}

impl SceneUtils {
    /// The formula as the Python side reads it (see `prepared`).
    pub fn prepare_expression(expression: &String) -> (r: String)
        ensures
            r@ == prepared(expression@),
    {
        let f1 = double_carets(expression.as_str());
        let f2 = replace_all("\\(\\s*(\\d+)\\s*/\\s*(\\d+)\\s*\\)", f1.as_str(), "q(__$1, __$2)");
        let f3 = replace_all("\\b\\d+\\b", f2.as_str(), "i($0)");
        replace_all("\\b__(\\d+)\\b", f3.as_str(), "$1")
    }
}

/// For each match of `pattern` in `text` that `regex::Regex::find_iter`
/// gives, leftmost first: the text before it, the match and the text after
/// it (none when the pattern does not compile).
pub uninterp spec fn regex_pieces(pattern: Seq<char>, text: Seq<char>) -> Seq<(Seq<char>, Seq<char>, Seq<char>)>;

/// The views of a list of triples of strings.
pub open spec fn triples_view(v: Seq<(String, String, String)>) -> Seq<(Seq<char>, Seq<char>, Seq<char>)> {
    Seq::new(v.len(), |i: int| (v[i].0@, v[i].1@, v[i].2@))
}

/// `regex::Regex::new(pattern)` then `Regex::find_iter(text)`: for each
/// match, leftmost first and not overlapping, the text before it, the match
/// (`Match::as_str`) and the text after it, cut at `Match::start` and
/// `Match::end`. A pattern that does not compile gives no matches. The
/// result is named (`regex_pieces`); nothing more is claimed of it.
#[verifier::external_body]
fn find_pieces(pattern: &str, text: &str) -> (r: Vec<(String, String, String)>)
    ensures
        triples_view(r@) == regex_pieces(pattern@, text@),
{
    match regex::Regex::new(pattern) {
        Ok(re) => re.find_iter(text).map(|m| (text[..m.start()].to_string(), m.as_str().to_string(),
            text[m.end()..].to_string())).collect(),
        Err(_) => Vec::new(),
    }
}

/// The pattern of a name.
pub open spec fn name_pattern() -> Seq<char> {
    "\\b[a-zA-Z_]\\w*\\b"@
}

/// The text before a name ends, white space aside, with a dot.
pub open spec fn after_dot(before: Seq<char>) -> bool {
    let t = before.take(before.len() - trail_ws(before));
    t.len() > 0 && t.last() == '.'
}

/// The text after a name starts, white space aside, with `(`.
pub open spec fn before_paren(after: Seq<char>) -> bool {
    let t = after.skip(lead_ws(after));
    t.len() > 0 && t[0] == '('
}

/// How a name is used: 0 a function (called, not after a dot), 1 an object
/// (neither), 2 a field (after a dot, not called), 3 a method (both).
pub open spec fn name_kind(piece: (Seq<char>, Seq<char>, Seq<char>)) -> int {
    let dot = after_dot(piece.0);
    let paren = before_paren(piece.2);
    if paren && !dot {
        0
    } else if !paren && !dot {
        1
    } else if !paren {
        2
    } else {
        3
    }
}

/// Lexicographic order of texts by their characters, which is the order of
/// their UTF-8 bytes.
pub open spec fn text_lt(a: Seq<char>, b: Seq<char>) -> bool
    decreases a.len(),
{
    if a.len() == 0 {
        b.len() > 0
    } else if b.len() == 0 {
        false
    } else if a[0] != b[0] {
        a[0] < b[0]
    } else {
        text_lt(a.drop_first(), b.drop_first())
    }
}

/// Distinct texts are ordered one way or the other, and no text precedes itself.
proof fn lemma_text_lt_total(a: Seq<char>, b: Seq<char>)
    ensures
        !text_lt(a, a),
        a != b ==> text_lt(a, b) || text_lt(b, a),
        !(text_lt(a, b) && text_lt(b, a)),
    decreases a.len(),
{
    if a.len() > 0 && b.len() > 0 {
        lemma_text_lt_total(a.drop_first(), b.drop_first());
        lemma_text_lt_total(a.drop_first(), a.drop_first());
        if a[0] == b[0] && a != b {
            assert(a =~= seq![a[0]] + a.drop_first());
            assert(b =~= seq![b[0]] + b.drop_first());
            assert(a.drop_first() != b.drop_first());
        }
    } else if a.len() > 0 {
        lemma_text_lt_total(a.drop_first(), a.drop_first());
    } else if b.len() == 0 {
        assert(a =~= b);
    }
}

/// The order is transitive.
proof fn lemma_text_lt_trans(a: Seq<char>, b: Seq<char>, c: Seq<char>)
    requires
        text_lt(a, b),
        text_lt(b, c),
    ensures
        text_lt(a, c),
    decreases a.len(),
{
    if a.len() > 0 && b.len() > 0 && c.len() > 0 && a[0] == b[0] && b[0] == c[0] {
        lemma_text_lt_trans(a.drop_first(), b.drop_first(), c.drop_first());
    }
}

/// Whether `a` precedes `b` (see `text_lt`).
fn str_lt(a: &String, b: &String) -> (r: bool)
    ensures
        r == text_lt(a@, b@),
{
    let x = str_chars(a.as_str());
    let y = str_chars(b.as_str());
    let mut i: usize = 0;
    assert(x@.skip(0) =~= x@);
    assert(y@.skip(0) =~= y@);
    while i < x.len() && i < y.len() && x[i] == y[i]
        invariant
            x@ == a@,
            y@ == b@,
            i <= x@.len(),
            i <= y@.len(),
            text_lt(a@, b@) == text_lt(x@.skip(i as int), y@.skip(i as int)),
        decreases x@.len() - i,
    {
        assert(x@.skip(i as int).drop_first() =~= x@.skip(i as int + 1));
        assert(y@.skip(i as int).drop_first() =~= y@.skip(i as int + 1));
        i = i + 1;
    }
    if i == x.len() {
        i < y.len()
    } else if i == y.len() {
        false
    } else {
        x[i] < y[i]
    }
}

/// The texts are in increasing order, none twice.
pub open spec fn strictly_sorted(v: Seq<Seq<char>>) -> bool {
    forall|i: int, j: int| 0 <= i < j < v.len() ==> text_lt(#[trigger] v[i], #[trigger] v[j])
}

/// Adds a text to a sorted list unless it is there already.
pub(crate) fn insert_sorted(v: &mut Vec<String>, s: String)
    requires
        strictly_sorted(strings_view(old(v)@)),
    ensures
        strictly_sorted(strings_view(final(v)@)),
        forall|t: Seq<char>| strings_view(final(v)@).contains(t) <==> (strings_view(old(v)@).contains(t) || t == s@),
{
    let ghost w = strings_view(v@);
    let mut p: usize = 0;
    while p < v.len() && str_lt(&v[p], &s)
        invariant
            w == strings_view(v@),
            p <= v@.len(),
            forall|q: int| 0 <= q < p ==> text_lt(#[trigger] w[q], s@),
        decreases v@.len() - p,
    {
        p = p + 1;
    }
    proof {
        if p < w.len() {
            lemma_text_lt_total(w[p as int], s@);
        }
    }
    if p < v.len() && !str_lt(&s, &v[p]) {
        proof {
            assert(w[p as int] == s@);
            assert forall|t: Seq<char>| w.contains(t) <==> (w.contains(t) || t == s@) by {
                if t == s@ {
                    assert(w[p as int] == t);
                }
            }
        }
        return;
    }
    let ghost sv = s@;
    v.insert(p, s);
    proof {
        let w2 = strings_view(v@);
        assert(w2 =~= w.insert(p as int, sv));
        assert forall|i: int, j: int| 0 <= i < j < w2.len() implies text_lt(#[trigger] w2[i], #[trigger] w2[j]) by {
            if j < p {
            } else if j == p {
            } else if i < p {
                if j - 1 > p {
                    lemma_text_lt_trans(sv, w[p as int], w[j - 1]);
                }
                lemma_text_lt_trans(w[i], sv, w[j - 1]);
            } else if i == p {
                if j - 1 > p {
                    lemma_text_lt_trans(sv, w[p as int], w[j - 1]);
                }
            } else {
            }
        }
        assert forall|t: Seq<char>| w2.contains(t) <==> (w.contains(t) || t == sv) by {
            if w2.contains(t) {
                let k = choose|k: int| 0 <= k < w2.len() && w2[k] == t;
                if k < p {
                    assert(w[k] == t);
                } else if k > p {
                    assert(w[k - 1] == t);
                }
            }
            if w.contains(t) {
                let k = choose|k: int| 0 <= k < w.len() && w[k] == t;
                if k < p {
                    assert(w2[k] == t);
                } else {
                    assert(w2[k + 1] == t);
                }
            }
            if t == sv {
                assert(w2[p as int] == t);
            }
        }
    }
}

/// The text ends, white space aside, with a dot (see `after_dot`).
fn ends_with_dot(s: &String) -> (r: bool)
    ensures
        r == after_dot(s@),
{
    let cs = str_chars(s.as_str());
    let ghost v = cs@;
    let mut b: usize = cs.len();
    assert(v.take(b as int) =~= v);
    while b > 0 && is_whitespace(cs[b - 1])
        invariant
            v == cs@,
            v == s@,
            b <= cs@.len(),
            trail_ws(v) == (cs@.len() - b) + trail_ws(v.take(b as int)),
        decreases b,
    {
        assert(v.take(b as int).drop_last() =~= v.take(b as int - 1));
        b = b - 1;
    }
    proof {
        assert(trail_ws(v.take(b as int)) == 0) by {
            if b > 0 {
                assert(v.take(b as int).last() == v[b - 1]);
            }
        }
    }
    b > 0 && cs[b - 1] == '.'
}

/// The text starts, white space aside, with `(` (see `before_paren`).
fn starts_with_paren(s: &String) -> (r: bool)
    ensures
        r == before_paren(s@),
{
    let cs = str_chars(s.as_str());
    let ghost v = cs@;
    let mut a: usize = 0;
    assert(v.skip(0) =~= v);
    while a < cs.len() && is_whitespace(cs[a])
        invariant
            v == cs@,
            v == s@,
            a <= cs@.len(),
            lead_ws(v) == a + lead_ws(v.skip(a as int)),
        decreases cs@.len() - a,
    {
        assert(v.skip(a as int).drop_first() =~= v.skip(a as int + 1));
        a = a + 1;
    }
    proof {
        assert(lead_ws(v.skip(a as int)) == 0);
    }
    a < cs.len() && cs[a] == '('
}

/// Some piece is the name `t`, used in the way `k` (see `name_kind`).
pub open spec fn has_name_of_kind(ps: Seq<(Seq<char>, Seq<char>, Seq<char>)>, t: Seq<char>, k: int) -> bool {
    exists|i: int| 0 <= i < ps.len() && #[trigger] ps[i].1 == t && name_kind(ps[i]) == k
}

/// Exactly the names of kind `k` among the pieces are in the list.
pub open spec fn names_of_kind(list: Seq<Seq<char>>, ps: Seq<(Seq<char>, Seq<char>, Seq<char>)>, k: int) -> bool {
    forall|t: Seq<char>| #[trigger] list.contains(t) <==> has_name_of_kind(ps, t, k)
}

/// Taking one more piece: the list of kind `k` gains its name exactly when
/// the piece is of that kind.
proof fn lemma_names_step(
    before: Seq<Seq<char>>,
    after: Seq<Seq<char>>,
    ps: Seq<(Seq<char>, Seq<char>, Seq<char>)>,
    i: int,
    k: int,
)
    requires
        0 <= i < ps.len(),
        names_of_kind(before, ps.take(i), k),
        name_kind(ps[i]) == k ==> forall|t: Seq<char>| after.contains(t) <==> (before.contains(t) || t == ps[i].1),
        name_kind(ps[i]) != k ==> after == before,
    ensures
        names_of_kind(after, ps.take(i + 1), k),
{
    let pt = ps.take(i + 1);
    let p0 = ps.take(i);
    assert forall|t: Seq<char>| #[trigger] after.contains(t) <==> has_name_of_kind(pt, t, k) by {
        if after.contains(t) {
            if before.contains(t) {
                assert(has_name_of_kind(p0, t, k));
                let q = choose|q: int| 0 <= q < p0.len() && #[trigger] p0[q].1 == t && name_kind(p0[q]) == k;
                assert(pt[q] == p0[q]);
            } else {
                assert(pt[i].1 == t && name_kind(pt[i]) == k);
            }
        }
        if has_name_of_kind(pt, t, k) {
            let q = choose|q: int| 0 <= q < pt.len() && #[trigger] pt[q].1 == t && name_kind(pt[q]) == k;
            if q < i {
                assert(p0[q] == pt[q]);
                assert(before.contains(t));
            } else {
                assert(pt[q] == ps[i]);
            }
        }
    }
}

impl SceneUtils {
    /// The names in an expression (the matches of `name_pattern`), by how
    /// they are used (see `name_kind`): each list sorted (see `text_lt`),
    /// without repeats.
    pub fn extract_identifiers(expression: &String) -> (r: IdentifierExtraction)
        ensures
            ({
                let ps = regex_pieces(name_pattern(), expression@);
                &&& strictly_sorted(strings_view(r.function_names@)) && names_of_kind(strings_view(r.function_names@), ps, 0)
                &&& strictly_sorted(strings_view(r.object_names@)) && names_of_kind(strings_view(r.object_names@), ps, 1)
                &&& strictly_sorted(strings_view(r.field_names@)) && names_of_kind(strings_view(r.field_names@), ps, 2)
                &&& strictly_sorted(strings_view(r.method_names@)) && names_of_kind(strings_view(r.method_names@), ps, 3)
            }),
    {
        let pieces = find_pieces("\\b[a-zA-Z_]\\w*\\b", expression.as_str());
        SceneUtils::classify_identifiers(&pieces)
    }

    /// The names of the matched pieces (each the text before a match, the
    /// match and the text after it), by how they are used (see
    /// `name_kind`): each list sorted (see `text_lt`), without repeats.
    pub fn classify_identifiers(pieces: &Vec<(String, String, String)>) -> (r: IdentifierExtraction)
        ensures
            ({
                let ps = triples_view(pieces@);
                &&& strictly_sorted(strings_view(r.function_names@)) && names_of_kind(strings_view(r.function_names@), ps, 0)
                &&& strictly_sorted(strings_view(r.object_names@)) && names_of_kind(strings_view(r.object_names@), ps, 1)
                &&& strictly_sorted(strings_view(r.field_names@)) && names_of_kind(strings_view(r.field_names@), ps, 2)
                &&& strictly_sorted(strings_view(r.method_names@)) && names_of_kind(strings_view(r.method_names@), ps, 3)
            }),
    {
        let ghost ps = triples_view(pieces@);
        let mut functions: Vec<String> = Vec::new();
        let mut objects: Vec<String> = Vec::new();
        let mut fields: Vec<String> = Vec::new();
        let mut methods: Vec<String> = Vec::new();
        let mut i: usize = 0;
        while i < pieces.len()
            invariant
                ps == triples_view(pieces@),
                i <= pieces@.len(),
                strictly_sorted(strings_view(functions@)),
                strictly_sorted(strings_view(objects@)),
                strictly_sorted(strings_view(fields@)),
                strictly_sorted(strings_view(methods@)),
                names_of_kind(strings_view(functions@), ps.take(i as int), 0),
                names_of_kind(strings_view(objects@), ps.take(i as int), 1),
                names_of_kind(strings_view(fields@), ps.take(i as int), 2),
                names_of_kind(strings_view(methods@), ps.take(i as int), 3),
            decreases pieces@.len() - i,
        {
            let piece = &pieces[i];
            let dot = ends_with_dot(&piece.0);
            let paren = starts_with_paren(&piece.2);
            let name = piece.1.clone();
            let ghost pi = ps[i as int];
            assert(pi == (piece.0@, piece.1@, piece.2@));
            let ghost f0 = strings_view(functions@);
            let ghost o0 = strings_view(objects@);
            let ghost d0 = strings_view(fields@);
            let ghost m0 = strings_view(methods@);
            if paren && !dot {
                insert_sorted(&mut functions, name);
            } else if !paren && !dot {
                insert_sorted(&mut objects, name);
            } else if !paren {
                insert_sorted(&mut fields, name);
            } else {
                insert_sorted(&mut methods, name);
            }
            proof {
                lemma_names_step(f0, strings_view(functions@), ps, i as int, 0);
                lemma_names_step(o0, strings_view(objects@), ps, i as int, 1);
                lemma_names_step(d0, strings_view(fields@), ps, i as int, 2);
                lemma_names_step(m0, strings_view(methods@), ps, i as int, 3);
            }
            i = i + 1;
        }
        assert(ps.take(i as int) =~= ps);
        IdentifierExtraction { function_names: functions, object_names: objects, field_names: fields, method_names: methods }
    }
}

} // verus!
