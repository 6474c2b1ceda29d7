//! Reading what the scene's Python code prints: the equations, one per line,
//! up to the first empty line, then the plots, each a line of three words
//! (the plot's name and its two variables).

use vstd::prelude::*;
use crate::poly_parse::{split_on, split_chars, pieces_view, string_of};
use crate::scene_expr::triples_view;
use crate::scene_object::strings_view;
use crate::text::{is_whitespace, unicode_whitespace, str_chars};

verus! {

/// A line without its final carriage return, if any.
pub open spec fn strip_cr(l: Seq<char>) -> Seq<char> {
    if l.len() > 0 && l.last() == '\r' {
        l.drop_last()
    } else {
        l
    }
}

/// The lines of a text as `str::lines` gives them: the pieces between line
/// feeds, each without a final carriage return, and no empty piece after a
/// final line feed.
pub open spec fn text_lines(s: Seq<char>) -> Seq<Seq<char>> {
    let ps = split_on(s, '\n');
    let qs = if ps.last().len() == 0 {
        ps.drop_last()
    } else {
        ps
    };
    Seq::new(qs.len(), |i: int| strip_cr(qs[i]))
}

/// The words of `l[..n]` read so far and the word being read.
pub open spec fn words_state(l: Seq<char>, n: int) -> (Seq<Seq<char>>, Seq<char>)
    decreases n,
{
    if n <= 0 {
        (seq![], seq![])
    } else {
        let (done, cur) = words_state(l, n - 1);
        let c = l[n - 1];
        if unicode_whitespace(c) {
            if cur.len() > 0 {
                (done.push(cur), seq![])
            } else {
                (done, cur)
            }
        } else {
            (done, cur.push(c))
        }
    }
}

/// The words of a line as `str::split_whitespace` gives them.
pub open spec fn words(l: Seq<char>) -> Seq<Seq<char>> {
    let (done, cur) = words_state(l, l.len() as int);
    if cur.len() > 0 {
        done.push(cur)
    } else {
        done
    }
}

/// The index of the first empty line from `i` on, or the number of lines.
pub open spec fn first_blank(ls: Seq<Seq<char>>, i: int) -> int
    decreases ls.len() - i,
{
    if i < 0 || i >= ls.len() {
        ls.len() as int
    } else if ls[i].len() == 0 {
        i
    } else {
        first_blank(ls, i + 1)
    }
}

/// The plots among the lines `ls[from..n]`: the lines of three words.
pub open spec fn plot_lines(ls: Seq<Seq<char>>, from: int, n: int) -> Seq<(Seq<char>, Seq<char>, Seq<char>)>
    decreases n - from,
{
    if n <= from || n > ls.len() {
        seq![]
    } else {
        let prev = plot_lines(ls, from, n - 1);
        let w = words(ls[n - 1]);
        if w.len() == 3 {
            prev.push((w[0], w[1], w[2]))
        } else {
            prev
        }
    }
}

/// The equations of the output: its lines up to the first empty one.
pub open spec fn output_equations(s: Seq<char>) -> Seq<Seq<char>> {
    let ls = text_lines(s);
    ls.take(first_blank(ls, 0))
}

/// The plots of the output: after the first empty line, the lines of three words.
pub open spec fn output_plots(s: Seq<char>) -> Seq<(Seq<char>, Seq<char>, Seq<char>)> {
    let ls = text_lines(s);
    plot_lines(ls, first_blank(ls, 0) + 1, ls.len() as int)
}

/// The words of a line (see `words`).
fn line_words(l: &Vec<char>) -> (r: Vec<Vec<char>>)
    ensures
        pieces_view(r@) == words(l@),
{
    let mut done: Vec<Vec<char>> = Vec::new();
    let mut cur: Vec<char> = Vec::new();
    let mut i: usize = 0;
    while i < l.len()
        invariant
            i <= l@.len(),
            (pieces_view(done@), cur@) == words_state(l@, i as int),
        decreases l@.len() - i,
    {
        let c = l[i];
        if is_whitespace(c) {
            if cur.len() > 0 {
                let ghost before = pieces_view(done@);
                let w = cur;
                done.push(w);
                assert(pieces_view(done@) =~= before.push(w@));
                cur = Vec::new();
                assert(cur@ =~= Seq::<char>::empty());
            }
        } else {
            cur.push(c);
        }
        i = i + 1;
    }
    if cur.len() > 0 {
        let ghost before = pieces_view(done@);
        let w = cur;
        done.push(w);
        assert(pieces_view(done@) =~= before.push(w@));
    }
    done
}

/// The lines of a text (see `text_lines`).
fn lines_of(s: &Vec<char>) -> (r: Vec<Vec<char>>)
    ensures
        pieces_view(r@) == text_lines(s@),
{
    let ps = split_chars(s, '\n');
    let ghost pv = pieces_view(ps@);
    assert(pv.len() >= 1);
    let n: usize = if ps[ps.len() - 1].len() == 0 {
        ps.len() - 1
    } else {
        ps.len()
    };
    let mut out: Vec<Vec<char>> = Vec::new();
    let mut i: usize = 0;
    while i < n
        invariant
            pv == pieces_view(ps@),
            pv == split_on(s@, '\n'),
            n <= ps@.len(),
            i <= n,
            out@.len() == i,
            forall|j: int| 0 <= j < i ==> (#[trigger] out@[j])@ == strip_cr(pv[j]),
        decreases n - i,
    {
        let p: &Vec<char> = &ps[i];
        assert(p@ == pv[i as int]);
        let mut line: Vec<char> = Vec::new();
        let m: usize = if p.len() > 0 && p[p.len() - 1] == '\r' {
            p.len() - 1
        } else {
            p.len()
        };
        let mut k: usize = 0;
        while k < m
            invariant
                m <= p@.len(),
                k <= m,
                line@ == p@.take(k as int),
            decreases m - k,
        {
            line.push(p[k]);
            assert(p@.take(k as int + 1) =~= p@.take(k as int).push(p@[k as int]));
            k = k + 1;
        }
        assert(line@ =~= strip_cr(pv[i as int]));
        out.push(line);
        i = i + 1;
    }
    proof {
        let qs = if pv.last().len() == 0 {
            pv.drop_last()
        } else {
            pv
        };
        assert(pieces_view(out@) =~= Seq::new(qs.len(), |j: int| strip_cr(qs[j])));
    }
    out
}

/// Reads the output of the scene's Python code: the equations, its lines up
/// to the first empty one, and the plots, the following lines of exactly
/// three words (see `output_equations` and `output_plots`).
pub fn read_python_output(output: &str) -> (r: (Vec<String>, Vec<(String, String, String)>))
    ensures
        strings_view(r.0@) == output_equations(output@),
        triples_view(r.1@) == output_plots(output@),
{
    let cs = str_chars(output);
    let ls = lines_of(&cs);
    let ghost lv = pieces_view(ls@);
    let mut equations: Vec<String> = Vec::new();
    let mut i: usize = 0;
    while i < ls.len() && ls[i].len() > 0
        invariant
            lv == pieces_view(ls@),
            lv == text_lines(output@),
            i <= ls@.len(),
            first_blank(lv, 0) == first_blank(lv, i as int),
            strings_view(equations@) == lv.take(i as int),
        decreases ls@.len() - i,
    {
        let ghost before = equations@;
        equations.push(string_of(&ls[i]));
        assert(lv[i as int] == ls@[i as int]@);
        assert(strings_view(equations@) =~= strings_view(before).push(lv[i as int]));
        assert(lv.take(i as int + 1) =~= lv.take(i as int).push(lv[i as int]));
        i = i + 1;
    }
    assert(first_blank(lv, i as int) == i);
    let mut plots: Vec<(String, String, String)> = Vec::new();
    let mut j: usize = if i < ls.len() {
        i + 1
    } else {
        i
    };
    proof {
        assert(triples_view(plots@) =~= plot_lines(lv, i + 1, j as int));
    }
    while j < ls.len()
        invariant
            lv == pieces_view(ls@),
            i <= j <= ls@.len(),
            j == i ==> i == ls@.len(),
            triples_view(plots@) == plot_lines(lv, i + 1, j as int),
        decreases ls@.len() - j,
    {
        let ws = line_words(&ls[j]);
        assert(lv[j as int] == ls@[j as int]@);
        let ghost before = triples_view(plots@);
        if ws.len() == 3 {
            let a = string_of(&ws[0]);
            let b = string_of(&ws[1]);
            let c = string_of(&ws[2]);
            plots.push((a, b, c));
            assert(triples_view(plots@) =~= before.push((a@, b@, c@)));
        }
        j = j + 1;
    }
    (equations, plots)
}

} // verus!
