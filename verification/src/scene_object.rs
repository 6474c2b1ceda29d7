//! The objects of a geometric scene, and the Python lines that construct them.

use vstd::prelude::*;
use crate::poly_parse::{split_chars, split_on, split_state, pieces_view};
use crate::text::{push_str, push_trimmed, str_chars, trim_ws};


pub mod fixed_point;
pub mod free_point;
pub mod intersection_point;
pub mod formula_invariant;
pub mod computed_point;
pub mod locus;
pub mod midpoint;
pub mod pl_to_line;
pub mod point_to_line_distance_invariant;
pub mod projection;
pub mod sliding_point;
pub mod two_line_angle_invariant;

verus! {

/// The views of a list of strings.
pub open spec fn strings_view(v: Seq<String>) -> Seq<Seq<char>> {
    Seq::new(v.len(), |i: int| v[i]@)
}

/// A point given by name, or by coordinates `x, y`, as Python: a name stays
/// as it is; coordinates become `FixedPoint(x, y)`.
pub open spec fn point_text(p: Seq<char>) -> Seq<char> {
    if p.contains(',') {
        let parts = split_on(p, ',');
        "FixedPoint("@ + trim_ws(parts[0]) + ", "@ + trim_ws(parts[1]) + ")"@
    } else {
        p
    }
}

/// A text with a separator splits into at least two pieces.
proof fn lemma_split_two(s: Seq<char>, sep: char, n: int)
    requires
        0 <= n <= s.len(),
        exists|j: int| 0 <= j < n && s[j] == sep,
    ensures
        split_state(s, sep, n).0.len() >= 1,
    decreases n,
{
    if n > 0 && s[n - 1] != sep {
        let j = choose|j: int| 0 <= j < n && s[j] == sep;
        lemma_split_two(s, sep, n - 1);
    }
}

/// Pieces only get added.
proof fn lemma_split_grows(s: Seq<char>, sep: char, n: int, m: int)
    requires
        0 <= n <= m <= s.len(),
    ensures
        split_state(s, sep, n).0.len() <= split_state(s, sep, m).0.len(),
    decreases m - n,
{
    if n < m {
        lemma_split_grows(s, sep, n, m - 1);
    }
}

/// Appends the Python text of a point (see `point_text`).
pub fn push_point(s: &mut String, p: &String)
    ensures
        final(s)@ == old(s)@ + point_text(p@),
{
    let cs = str_chars(p.as_str());
    if crate::text::has_char(p.as_str(), ',') {
        let parts = split_chars(&cs, ',');
        proof {
            assert(cs@ == p@);
            assert(p@.contains(','));
            let j = choose|j: int| 0 <= j < p@.len() && p@[j] == ',';
            lemma_split_two(p@, ',', j + 1);
            lemma_split_grows(p@, ',', j + 1, p@.len() as int);
        }
        assert(pieces_view(parts@).len() >= 2);
        assert(parts@.len() >= 2);
        push_str(s, "FixedPoint(");
        push_trimmed(s, &parts[0]);
        push_str(s, ", ");
        push_trimmed(s, &parts[1]);
        push_str(s, ")");
        proof {
            let pv = pieces_view(parts@);
            assert(pv[0] == parts@[0]@);
            assert(pv[1] == parts@[1]@);
        }
    } else {
        push_str(s, p.as_str());
    }
}

/// Appends `p` to the list when it names a point (holds no comma).
pub fn push_if_named(deps: &mut Vec<String>, p: &String)
    ensures
        strings_view(final(deps)@) == strings_view(old(deps)@) + (if p@.contains(',') { seq![] } else { seq![p@] }),
{
    if !crate::text::has_char(p.as_str(), ',') {
        deps.push(p.clone());
    }
    assert(strings_view(deps@) =~= strings_view(old(deps)@) + (if p@.contains(',') { seq![] } else { seq![p@] }));
}

} // verus!
