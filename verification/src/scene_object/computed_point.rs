//! A point whose coordinates are formulas over the scene's objects.

use vstd::prelude::*;
use crate::text::push_str;
use crate::scene_object::strings_view;
use crate::scene_utils::SceneUtils;
use crate::scene_expr::{prepared, regex_pieces, name_pattern, has_name_of_kind, strictly_sorted, insert_sorted};

verus! {

/// A point at the coordinates that two formulas give.
#[derive(Debug, Clone, PartialEq)]
pub struct ComputedPoint {
    pub x_expr: String,
    pub y_expr: String,
    pub value: String,
}

/// The Python line for a point at the formulas `x` and `y`, prepared for
/// Python (see `prepared`).
pub open spec fn computed_point_python(x: Seq<char>, y: Seq<char>, name: Seq<char>) -> Seq<char> {
    name + " = Point("@ + prepared(x) + ", "@ + prepared(y) + ")"@
}

impl ComputedPoint {
    /// `name = Point(x, y)`, the formulas prepared for Python (see `prepared`).
    pub fn to_python(&self, name: &str) -> (r: String)
        ensures
            r@ == computed_point_python(self.x_expr@, self.y_expr@, name@),
    {
        let x = SceneUtils::prepare_expression(&self.x_expr);
        let y = SceneUtils::prepare_expression(&self.y_expr);
        let mut s = String::new();
        push_str(&mut s, name);
        push_str(&mut s, " = Point(");
        push_str(&mut s, x.as_str());
        push_str(&mut s, ", ");
        push_str(&mut s, y.as_str());
        push_str(&mut s, ")");
        s
    }

    /// The objects that either formula names (see `extract_identifiers`),
    /// sorted, without repeats.
    pub fn get_dependencies(&self) -> (r: Vec<String>)
        ensures
            strictly_sorted(strings_view(r@)),
            forall|t: Seq<char>| #[trigger] strings_view(r@).contains(t) <==> (has_name_of_kind(
                regex_pieces(name_pattern(), self.x_expr@),
                t,
                1,
            ) || has_name_of_kind(regex_pieces(name_pattern(), self.y_expr@), t, 1)),
    {
        let xs = SceneUtils::extract_identifiers(&self.x_expr);
        let ys = SceneUtils::extract_identifiers(&self.y_expr);
        let mut deps = xs.object_names;
        let ghost xv = strings_view(deps@);
        let ghost yv = strings_view(ys.object_names@);
        let mut i: usize = 0;
        while i < ys.object_names.len()
            invariant
                yv == strings_view(ys.object_names@),
                i <= yv.len(),
                strictly_sorted(strings_view(deps@)),
                forall|t: Seq<char>| #[trigger] strings_view(deps@).contains(t) <==> (xv.contains(t) || yv.take(
                    i as int,
                ).contains(t)),
            decreases yv.len() - i,
        {
            let ghost before = strings_view(deps@);
            insert_sorted(&mut deps, ys.object_names[i].clone());
            proof {
                let ya = yv.take(i as int);
                let yb = yv.take(i as int + 1);
                assert(yb =~= ya.push(yv[i as int]));
                assert forall|t: Seq<char>| #[trigger] strings_view(deps@).contains(t) <==> (xv.contains(t) || yb.contains(t)) by {
                    assert(strings_view(deps@).contains(t) <==> (before.contains(t) || t == yv[i as int]));
                    assert(before.contains(t) <==> (xv.contains(t) || ya.contains(t)));
                    if yb.contains(t) && !ya.contains(t) {
                        let k = choose|k: int| 0 <= k < yb.len() && #[trigger] yb[k] == t;
                        if k < i {
                            assert(ya[k] == t);
                        }
                    }
                    if ya.contains(t) {
                        let k = choose|k: int| 0 <= k < ya.len() && #[trigger] ya[k] == t;
                        assert(yb[k] == t);
                    }
                    if t == yv[i as int] {
                        assert(yb[i as int] == t);
                    }
                }
            }
            i = i + 1;
        }
        assert(yv.take(i as int) =~= yv);
        proof {
            let px = regex_pieces(name_pattern(), self.x_expr@);
            let py = regex_pieces(name_pattern(), self.y_expr@);
            assert forall|t: Seq<char>| #[trigger] strings_view(deps@).contains(t) <==> (has_name_of_kind(px, t, 1)
                || has_name_of_kind(py, t, 1)) by {
                assert(strings_view(deps@).contains(t) <==> (xv.contains(t) || yv.contains(t)));
                assert(xv.contains(t) <==> has_name_of_kind(px, t, 1));
                assert(yv.contains(t) <==> has_name_of_kind(py, t, 1));
            }
        }
        deps
    }
}

} // verus!
