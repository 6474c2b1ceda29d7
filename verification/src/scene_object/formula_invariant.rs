//! The requirement that a formula keeps its value.

use vstd::prelude::*;
use crate::text::push_str;
use crate::scene_object::strings_view;
use crate::scene_utils::SceneUtils;
use crate::scene_expr::{prepared, regex_pieces, name_pattern, has_name_of_kind, strictly_sorted, insert_sorted};
use crate::scene_kinds::same_text;

verus! {

/// The functions that formulas may call without naming an object.
pub open spec fn builtin_function(t: Seq<char>) -> bool {
    t == "sqrt"@ || t == "d"@ || t == "d_sqr"@ || t == "cot"@ || t == "Point"@ || t == "Line"@ || t == "Vector"@
}

/// Whether the name is that of a built-in function (see `builtin_function`).
fn is_builtin(t: &String) -> (r: bool)
    ensures
        r == builtin_function(t@),
{
    let s = t.as_str();
    same_text(s, "sqrt") || same_text(s, "d") || same_text(s, "d_sqr") || same_text(s, "cot") || same_text(s, "Point")
        || same_text(s, "Line") || same_text(s, "Vector")
}

/// The Python line that keeps a formula constant, the formula prepared for
/// Python (see `prepared`).
pub open spec fn invariant_python(f: Seq<char>) -> Seq<char> {
    "is_constant("@ + prepared(f) + ")"@
}

/// The requirement that a formula over the scene's objects stays constant.
#[derive(Debug, Clone, PartialEq)]
pub struct Invariant {
    pub formula: String,
}

impl Invariant {
    /// `is_constant(formula)`, the formula prepared for Python (see
    /// `prepared`); the name is not used.
    pub fn to_python(&self, _name: &str) -> (r: String)
        ensures
            r@ == invariant_python(self.formula@),
    {
        let f = SceneUtils::prepare_expression(&self.formula);
        let mut s = String::new();
        push_str(&mut s, "is_constant(");
        push_str(&mut s, f.as_str());
        push_str(&mut s, ")");
        s
    }

    /// What the formula is built on, sorted, without repeats: the objects
    /// it names (see `extract_identifiers`) and the functions it calls that
    /// are not built in (see `builtin_function`).
    pub fn get_dependencies(&self) -> (r: Vec<String>)
        ensures
            strictly_sorted(strings_view(r@)),
            forall|t: Seq<char>| #[trigger] strings_view(r@).contains(t) <==> (has_name_of_kind(
                regex_pieces(name_pattern(), self.formula@),
                t,
                1,
            ) || (has_name_of_kind(regex_pieces(name_pattern(), self.formula@), t, 0) && !builtin_function(t))),
    {
        let ids = SceneUtils::extract_identifiers(&self.formula);
        let ghost ov = strings_view(ids.object_names@);
        let ghost fv = strings_view(ids.function_names@);
        let mut deps = ids.object_names;
        let mut i: usize = 0;
        while i < ids.function_names.len()
            invariant
                fv == strings_view(ids.function_names@),
                i <= fv.len(),
                strictly_sorted(strings_view(deps@)),
                forall|t: Seq<char>| #[trigger] strings_view(deps@).contains(t) <==> (ov.contains(t) || (fv.take(
                    i as int,
                ).contains(t) && !builtin_function(t))),
            decreases fv.len() - i,
        {
            let f = &ids.function_names[i];
            let ghost before = strings_view(deps@);
            let ghost fa = fv.take(i as int);
            let ghost fb = fv.take(i as int + 1);
            proof {
                assert(fb =~= fa.push(fv[i as int]));
            }
            if !is_builtin(f) {
                insert_sorted(&mut deps, f.clone());
            }
            proof {
                assert forall|t: Seq<char>| #[trigger] strings_view(deps@).contains(t) <==> (ov.contains(t) || (
                fb.contains(t) && !builtin_function(t))) by {
                    if fb.contains(t) && !fa.contains(t) {
                        let k = choose|k: int| 0 <= k < fb.len() && #[trigger] fb[k] == t;
                        if k < i {
                            assert(fa[k] == t);
                        }
                    }
                    if fa.contains(t) {
                        let k = choose|k: int| 0 <= k < fa.len() && #[trigger] fa[k] == t;
                        assert(fb[k] == t);
                    }
                    if t == fv[i as int] {
                        assert(fb[i as int] == t);
                    }
                }
            }
            i = i + 1;
        }
        proof {
            assert(fv.take(i as int) =~= fv);
        }
        deps
    }
}

} // verus!
