//! The requirement that the angle between two lines stays constant.

use vstd::prelude::*;
use crate::text::push_str;
use crate::scene_object::strings_view;

verus! {

/// The requirement that the angle between two named lines stays constant.
#[derive(Debug, Clone, PartialEq)]
pub struct TwoLineAngleInvariant {
    pub line1: String,
    pub line2: String,
}

/// `is_constant(cot(line1.n, line2.n).abs())`.
pub open spec fn angle_python(l1: Seq<char>, l2: Seq<char>) -> Seq<char> {
    "is_constant(cot("@ + l1 + ".n, "@ + l2 + ".n).abs())"@
}

impl TwoLineAngleInvariant {
    /// The Python line that states the invariant; the name is not used.
    pub fn to_python(&self, _name: &str) -> (r: String)
        ensures
            r@ == angle_python(self.line1@, self.line2@),
    {
        let mut s = String::new();
        push_str(&mut s, "is_constant(cot(");
        push_str(&mut s, self.line1.as_str());
        push_str(&mut s, ".n, ");
        push_str(&mut s, self.line2.as_str());
        push_str(&mut s, ".n).abs())");
        assert(s@ =~= angle_python(self.line1@, self.line2@));
        s
    }

    /// The two lines.
    pub fn get_dependencies(&self) -> (r: Vec<String>)
        ensures
            strings_view(r@) == seq![self.line1@, self.line2@],
    {
        let mut r: Vec<String> = Vec::new();
        r.push(self.line1.clone());
        r.push(self.line2.clone());
        assert(strings_view(r@) =~= seq![self.line1@, self.line2@]);
        r
    }
}

} // verus!
