//! The requirement that the distance from a point to a line stays constant.

use vstd::prelude::*;
use crate::text::push_str;
use crate::scene_object::{point_text, push_point, push_if_named, strings_view};

verus! {

/// The requirement that the distance from a point to a line stays constant.
#[derive(Debug, Clone, PartialEq)]
pub struct PointToLineDistanceInvariant {
    pub point: String,
    pub line: String,
}

/// The Python text for a point, given by name or by coordinates, and a line.
pub open spec fn point_line_distance_python(point: Seq<char>, line: Seq<char>, name: Seq<char>) -> Seq<char> {
    "is_constant(d("@ + point_text(point) + ", "@ + line + "))"@
}

impl PointToLineDistanceInvariant {
    /// The Python line that states the invariant.
    pub fn to_python(&self, name: &str) -> (r: String)
        ensures
            r@ == point_line_distance_python(self.point@, self.line@, name@),
    {
        let mut s = String::new();
        push_str(&mut s, "is_constant(d(");
        push_point(&mut s, &self.point);
        push_str(&mut s, ", ");
        push_str(&mut s, self.line.as_str());
        push_str(&mut s, "))");
        assert(s@ =~= point_line_distance_python(self.point@, self.line@, name@));
        s
    }

    /// The point when it is given by name, then the line.
    pub fn get_dependencies(&self) -> (r: Vec<String>)
        ensures
            strings_view(r@) == (if self.point@.contains(',') { seq![] } else { seq![self.point@] }) + seq![self.line@],
    {
        let mut r: Vec<String> = Vec::new();
        push_if_named(&mut r, &self.point);
        let ghost before = strings_view(r@);
        r.push(self.line.clone());
        assert(strings_view(r@) =~= before.push(self.line@));
        assert(strings_view(r@) =~= (if self.point@.contains(',') { seq![] } else { seq![self.point@] }) + seq![self.line@]);
        r
    }
}

} // verus!
