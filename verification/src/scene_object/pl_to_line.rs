//! A perpendicular from a point to a line.

use vstd::prelude::*;
use crate::text::push_str;
use crate::scene_object::{point_text, push_point, push_if_named, strings_view};

verus! {

/// A perpendicular from a point to a line.
#[derive(Debug, Clone, PartialEq)]
pub struct PlToLine {
    pub point: String,
    pub line: String,
}

/// The Python text for a point, given by name or by coordinates, and a line.
pub open spec fn pl_to_line_python(point: Seq<char>, line: Seq<char>, name: Seq<char>) -> Seq<char> {
    name + " = PlToLine("@ + point_text(point) + ", "@ + line + ")"@
}

impl PlToLine {
    /// The Python line that defines the perpendicular.
    pub fn to_python(&self, name: &str) -> (r: String)
        ensures
            r@ == pl_to_line_python(self.point@, self.line@, name@),
    {
        let mut s = String::new();
        push_str(&mut s, name);
        push_str(&mut s, " = PlToLine(");
        push_point(&mut s, &self.point);
        push_str(&mut s, ", ");
        push_str(&mut s, self.line.as_str());
        push_str(&mut s, ")");
        assert(s@ =~= pl_to_line_python(self.point@, self.line@, name@));
        s
    }

    /// The point when it is given by name, then the line.
    pub fn get_dependencies(&self) -> (r: Vec<String>)
        ensures
            strings_view(r@) == (if self.point@.contains(',') { seq![] } else { seq![self.point@] }) + seq![self.line@],
    {
        let mut r: Vec<String> = Vec::new();
        push_if_named(&mut r, &self.point);
        let ghost before = strings_view(r@);
        r.push(self.line.clone());
        assert(strings_view(r@) =~= before.push(self.line@));
        assert(strings_view(r@) =~= (if self.point@.contains(',') { seq![] } else { seq![self.point@] }) + seq![self.line@]);
        r
    }
}

} // verus!
