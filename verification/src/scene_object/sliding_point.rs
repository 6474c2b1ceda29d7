//! A point that moves along an object.

use vstd::prelude::*;
use crate::text::{int_text, push_int, push_str};
use crate::scene_object::strings_view;

verus! {

/// A point that starts at integer coordinates and moves along a named object.
#[derive(Debug, Clone, PartialEq)]
pub struct SlidingPoint {
    pub x: i64,
    pub y: i64,
    pub constraining_object_name: String,
}

/// A free point that the object contains.
pub open spec fn sliding_point_python(x: i64, y: i64, obj: Seq<char>, name: Seq<char>) -> Seq<char> {
    name + " = FreePoint("@ + int_text(x as int) + ", "@ + int_text(y as int) + ")"@ + "\n"@ + obj + ".contains("@
        + name + ")"@
}

impl SlidingPoint {
    /// The Python lines that define the point.
    pub fn to_python(&self, name: &str) -> (r: String)
        ensures
            r@ == sliding_point_python(self.x, self.y, self.constraining_object_name@, name@),
    {
        let mut s = String::new();
        push_str(&mut s, name);
        push_str(&mut s, " = FreePoint(");
        push_int(&mut s, self.x);
        push_str(&mut s, ", ");
        push_int(&mut s, self.y);
        push_str(&mut s, ")");
        push_str(&mut s, "\n");
        push_str(&mut s, self.constraining_object_name.as_str());
        push_str(&mut s, ".contains(");
        push_str(&mut s, name);
        push_str(&mut s, ")");
        assert(s@ =~= sliding_point_python(self.x, self.y, self.constraining_object_name@, name@));
        s
    }

    /// The object the point moves along.
    pub fn get_dependencies(&self) -> (r: Vec<String>)
        ensures
            strings_view(r@) == seq![self.constraining_object_name@],
    {
        let mut r: Vec<String> = Vec::new();
        r.push(self.constraining_object_name.clone());
        assert(strings_view(r@) =~= seq![self.constraining_object_name@]);
        r
    }
}

} // verus!
