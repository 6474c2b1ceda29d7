//! A point that starts at integer coordinates and may move.

use vstd::prelude::*;
use crate::text::{int_text, push_int, push_str};

verus! {

/// A point that starts at integer coordinates and may move.
#[derive(Debug, Clone, PartialEq)]
pub struct FreePoint {
    pub x: i64,
    pub y: i64,
}

/// `name = FreePoint(x, y)`.
pub open spec fn free_point_python(x: i64, y: i64, name: Seq<char>) -> Seq<char> {
    name + " = FreePoint("@ + int_text(x as int) + ", "@ + int_text(y as int) + ")"@
}

impl FreePoint {
    /// The Python line that defines the point.
    pub fn to_python(&self, name: &str) -> (r: String)
        ensures
            r@ == free_point_python(self.x, self.y, name@),
    {
        let mut s = String::new();
        push_str(&mut s, name);
        push_str(&mut s, " = FreePoint(");
        push_int(&mut s, self.x);
        push_str(&mut s, ", ");
        push_int(&mut s, self.y);
        push_str(&mut s, ")");
        assert(s@ =~= free_point_python(self.x, self.y, name@));
        s
    }

    /// A free point depends on no other object.
    pub fn get_dependencies(&self) -> (r: Vec<String>)
        ensures
            r@.len() == 0,
    {
        Vec::new()
    }
}

} // verus!
