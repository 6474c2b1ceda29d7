//! A point at fixed integer coordinates.

use vstd::prelude::*;
use crate::text::{int_text, push_int, push_str};

verus! {

/// A point at fixed integer coordinates.
#[derive(Debug, Clone, PartialEq)]
pub struct FixedPoint {
    pub x: i64,
    pub y: i64,
}

/// `name = FixedPoint(x, y)`.
pub open spec fn fixed_point_python(x: i64, y: i64, name: Seq<char>) -> Seq<char> {
    name + " = FixedPoint("@ + int_text(x as int) + ", "@ + int_text(y as int) + ")"@
}

impl FixedPoint {
    /// The Python line that defines the point.
    pub fn to_python(&self, name: &str) -> (r: String)
        ensures
            r@ == fixed_point_python(self.x, self.y, name@),
    {
        let mut s = String::new();
        push_str(&mut s, name);
        push_str(&mut s, " = FixedPoint(");
        push_int(&mut s, self.x);
        push_str(&mut s, ", ");
        push_int(&mut s, self.y);
        push_str(&mut s, ")");
        assert(s@ =~= fixed_point_python(self.x, self.y, name@));
        s
    }

    /// A fixed point depends on no other object.
    pub fn get_dependencies(&self) -> (r: Vec<String>)
        ensures
            r@.len() == 0,
    {
        Vec::new()
    }
}

} // verus!
