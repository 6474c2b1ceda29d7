//! The curve that a point traces.

use vstd::prelude::*;
use crate::text::push_str;
use crate::scene_object::strings_view;

verus! {

/// The curve that a named point traces.
#[derive(Debug, Clone, PartialEq)]
pub struct Locus {
    pub point: String,
}

/// `plot("name", point)`.
pub open spec fn locus_python(point: Seq<char>, name: Seq<char>) -> Seq<char> {
    "plot(\""@ + name + "\", "@ + point + ")"@
}

impl Locus {
    /// The Python line that plots the locus.
    pub fn to_python(&self, name: &str) -> (r: String)
        ensures
            r@ == locus_python(self.point@, name@),
    {
        let mut s = String::new();
        push_str(&mut s, "plot(\"");
        push_str(&mut s, name);
        push_str(&mut s, "\", ");
        push_str(&mut s, self.point.as_str());
        push_str(&mut s, ")");
        assert(s@ =~= locus_python(self.point@, name@));
        s
    }

    /// The traced point.
    pub fn get_dependencies(&self) -> (r: Vec<String>)
        ensures
            strings_view(r@) == seq![self.point@],
    {
        let mut r: Vec<String> = Vec::new();
        r.push(self.point.clone());
        assert(strings_view(r@) =~= seq![self.point@]);
        r
    }
}

} // verus!
