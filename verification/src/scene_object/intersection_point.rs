//! The intersection of two objects.

use vstd::prelude::*;
use crate::text::push_str;
use crate::scene_object::strings_view;

verus! {

/// The intersection of two named objects.
#[derive(Debug, Clone, PartialEq)]
pub struct IntersectionPoint {
    pub object_name_1: String,
    pub object_name_2: String,
}

/// A new point that both objects contain.
pub open spec fn intersection_python(o1: Seq<char>, o2: Seq<char>, name: Seq<char>) -> Seq<char> {
    let nv = "Value(next_var(), initial=Value(next_var()))"@;
    name + " = Point("@ + nv + ", "@ + nv + ")"@ + "\n"@ + o1 + ".contains("@ + name + ")"@ + "\n"@ + o2
        + ".contains("@ + name + ")"@
}

impl IntersectionPoint {
    /// The Python lines that define the point.
    pub fn to_python(&self, name: &str) -> (r: String)
        ensures
            r@ == intersection_python(self.object_name_1@, self.object_name_2@, name@),
    {
        let new_value = "Value(next_var(), initial=Value(next_var()))";
        let mut s = String::new();
        push_str(&mut s, name);
        push_str(&mut s, " = Point(");
        push_str(&mut s, new_value);
        push_str(&mut s, ", ");
        push_str(&mut s, new_value);
        push_str(&mut s, ")");
        push_str(&mut s, "\n");
        push_str(&mut s, self.object_name_1.as_str());
        push_str(&mut s, ".contains(");
        push_str(&mut s, name);
        push_str(&mut s, ")");
        push_str(&mut s, "\n");
        push_str(&mut s, self.object_name_2.as_str());
        push_str(&mut s, ".contains(");
        push_str(&mut s, name);
        push_str(&mut s, ")");
        assert(s@ =~= intersection_python(self.object_name_1@, self.object_name_2@, name@));
        s
    }

    /// The two intersected objects.
    pub fn get_dependencies(&self) -> (r: Vec<String>)
        ensures
            strings_view(r@) == seq![self.object_name_1@, self.object_name_2@],
    {
        let mut r: Vec<String> = Vec::new();
        r.push(self.object_name_1.clone());
        r.push(self.object_name_2.clone());
        assert(strings_view(r@) =~= seq![self.object_name_1@, self.object_name_2@]);
        r
    }
}

} // verus!
