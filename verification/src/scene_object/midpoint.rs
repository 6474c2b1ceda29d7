//! The midpoint of two points.

use vstd::prelude::*;
use crate::text::push_str;
use crate::scene_object::{point_text, push_point, push_if_named, strings_view};

verus! {

/// The midpoint of two points, each given by name or by coordinates.
#[derive(Debug, Clone, PartialEq)]
pub struct Midpoint {
    pub point1: String,
    pub point2: String,
}

/// A new point whose distances to the two points add up to the zero vector.
pub open spec fn midpoint_python(p1: Seq<char>, p2: Seq<char>, name: Seq<char>) -> Seq<char> {
    let nv = "Value(next_var(), initial=Value(next_var()))"@;
    name + " = Point("@ + nv + ", "@ + nv + ")"@ + "\n"@ + "is_zero_vector(("@ + point_text(p1) + " - "@ + name
        + ") + ("@ + point_text(p2) + " - "@ + name + "))"@
}

/// The names among a list of points given by name or by coordinates.
pub open spec fn named(ps: Seq<Seq<char>>) -> Seq<Seq<char>>
    decreases ps.len(),
{
    if ps.len() == 0 {
        seq![]
    } else {
        named(ps.drop_last()) + (if ps.last().contains(',') { seq![] } else { seq![ps.last()] })
    }
}

impl Midpoint {
    /// The Python lines that define the midpoint.
    pub fn to_python(&self, name: &str) -> (r: String)
        ensures
            r@ == midpoint_python(self.point1@, self.point2@, name@),
    {
        let new_value = "Value(next_var(), initial=Value(next_var()))";
        let mut s = String::new();
        push_str(&mut s, name);
        push_str(&mut s, " = Point(");
        push_str(&mut s, new_value);
        push_str(&mut s, ", ");
        push_str(&mut s, new_value);
        push_str(&mut s, ")");
        push_str(&mut s, "\n");
        push_str(&mut s, "is_zero_vector((");
        push_point(&mut s, &self.point1);
        push_str(&mut s, " - ");
        push_str(&mut s, name);
        push_str(&mut s, ") + (");
        push_point(&mut s, &self.point2);
        push_str(&mut s, " - ");
        push_str(&mut s, name);
        push_str(&mut s, "))");
        assert(s@ =~= midpoint_python(self.point1@, self.point2@, name@));
        s
    }

    /// The points given by name.
    pub fn get_dependencies(&self) -> (r: Vec<String>)
        ensures
            strings_view(r@) == named(seq![self.point1@, self.point2@]),
    {
        let mut r: Vec<String> = Vec::new();
        push_if_named(&mut r, &self.point1);
        push_if_named(&mut r, &self.point2);
        proof {
            let ps = seq![self.point1@, self.point2@];
            assert(ps.drop_last() =~= seq![self.point1@]);
            assert(seq![self.point1@].drop_last() =~= Seq::<Seq<char>>::empty());
            assert(named(seq![self.point1@]) =~= named(Seq::<Seq<char>>::empty()) + (if self.point1@.contains(',') {
                seq![]
            } else {
                seq![self.point1@]
            }));
            assert(strings_view(r@) =~= named(ps));
        }
        r
    }
}

} // verus!
