//! The catalogue of actions that the drawing service offers: what each
//! creates, which arguments it asks for, and the names it may give.

use vstd::prelude::*;

verus! {

/// What an action asks for in one step: the kinds of objects that may be
/// picked, the hint shown, and the kinds of objects that may not stand at the
/// picked place already.
pub struct Argument {
    pub types: Vec<String>,
    pub hint: String,
    pub exclusive_object_types: Vec<String>,
}

/// An action of the drawing service: its name, the kinds of objects it
/// creates, its arguments, its description, the names the created object
/// may take, and the group it is shown in.
pub struct Action {
    pub name: String,
    pub object_types: Vec<String>,
    pub arguments: Vec<Argument>,
    pub description: String,
    pub allowed_names: Vec<String>,
    pub group: String,
}

/// An argument as plain text.
#[verifier::ext_equal]
pub struct ArgumentV {
    pub types: Seq<Seq<char>>,
    pub hint: Seq<char>,
    pub exclusive_object_types: Seq<Seq<char>>,
}

/// An action as plain text.
#[verifier::ext_equal]
pub struct ActionV {
    pub name: Seq<char>,
    pub object_types: Seq<Seq<char>>,
    pub arguments: Seq<ArgumentV>,
    pub description: Seq<char>,
    pub allowed_names: Seq<Seq<char>>,
    pub group: Seq<char>,
}

/// The texts of a list of strings.
pub open spec fn texts(v: Seq<String>) -> Seq<Seq<char>> {
    Seq::new(v.len(), |i: int| v[i]@)
}

/// The plain values of a list of arguments.
pub open spec fn arguments_view(v: Seq<Argument>) -> Seq<ArgumentV> {
    Seq::new(v.len(), |i: int| v[i]@)
}

/// The plain values of a list of actions.
pub open spec fn actions_view(v: Seq<Action>) -> Seq<ActionV> {
    Seq::new(v.len(), |i: int| v[i]@)
}

impl View for Argument {
    type V = ArgumentV;

    open spec fn view(&self) -> ArgumentV {
        ArgumentV {
            types: texts(self.types@),
            hint: self.hint@,
            exclusive_object_types: texts(self.exclusive_object_types@),
        }
    }
}

impl View for Action {
    type V = ActionV;

    open spec fn view(&self) -> ActionV {
        ActionV {
            name: self.name@,
            object_types: texts(self.object_types@),
            arguments: arguments_view(self.arguments@),
            description: self.description@,
            allowed_names: texts(self.allowed_names@),
            group: self.group@,
        }
    }
}

/// The list with one more string.
fn push_text(v: Vec<String>, s: &str) -> (r: Vec<String>)
    ensures
        texts(r@) == texts(v@).push(s@),
{
    let ghost before = v@;
    let mut w = v;
    let t = String::from_str(s);
    w.push(t);
    assert(texts(w@) =~= texts(before).push(s@));
    w
}


/// An argument with the given parts.
fn make_argument(types: Vec<String>, hint: &str, exclusive_object_types: Vec<String>) -> (r: Argument)
    ensures
        r@ == (ArgumentV { types: texts(types@), hint: hint@, exclusive_object_types: texts(exclusive_object_types@) }),
{
    Argument { types, hint: String::from_str(hint), exclusive_object_types }
}

/// An action with the given parts.
fn make_action(
    name: &str,
    object_types: Vec<String>,
    arguments: Vec<Argument>,
    description: &str,
    allowed_names: Vec<String>,
    group: &str,
) -> (r: Action)
    ensures
        r@ == (ActionV {
            name: name@,
            object_types: texts(object_types@),
            arguments: arguments_view(arguments@),
            description: description@,
            allowed_names: texts(allowed_names@),
            group: group@,
        }),
{
    Action {
        name: String::from_str(name),
        object_types,
        arguments,
        description: String::from_str(description),
        allowed_names,
        group: String::from_str(group),
    }
}


/// The action `FixedPoint`.
pub open spec fn fixed_point_entry() -> ActionV {
    ActionV {
        name: "FixedPoint"@,
        object_types: seq!["FixedPoint"@],
        arguments: seq![ArgumentV { types: seq!["GridPoint"@], hint: "Select a point on the grid"@, exclusive_object_types: seq!["FixedPoint"@, "FreePoint"@, "Midpoint"@, "SlidingPoint"@, "IntersectionPoint"@] }],
        description: "Fixed point: a point with constant integer coordinates"@,
        allowed_names: seq!["A"@, "B"@, "C"@, "D"@, "E"@, "F"@, "G"@, "H"@, "I"@, "J"@, "K"@],
        group: "Points"@,
    }
}

/// The action `FreePoint`.
pub open spec fn free_point_entry() -> ActionV {
    ActionV {
        name: "FreePoint"@,
        object_types: seq!["FreePoint"@],
        arguments: seq![ArgumentV { types: seq!["GridPoint"@], hint: "Select a point on the grid"@, exclusive_object_types: seq!["FixedPoint"@, "FreePoint"@, "Midpoint"@, "SlidingPoint"@, "IntersectionPoint"@] }],
        description: "Free point: the initial position of a point subject to future constraints"@,
        allowed_names: seq!["X"@, "Y"@, "Z"@, "T"@, "U"@, "V"@, "W"@],
        group: "Points"@,
    }
}

/// The action `Midpoint`.
pub open spec fn midpoint_entry() -> ActionV {
    ActionV {
        name: "Midpoint"@,
        object_types: seq!["Midpoint"@],
        arguments: seq![ArgumentV { types: seq!["AnyDefinedOrGridPoint"@], hint: "Select an already defined point or a point on the grid (1 of 2)"@, exclusive_object_types: Seq::<Seq<char>>::empty() }, ArgumentV { types: seq!["AnyDefinedOrGridPoint"@], hint: "Select an already defined point or a point on the grid (2 of 2)"@, exclusive_object_types: Seq::<Seq<char>>::empty() }],
        description: "Midpoint: the point halfway between two given points"@,
        allowed_names: seq!["X"@, "Y"@, "Z"@, "T"@, "U"@, "V"@, "W"@],
        group: "Points"@,
    }
}

/// The action `IntersectionPoint`.
pub open spec fn intersection_point_entry() -> ActionV {
    ActionV {
        name: "IntersectionPoint"@,
        object_types: seq!["IntersectionPoint"@],
        arguments: seq![ArgumentV { types: seq!["IntersectionPoint"@], hint: "Select a point common to two lines"@, exclusive_object_types: seq!["IntersectionPoint"@] }],
        description: "Intersection point: the point where two lines meet"@,
        allowed_names: seq!["X"@, "Y"@, "Z"@, "T"@, "U"@, "V"@, "W"@],
        group: "Points"@,
    }
}

/// The action `SlidingPoint`.
pub open spec fn sliding_point_entry() -> ActionV {
    ActionV {
        name: "SlidingPoint"@,
        object_types: seq!["SlidingPoint"@],
        arguments: seq![ArgumentV { types: seq!["SlidingPoint"@], hint: "Select a point on a line"@, exclusive_object_types: seq!["SlidingPoint"@, "FreePoint"@, "FixedPoint"@, "IntersectionPoint"@] }],
        description: "Sliding point: the initial position of a point constrained to a line"@,
        allowed_names: seq!["X"@, "Y"@, "Z"@, "T"@, "U"@, "V"@, "W"@],
        group: "Points"@,
    }
}

/// The action `Projection`.
pub open spec fn projection_entry() -> ActionV {
    ActionV {
        name: "Projection"@,
        object_types: seq!["Projection"@],
        arguments: seq![ArgumentV { types: seq!["AnyDefinedOrGridPoint"@], hint: "Select the point to be projected (an already defined point or a point on the grid) (1 of 2)"@, exclusive_object_types: Seq::<Seq<char>>::empty() }, ArgumentV { types: seq!["Line"@], hint: "Select the line to be projected onto (2 of 2)"@, exclusive_object_types: Seq::<Seq<char>>::empty() }],
        description: "Projection: the point on a line that is the perpendicular projection of a given point onto the line"@,
        allowed_names: seq!["X"@, "Y"@, "Z"@, "T"@, "U"@, "V"@, "W"@],
        group: "Points"@,
    }
}

/// The action `Reflection`.
pub open spec fn reflection_entry() -> ActionV {
    ActionV {
        name: "Reflection"@,
        object_types: seq!["Reflection"@],
        arguments: seq![ArgumentV { types: seq!["AnyDefinedOrGridPoint"@], hint: "Select the point to be reflected (an already defined point or a point on the grid) (1 of 2)"@, exclusive_object_types: Seq::<Seq<char>>::empty() }, ArgumentV { types: seq!["Line"@], hint: "Select the line to be reflected across (2 of 2)"@, exclusive_object_types: Seq::<Seq<char>>::empty() }],
        description: "Reflection: the point on the other side of a line that is the reflection of a given point across the line"@,
        allowed_names: seq!["X"@, "Y"@, "Z"@, "T"@, "U"@, "V"@, "W"@],
        group: "Points"@,
    }
}

/// The action `ScaledVectorPoint`.
pub open spec fn scaled_vector_point_entry() -> ActionV {
    ActionV {
        name: "ScaledVectorPoint"@,
        object_types: seq!["ScaledVectorPoint"@],
        arguments: seq![ArgumentV { types: Seq::<Seq<char>>::empty(), hint: "Enter the expression for the scaling coefficient k (1 of 3)"@, exclusive_object_types: Seq::<Seq<char>>::empty() }, ArgumentV { types: seq!["AnyDefinedOrGridPoint"@], hint: "Choose the start point (A) of the reference vector (2 of 3)"@, exclusive_object_types: Seq::<Seq<char>>::empty() }, ArgumentV { types: seq!["AnyDefinedOrGridPoint"@], hint: "Choose the end point (B) of the reference vector (3 of 3)"@, exclusive_object_types: Seq::<Seq<char>>::empty() }],
        description: "Scaled vector point: a point X defined by the vector relation AX = k AB for chosen A and B"@,
        allowed_names: seq!["X"@, "Y"@, "Z"@, "T"@, "U"@, "V"@, "W"@],
        group: "Points"@,
    }
}

/// The action `ComputedPoint`.
pub open spec fn computed_point_entry() -> ActionV {
    ActionV {
        name: "ComputedPoint"@,
        object_types: seq!["ComputedPoint"@],
        arguments: seq![ArgumentV { types: Seq::<Seq<char>>::empty(), hint: "Enter the expression for the X coordinate of the point (may include parameters and reference objects) (1 of 2)"@, exclusive_object_types: Seq::<Seq<char>>::empty() }, ArgumentV { types: Seq::<Seq<char>>::empty(), hint: "Enter the expression for the Y coordinate of the point (may include parameters and reference objects) (2 of 2)"@, exclusive_object_types: Seq::<Seq<char>>::empty() }],
        description: "Computed point: a point defined by custom X and Y expressions"@,
        allowed_names: seq!["X"@, "Y"@, "Z"@, "T"@, "U"@, "V"@, "W"@],
        group: "Points"@,
    }
}

/// The action `LineAB`.
pub open spec fn line_a_b_entry() -> ActionV {
    ActionV {
        name: "LineAB"@,
        object_types: seq!["LineAB"@],
        arguments: seq![ArgumentV { types: seq!["AnyDefinedOrGridPoint"@], hint: "Select an already defined point or a point on the grid (1 of 2)"@, exclusive_object_types: Seq::<Seq<char>>::empty() }, ArgumentV { types: seq!["AnyDefinedOrGridPoint"@], hint: "Select an already defined point or a point on the grid (2 of 2)"@, exclusive_object_types: Seq::<Seq<char>>::empty() }],
        description: "Line: a line passing through two given points"@,
        allowed_names: seq!["lineA"@, "lineB"@, "lineC"@, "lineD"@, "lineE"@, "lineF"@, "lineG"@, "lineH"@, "lineI"@, "lineJ"@, "lineK"@],
        group: "Lines"@,
    }
}

/// The action `PpBisector`.
pub open spec fn pp_bisector_entry() -> ActionV {
    ActionV {
        name: "PpBisector"@,
        object_types: seq!["PpBisector"@],
        arguments: seq![ArgumentV { types: seq!["AnyDefinedOrGridPoint"@], hint: "Select an already defined point or a point on the grid (1 of 2)"@, exclusive_object_types: Seq::<Seq<char>>::empty() }, ArgumentV { types: seq!["AnyDefinedOrGridPoint"@], hint: "Select an already defined point or a point on the grid (2 of 2)"@, exclusive_object_types: Seq::<Seq<char>>::empty() }],
        description: "Perpendicular bisector: the line consisting of points equidistant to two given points"@,
        allowed_names: seq!["lineA"@, "lineB"@, "lineC"@, "lineD"@, "lineE"@, "lineF"@, "lineG"@, "lineH"@, "lineI"@, "lineJ"@, "lineK"@],
        group: "Lines"@,
    }
}

/// The action `PpToLine`.
pub open spec fn pp_to_line_entry() -> ActionV {
    ActionV {
        name: "PpToLine"@,
        object_types: seq!["PpToLine"@],
        arguments: seq![ArgumentV { types: seq!["AnyDefinedOrGridPoint"@], hint: "Select an already defined point or a point on the grid (1 of 2)"@, exclusive_object_types: Seq::<Seq<char>>::empty() }, ArgumentV { types: seq!["Line"@], hint: "Select a line (2 of 2)"@, exclusive_object_types: Seq::<Seq<char>>::empty() }],
        description: "Perpendicular to a line: a line through the given point perpendicular to the given line"@,
        allowed_names: seq!["lineA"@, "lineB"@, "lineC"@, "lineD"@, "lineE"@, "lineF"@, "lineG"@, "lineH"@, "lineI"@, "lineJ"@, "lineK"@],
        group: "Lines"@,
    }
}

/// The action `PlToLine`.
pub open spec fn pl_to_line_entry() -> ActionV {
    ActionV {
        name: "PlToLine"@,
        object_types: seq!["PlToLine"@],
        arguments: seq![ArgumentV { types: seq!["AnyDefinedOrGridPoint"@], hint: "Select an already defined point or a point on the grid (1 of 2)"@, exclusive_object_types: Seq::<Seq<char>>::empty() }, ArgumentV { types: seq!["Line"@], hint: "Select a line (2 of 2)"@, exclusive_object_types: Seq::<Seq<char>>::empty() }],
        description: "Parallel to a line: a line through the given point parallel to the given line"@,
        allowed_names: seq!["lineA"@, "lineB"@, "lineC"@, "lineD"@, "lineE"@, "lineF"@, "lineG"@, "lineH"@, "lineI"@, "lineJ"@, "lineK"@],
        group: "Lines"@,
    }
}

/// The action `Parameter`.
pub open spec fn parameter_entry() -> ActionV {
    ActionV {
        name: "Parameter"@,
        object_types: seq!["Parameter"@],
        arguments: Seq::<ArgumentV>::empty(),
        description: "Parameter: a free variable with 0 initial value, to use in an Invariant"@,
        allowed_names: seq!["t"@, "u"@, "v"@, "w"@],
        group: "Parameters"@,
    }
}

/// The action `DistanceInvariant`.
pub open spec fn distance_invariant_entry() -> ActionV {
    ActionV {
        name: "DistanceInvariant"@,
        object_types: seq!["TwoPointDistanceInvariant"@, "PointToLineDistanceInvariant"@],
        arguments: seq![ArgumentV { types: seq!["AnyDefinedOrGridPoint"@], hint: "Select an already defined point or a point on the grid (1 of 2)"@, exclusive_object_types: Seq::<Seq<char>>::empty() }, ArgumentV { types: seq!["AnyDefinedOrGridPoint"@, "Line"@], hint: "Select an already defined point or a point on the grid, or a line (2 of 2)"@, exclusive_object_types: Seq::<Seq<char>>::empty() }],
        description: "Distance Invariant: specifies that the distance from a point to another point or line is constant"@,
        allowed_names: seq!["invA"@, "invB"@, "invC"@, "invD"@, "invE"@, "invF"@, "invG"@, "invH"@, "invI"@, "invJ"@, "invK"@],
        group: "Constraints"@,
    }
}

/// The action `AngleInvariant`.
pub open spec fn angle_invariant_entry() -> ActionV {
    ActionV {
        name: "AngleInvariant"@,
        object_types: seq!["TwoLineAngleInvariant"@],
        arguments: seq![ArgumentV { types: seq!["Line"@], hint: "Select a line (1 of 2)"@, exclusive_object_types: Seq::<Seq<char>>::empty() }, ArgumentV { types: seq!["Line"@], hint: "Select a line (2 of 2)"@, exclusive_object_types: Seq::<Seq<char>>::empty() }],
        description: "Angle Invariant: specifies that the angle between two lines is constant"@,
        allowed_names: seq!["invA"@, "invB"@, "invC"@, "invD"@, "invE"@, "invF"@, "invG"@, "invH"@, "invI"@, "invJ"@, "invK"@],
        group: "Constraints"@,
    }
}

/// The action `Invariant`.
pub open spec fn invariant_entry() -> ActionV {
    ActionV {
        name: "Invariant"@,
        object_types: seq!["Invariant"@],
        arguments: seq![ArgumentV { types: Seq::<Seq<char>>::empty(), hint: "Enter the formula for the invariant, e.g., d(A, X)"@, exclusive_object_types: Seq::<Seq<char>>::empty() }],
        description: "Custom invariant: a relation of the form F(object1, object2,..) = C that constrains defined objects (free points, etc.). C is the initial value of the expression."@,
        allowed_names: seq!["invA"@, "invB"@, "invC"@, "invD"@, "invE"@, "invF"@, "invG"@, "invH"@, "invI"@, "invJ"@, "invK"@],
        group: "Constraints"@,
    }
}

/// The action `Locus`.
pub open spec fn locus_entry() -> ActionV {
    ActionV {
        name: "Locus"@,
        object_types: seq!["Locus"@],
        arguments: seq![ArgumentV { types: seq!["MobilePoint"@], hint: "Select an already defined mobile (i.e., not fixed) point"@, exclusive_object_types: seq!["Locus"@] }],
        description: "Locus: pick a point to display the curve (all positions of that point satisfying the constraints)"@,
        allowed_names: seq!["locusA"@, "locusB"@, "locusC"@, "locusD"@, "locusE"@, "locusF"@, "locusG"@, "locusH"@, "locusI"@, "locusJ"@, "locusK"@],
        group: "Locus"@,
    }
}

/// The catalogue of actions, in the order in which they are offered.
pub open spec fn catalogue() -> Seq<ActionV> {
    seq![fixed_point_entry(), free_point_entry(), midpoint_entry(), intersection_point_entry(), sliding_point_entry(), projection_entry(), reflection_entry(), scaled_vector_point_entry(), computed_point_entry(), line_a_b_entry(), pp_bisector_entry(), pp_to_line_entry(), pl_to_line_entry(), parameter_entry(), distance_invariant_entry(), angle_invariant_entry(), invariant_entry(), locus_entry()]
}

/// Builds the action `FixedPoint` (see `fixed_point_entry`).
fn fixed_point_action() -> (r: Action)
    ensures
        r@ == fixed_point_entry(),
{
    let object_types: Vec<String> = Vec::new();
    let object_types = push_text(object_types, "FixedPoint");
    assert(texts(object_types@) =~= seq!["FixedPoint"@]);
    let mut arguments: Vec<Argument> = Vec::new();
    let types0: Vec<String> = Vec::new();
    let types0 = push_text(types0, "GridPoint");
    assert(texts(types0@) =~= seq!["GridPoint"@]);
    let excl0: Vec<String> = Vec::new();
    let excl0 = push_text(excl0, "FixedPoint");
    let excl0 = push_text(excl0, "FreePoint");
    let excl0 = push_text(excl0, "Midpoint");
    let excl0 = push_text(excl0, "SlidingPoint");
    let excl0 = push_text(excl0, "IntersectionPoint");
    assert(texts(excl0@) =~= seq!["FixedPoint"@, "FreePoint"@, "Midpoint"@, "SlidingPoint"@, "IntersectionPoint"@]);
    arguments.push(make_argument(types0, "Select a point on the grid", excl0));
    assert(arguments_view(arguments@) =~= seq![ArgumentV { types: seq!["GridPoint"@], hint: "Select a point on the grid"@, exclusive_object_types: seq!["FixedPoint"@, "FreePoint"@, "Midpoint"@, "SlidingPoint"@, "IntersectionPoint"@] }]);
    let allowed: Vec<String> = Vec::new();
    let allowed = push_text(allowed, "A");
    let allowed = push_text(allowed, "B");
    let allowed = push_text(allowed, "C");
    let allowed = push_text(allowed, "D");
    let allowed = push_text(allowed, "E");
    let allowed = push_text(allowed, "F");
    let allowed = push_text(allowed, "G");
    let allowed = push_text(allowed, "H");
    let allowed = push_text(allowed, "I");
    let allowed = push_text(allowed, "J");
    let allowed = push_text(allowed, "K");
    assert(texts(allowed@) =~= seq!["A"@, "B"@, "C"@, "D"@, "E"@, "F"@, "G"@, "H"@, "I"@, "J"@, "K"@]);
    let r = make_action("FixedPoint", object_types, arguments, "Fixed point: a point with constant integer coordinates", allowed, "Points");
    assert(r@ =~= fixed_point_entry());
    r
}

/// Builds the action `FreePoint` (see `free_point_entry`).
fn free_point_action() -> (r: Action)
    ensures
        r@ == free_point_entry(),
{
    let object_types: Vec<String> = Vec::new();
    let object_types = push_text(object_types, "FreePoint");
    assert(texts(object_types@) =~= seq!["FreePoint"@]);
    let mut arguments: Vec<Argument> = Vec::new();
    let types0: Vec<String> = Vec::new();
    let types0 = push_text(types0, "GridPoint");
    assert(texts(types0@) =~= seq!["GridPoint"@]);
    let excl0: Vec<String> = Vec::new();
    let excl0 = push_text(excl0, "FixedPoint");
    let excl0 = push_text(excl0, "FreePoint");
    let excl0 = push_text(excl0, "Midpoint");
    let excl0 = push_text(excl0, "SlidingPoint");
    let excl0 = push_text(excl0, "IntersectionPoint");
    assert(texts(excl0@) =~= seq!["FixedPoint"@, "FreePoint"@, "Midpoint"@, "SlidingPoint"@, "IntersectionPoint"@]);
    arguments.push(make_argument(types0, "Select a point on the grid", excl0));
    assert(arguments_view(arguments@) =~= seq![ArgumentV { types: seq!["GridPoint"@], hint: "Select a point on the grid"@, exclusive_object_types: seq!["FixedPoint"@, "FreePoint"@, "Midpoint"@, "SlidingPoint"@, "IntersectionPoint"@] }]);
    let allowed: Vec<String> = Vec::new();
    let allowed = push_text(allowed, "X");
    let allowed = push_text(allowed, "Y");
    let allowed = push_text(allowed, "Z");
    let allowed = push_text(allowed, "T");
    let allowed = push_text(allowed, "U");
    let allowed = push_text(allowed, "V");
    let allowed = push_text(allowed, "W");
    assert(texts(allowed@) =~= seq!["X"@, "Y"@, "Z"@, "T"@, "U"@, "V"@, "W"@]);
    let r = make_action("FreePoint", object_types, arguments, "Free point: the initial position of a point subject to future constraints", allowed, "Points");
    assert(r@ =~= free_point_entry());
    r
}

/// Builds the action `Midpoint` (see `midpoint_entry`).
fn midpoint_action() -> (r: Action)
    ensures
        r@ == midpoint_entry(),
{
    let object_types: Vec<String> = Vec::new();
    let object_types = push_text(object_types, "Midpoint");
    assert(texts(object_types@) =~= seq!["Midpoint"@]);
    let mut arguments: Vec<Argument> = Vec::new();
    let types0: Vec<String> = Vec::new();
    let types0 = push_text(types0, "AnyDefinedOrGridPoint");
    assert(texts(types0@) =~= seq!["AnyDefinedOrGridPoint"@]);
    let excl0: Vec<String> = Vec::new();
    assert(texts(excl0@) =~= Seq::<Seq<char>>::empty());
    arguments.push(make_argument(types0, "Select an already defined point or a point on the grid (1 of 2)", excl0));
    let types1: Vec<String> = Vec::new();
    let types1 = push_text(types1, "AnyDefinedOrGridPoint");
    assert(texts(types1@) =~= seq!["AnyDefinedOrGridPoint"@]);
    let excl1: Vec<String> = Vec::new();
    assert(texts(excl1@) =~= Seq::<Seq<char>>::empty());
    arguments.push(make_argument(types1, "Select an already defined point or a point on the grid (2 of 2)", excl1));
    assert(arguments_view(arguments@) =~= seq![ArgumentV { types: seq!["AnyDefinedOrGridPoint"@], hint: "Select an already defined point or a point on the grid (1 of 2)"@, exclusive_object_types: Seq::<Seq<char>>::empty() }, ArgumentV { types: seq!["AnyDefinedOrGridPoint"@], hint: "Select an already defined point or a point on the grid (2 of 2)"@, exclusive_object_types: Seq::<Seq<char>>::empty() }]);
    let allowed: Vec<String> = Vec::new();
    let allowed = push_text(allowed, "X");
    let allowed = push_text(allowed, "Y");
    let allowed = push_text(allowed, "Z");
    let allowed = push_text(allowed, "T");
    let allowed = push_text(allowed, "U");
    let allowed = push_text(allowed, "V");
    let allowed = push_text(allowed, "W");
    assert(texts(allowed@) =~= seq!["X"@, "Y"@, "Z"@, "T"@, "U"@, "V"@, "W"@]);
    let r = make_action("Midpoint", object_types, arguments, "Midpoint: the point halfway between two given points", allowed, "Points");
    assert(r@ =~= midpoint_entry());
    r
}

/// Builds the action `IntersectionPoint` (see `intersection_point_entry`).
fn intersection_point_action() -> (r: Action)
    ensures
        r@ == intersection_point_entry(),
{
    let object_types: Vec<String> = Vec::new();
    let object_types = push_text(object_types, "IntersectionPoint");
    assert(texts(object_types@) =~= seq!["IntersectionPoint"@]);
    let mut arguments: Vec<Argument> = Vec::new();
    let types0: Vec<String> = Vec::new();
    let types0 = push_text(types0, "IntersectionPoint");
    assert(texts(types0@) =~= seq!["IntersectionPoint"@]);
    let excl0: Vec<String> = Vec::new();
    let excl0 = push_text(excl0, "IntersectionPoint");
    assert(texts(excl0@) =~= seq!["IntersectionPoint"@]);
    arguments.push(make_argument(types0, "Select a point common to two lines", excl0));
    assert(arguments_view(arguments@) =~= seq![ArgumentV { types: seq!["IntersectionPoint"@], hint: "Select a point common to two lines"@, exclusive_object_types: seq!["IntersectionPoint"@] }]);
    let allowed: Vec<String> = Vec::new();
    let allowed = push_text(allowed, "X");
    let allowed = push_text(allowed, "Y");
    let allowed = push_text(allowed, "Z");
    let allowed = push_text(allowed, "T");
    let allowed = push_text(allowed, "U");
    let allowed = push_text(allowed, "V");
    let allowed = push_text(allowed, "W");
    assert(texts(allowed@) =~= seq!["X"@, "Y"@, "Z"@, "T"@, "U"@, "V"@, "W"@]);
    let r = make_action("IntersectionPoint", object_types, arguments, "Intersection point: the point where two lines meet", allowed, "Points");
    assert(r@ =~= intersection_point_entry());
    r
}

/// Builds the action `SlidingPoint` (see `sliding_point_entry`).
fn sliding_point_action() -> (r: Action)
    ensures
        r@ == sliding_point_entry(),
{
    let object_types: Vec<String> = Vec::new();
    let object_types = push_text(object_types, "SlidingPoint");
    assert(texts(object_types@) =~= seq!["SlidingPoint"@]);
    let mut arguments: Vec<Argument> = Vec::new();
    let types0: Vec<String> = Vec::new();
    let types0 = push_text(types0, "SlidingPoint");
    assert(texts(types0@) =~= seq!["SlidingPoint"@]);
    let excl0: Vec<String> = Vec::new();
    let excl0 = push_text(excl0, "SlidingPoint");
    let excl0 = push_text(excl0, "FreePoint");
    let excl0 = push_text(excl0, "FixedPoint");
    let excl0 = push_text(excl0, "IntersectionPoint");
    assert(texts(excl0@) =~= seq!["SlidingPoint"@, "FreePoint"@, "FixedPoint"@, "IntersectionPoint"@]);
    arguments.push(make_argument(types0, "Select a point on a line", excl0));
    assert(arguments_view(arguments@) =~= seq![ArgumentV { types: seq!["SlidingPoint"@], hint: "Select a point on a line"@, exclusive_object_types: seq!["SlidingPoint"@, "FreePoint"@, "FixedPoint"@, "IntersectionPoint"@] }]);
    let allowed: Vec<String> = Vec::new();
    let allowed = push_text(allowed, "X");
    let allowed = push_text(allowed, "Y");
    let allowed = push_text(allowed, "Z");
    let allowed = push_text(allowed, "T");
    let allowed = push_text(allowed, "U");
    let allowed = push_text(allowed, "V");
    let allowed = push_text(allowed, "W");
    assert(texts(allowed@) =~= seq!["X"@, "Y"@, "Z"@, "T"@, "U"@, "V"@, "W"@]);
    let r = make_action("SlidingPoint", object_types, arguments, "Sliding point: the initial position of a point constrained to a line", allowed, "Points");
    assert(r@ =~= sliding_point_entry());
    r
}

/// Builds the action `Projection` (see `projection_entry`).
fn projection_action() -> (r: Action)
    ensures
        r@ == projection_entry(),
{
    let object_types: Vec<String> = Vec::new();
    let object_types = push_text(object_types, "Projection");
    assert(texts(object_types@) =~= seq!["Projection"@]);
    let mut arguments: Vec<Argument> = Vec::new();
    let types0: Vec<String> = Vec::new();
    let types0 = push_text(types0, "AnyDefinedOrGridPoint");
    assert(texts(types0@) =~= seq!["AnyDefinedOrGridPoint"@]);
    let excl0: Vec<String> = Vec::new();
    assert(texts(excl0@) =~= Seq::<Seq<char>>::empty());
    arguments.push(make_argument(types0, "Select the point to be projected (an already defined point or a point on the grid) (1 of 2)", excl0));
    let types1: Vec<String> = Vec::new();
    let types1 = push_text(types1, "Line");
    assert(texts(types1@) =~= seq!["Line"@]);
    let excl1: Vec<String> = Vec::new();
    assert(texts(excl1@) =~= Seq::<Seq<char>>::empty());
    arguments.push(make_argument(types1, "Select the line to be projected onto (2 of 2)", excl1));
    assert(arguments_view(arguments@) =~= seq![ArgumentV { types: seq!["AnyDefinedOrGridPoint"@], hint: "Select the point to be projected (an already defined point or a point on the grid) (1 of 2)"@, exclusive_object_types: Seq::<Seq<char>>::empty() }, ArgumentV { types: seq!["Line"@], hint: "Select the line to be projected onto (2 of 2)"@, exclusive_object_types: Seq::<Seq<char>>::empty() }]);
    let allowed: Vec<String> = Vec::new();
    let allowed = push_text(allowed, "X");
    let allowed = push_text(allowed, "Y");
    let allowed = push_text(allowed, "Z");
    let allowed = push_text(allowed, "T");
    let allowed = push_text(allowed, "U");
    let allowed = push_text(allowed, "V");
    let allowed = push_text(allowed, "W");
    assert(texts(allowed@) =~= seq!["X"@, "Y"@, "Z"@, "T"@, "U"@, "V"@, "W"@]);
    let r = make_action("Projection", object_types, arguments, "Projection: the point on a line that is the perpendicular projection of a given point onto the line", allowed, "Points");
    assert(r@ =~= projection_entry());
    r
}

/// Builds the action `Reflection` (see `reflection_entry`).
fn reflection_action() -> (r: Action)
    ensures
        r@ == reflection_entry(),
{
    let object_types: Vec<String> = Vec::new();
    let object_types = push_text(object_types, "Reflection");
    assert(texts(object_types@) =~= seq!["Reflection"@]);
    let mut arguments: Vec<Argument> = Vec::new();
    let types0: Vec<String> = Vec::new();
    let types0 = push_text(types0, "AnyDefinedOrGridPoint");
    assert(texts(types0@) =~= seq!["AnyDefinedOrGridPoint"@]);
    let excl0: Vec<String> = Vec::new();
    assert(texts(excl0@) =~= Seq::<Seq<char>>::empty());
    arguments.push(make_argument(types0, "Select the point to be reflected (an already defined point or a point on the grid) (1 of 2)", excl0));
    let types1: Vec<String> = Vec::new();
    let types1 = push_text(types1, "Line");
    assert(texts(types1@) =~= seq!["Line"@]);
    let excl1: Vec<String> = Vec::new();
    assert(texts(excl1@) =~= Seq::<Seq<char>>::empty());
    arguments.push(make_argument(types1, "Select the line to be reflected across (2 of 2)", excl1));
    assert(arguments_view(arguments@) =~= seq![ArgumentV { types: seq!["AnyDefinedOrGridPoint"@], hint: "Select the point to be reflected (an already defined point or a point on the grid) (1 of 2)"@, exclusive_object_types: Seq::<Seq<char>>::empty() }, ArgumentV { types: seq!["Line"@], hint: "Select the line to be reflected across (2 of 2)"@, exclusive_object_types: Seq::<Seq<char>>::empty() }]);
    let allowed: Vec<String> = Vec::new();
    let allowed = push_text(allowed, "X");
    let allowed = push_text(allowed, "Y");
    let allowed = push_text(allowed, "Z");
    let allowed = push_text(allowed, "T");
    let allowed = push_text(allowed, "U");
    let allowed = push_text(allowed, "V");
    let allowed = push_text(allowed, "W");
    assert(texts(allowed@) =~= seq!["X"@, "Y"@, "Z"@, "T"@, "U"@, "V"@, "W"@]);
    let r = make_action("Reflection", object_types, arguments, "Reflection: the point on the other side of a line that is the reflection of a given point across the line", allowed, "Points");
    assert(r@ =~= reflection_entry());
    r
}

/// Builds the action `ScaledVectorPoint` (see `scaled_vector_point_entry`).
fn scaled_vector_point_action() -> (r: Action)
    ensures
        r@ == scaled_vector_point_entry(),
{
    let object_types: Vec<String> = Vec::new();
    let object_types = push_text(object_types, "ScaledVectorPoint");
    assert(texts(object_types@) =~= seq!["ScaledVectorPoint"@]);
    let mut arguments: Vec<Argument> = Vec::new();
    let types0: Vec<String> = Vec::new();
    assert(texts(types0@) =~= Seq::<Seq<char>>::empty());
    let excl0: Vec<String> = Vec::new();
    assert(texts(excl0@) =~= Seq::<Seq<char>>::empty());
    arguments.push(make_argument(types0, "Enter the expression for the scaling coefficient k (1 of 3)", excl0));
    let types1: Vec<String> = Vec::new();
    let types1 = push_text(types1, "AnyDefinedOrGridPoint");
    assert(texts(types1@) =~= seq!["AnyDefinedOrGridPoint"@]);
    let excl1: Vec<String> = Vec::new();
    assert(texts(excl1@) =~= Seq::<Seq<char>>::empty());
    arguments.push(make_argument(types1, "Choose the start point (A) of the reference vector (2 of 3)", excl1));
    let types2: Vec<String> = Vec::new();
    let types2 = push_text(types2, "AnyDefinedOrGridPoint");
    assert(texts(types2@) =~= seq!["AnyDefinedOrGridPoint"@]);
    let excl2: Vec<String> = Vec::new();
    assert(texts(excl2@) =~= Seq::<Seq<char>>::empty());
    arguments.push(make_argument(types2, "Choose the end point (B) of the reference vector (3 of 3)", excl2));
    assert(arguments_view(arguments@) =~= seq![ArgumentV { types: Seq::<Seq<char>>::empty(), hint: "Enter the expression for the scaling coefficient k (1 of 3)"@, exclusive_object_types: Seq::<Seq<char>>::empty() }, ArgumentV { types: seq!["AnyDefinedOrGridPoint"@], hint: "Choose the start point (A) of the reference vector (2 of 3)"@, exclusive_object_types: Seq::<Seq<char>>::empty() }, ArgumentV { types: seq!["AnyDefinedOrGridPoint"@], hint: "Choose the end point (B) of the reference vector (3 of 3)"@, exclusive_object_types: Seq::<Seq<char>>::empty() }]);
    let allowed: Vec<String> = Vec::new();
    let allowed = push_text(allowed, "X");
    let allowed = push_text(allowed, "Y");
    let allowed = push_text(allowed, "Z");
    let allowed = push_text(allowed, "T");
    let allowed = push_text(allowed, "U");
    let allowed = push_text(allowed, "V");
    let allowed = push_text(allowed, "W");
    assert(texts(allowed@) =~= seq!["X"@, "Y"@, "Z"@, "T"@, "U"@, "V"@, "W"@]);
    let r = make_action("ScaledVectorPoint", object_types, arguments, "Scaled vector point: a point X defined by the vector relation AX = k AB for chosen A and B", allowed, "Points");
    assert(r@ =~= scaled_vector_point_entry());
    r
}

/// Builds the action `ComputedPoint` (see `computed_point_entry`).
fn computed_point_action() -> (r: Action)
    ensures
        r@ == computed_point_entry(),
{
    let object_types: Vec<String> = Vec::new();
    let object_types = push_text(object_types, "ComputedPoint");
    assert(texts(object_types@) =~= seq!["ComputedPoint"@]);
    let mut arguments: Vec<Argument> = Vec::new();
    let types0: Vec<String> = Vec::new();
    assert(texts(types0@) =~= Seq::<Seq<char>>::empty());
    let excl0: Vec<String> = Vec::new();
    assert(texts(excl0@) =~= Seq::<Seq<char>>::empty());
    arguments.push(make_argument(types0, "Enter the expression for the X coordinate of the point (may include parameters and reference objects) (1 of 2)", excl0));
    let types1: Vec<String> = Vec::new();
    assert(texts(types1@) =~= Seq::<Seq<char>>::empty());
    let excl1: Vec<String> = Vec::new();
    assert(texts(excl1@) =~= Seq::<Seq<char>>::empty());
    arguments.push(make_argument(types1, "Enter the expression for the Y coordinate of the point (may include parameters and reference objects) (2 of 2)", excl1));
    assert(arguments_view(arguments@) =~= seq![ArgumentV { types: Seq::<Seq<char>>::empty(), hint: "Enter the expression for the X coordinate of the point (may include parameters and reference objects) (1 of 2)"@, exclusive_object_types: Seq::<Seq<char>>::empty() }, ArgumentV { types: Seq::<Seq<char>>::empty(), hint: "Enter the expression for the Y coordinate of the point (may include parameters and reference objects) (2 of 2)"@, exclusive_object_types: Seq::<Seq<char>>::empty() }]);
    let allowed: Vec<String> = Vec::new();
    let allowed = push_text(allowed, "X");
    let allowed = push_text(allowed, "Y");
    let allowed = push_text(allowed, "Z");
    let allowed = push_text(allowed, "T");
    let allowed = push_text(allowed, "U");
    let allowed = push_text(allowed, "V");
    let allowed = push_text(allowed, "W");
    assert(texts(allowed@) =~= seq!["X"@, "Y"@, "Z"@, "T"@, "U"@, "V"@, "W"@]);
    let r = make_action("ComputedPoint", object_types, arguments, "Computed point: a point defined by custom X and Y expressions", allowed, "Points");
    assert(r@ =~= computed_point_entry());
    r
}

/// Builds the action `LineAB` (see `line_a_b_entry`).
fn line_a_b_action() -> (r: Action)
    ensures
        r@ == line_a_b_entry(),
{
    let object_types: Vec<String> = Vec::new();
    let object_types = push_text(object_types, "LineAB");
    assert(texts(object_types@) =~= seq!["LineAB"@]);
    let mut arguments: Vec<Argument> = Vec::new();
    let types0: Vec<String> = Vec::new();
    let types0 = push_text(types0, "AnyDefinedOrGridPoint");
    assert(texts(types0@) =~= seq!["AnyDefinedOrGridPoint"@]);
    let excl0: Vec<String> = Vec::new();
    assert(texts(excl0@) =~= Seq::<Seq<char>>::empty());
    arguments.push(make_argument(types0, "Select an already defined point or a point on the grid (1 of 2)", excl0));
    let types1: Vec<String> = Vec::new();
    let types1 = push_text(types1, "AnyDefinedOrGridPoint");
    assert(texts(types1@) =~= seq!["AnyDefinedOrGridPoint"@]);
    let excl1: Vec<String> = Vec::new();
    assert(texts(excl1@) =~= Seq::<Seq<char>>::empty());
    arguments.push(make_argument(types1, "Select an already defined point or a point on the grid (2 of 2)", excl1));
    assert(arguments_view(arguments@) =~= seq![ArgumentV { types: seq!["AnyDefinedOrGridPoint"@], hint: "Select an already defined point or a point on the grid (1 of 2)"@, exclusive_object_types: Seq::<Seq<char>>::empty() }, ArgumentV { types: seq!["AnyDefinedOrGridPoint"@], hint: "Select an already defined point or a point on the grid (2 of 2)"@, exclusive_object_types: Seq::<Seq<char>>::empty() }]);
    let allowed: Vec<String> = Vec::new();
    let allowed = push_text(allowed, "lineA");
    let allowed = push_text(allowed, "lineB");
    let allowed = push_text(allowed, "lineC");
    let allowed = push_text(allowed, "lineD");
    let allowed = push_text(allowed, "lineE");
    let allowed = push_text(allowed, "lineF");
    let allowed = push_text(allowed, "lineG");
    let allowed = push_text(allowed, "lineH");
    let allowed = push_text(allowed, "lineI");
    let allowed = push_text(allowed, "lineJ");
    let allowed = push_text(allowed, "lineK");
    assert(texts(allowed@) =~= seq!["lineA"@, "lineB"@, "lineC"@, "lineD"@, "lineE"@, "lineF"@, "lineG"@, "lineH"@, "lineI"@, "lineJ"@, "lineK"@]);
    let r = make_action("LineAB", object_types, arguments, "Line: a line passing through two given points", allowed, "Lines");
    assert(r@ =~= line_a_b_entry());
    r
}

/// Builds the action `PpBisector` (see `pp_bisector_entry`).
fn pp_bisector_action() -> (r: Action)
    ensures
        r@ == pp_bisector_entry(),
{
    let object_types: Vec<String> = Vec::new();
    let object_types = push_text(object_types, "PpBisector");
    assert(texts(object_types@) =~= seq!["PpBisector"@]);
    let mut arguments: Vec<Argument> = Vec::new();
    let types0: Vec<String> = Vec::new();
    let types0 = push_text(types0, "AnyDefinedOrGridPoint");
    assert(texts(types0@) =~= seq!["AnyDefinedOrGridPoint"@]);
    let excl0: Vec<String> = Vec::new();
    assert(texts(excl0@) =~= Seq::<Seq<char>>::empty());
    arguments.push(make_argument(types0, "Select an already defined point or a point on the grid (1 of 2)", excl0));
    let types1: Vec<String> = Vec::new();
    let types1 = push_text(types1, "AnyDefinedOrGridPoint");
    assert(texts(types1@) =~= seq!["AnyDefinedOrGridPoint"@]);
    let excl1: Vec<String> = Vec::new();
    assert(texts(excl1@) =~= Seq::<Seq<char>>::empty());
    arguments.push(make_argument(types1, "Select an already defined point or a point on the grid (2 of 2)", excl1));
    assert(arguments_view(arguments@) =~= seq![ArgumentV { types: seq!["AnyDefinedOrGridPoint"@], hint: "Select an already defined point or a point on the grid (1 of 2)"@, exclusive_object_types: Seq::<Seq<char>>::empty() }, ArgumentV { types: seq!["AnyDefinedOrGridPoint"@], hint: "Select an already defined point or a point on the grid (2 of 2)"@, exclusive_object_types: Seq::<Seq<char>>::empty() }]);
    let allowed: Vec<String> = Vec::new();
    let allowed = push_text(allowed, "lineA");
    let allowed = push_text(allowed, "lineB");
    let allowed = push_text(allowed, "lineC");
    let allowed = push_text(allowed, "lineD");
    let allowed = push_text(allowed, "lineE");
    let allowed = push_text(allowed, "lineF");
    let allowed = push_text(allowed, "lineG");
    let allowed = push_text(allowed, "lineH");
    let allowed = push_text(allowed, "lineI");
    let allowed = push_text(allowed, "lineJ");
    let allowed = push_text(allowed, "lineK");
    assert(texts(allowed@) =~= seq!["lineA"@, "lineB"@, "lineC"@, "lineD"@, "lineE"@, "lineF"@, "lineG"@, "lineH"@, "lineI"@, "lineJ"@, "lineK"@]);
    let r = make_action("PpBisector", object_types, arguments, "Perpendicular bisector: the line consisting of points equidistant to two given points", allowed, "Lines");
    assert(r@ =~= pp_bisector_entry());
    r
}

/// Builds the action `PpToLine` (see `pp_to_line_entry`).
fn pp_to_line_action() -> (r: Action)
    ensures
        r@ == pp_to_line_entry(),
{
    let object_types: Vec<String> = Vec::new();
    let object_types = push_text(object_types, "PpToLine");
    assert(texts(object_types@) =~= seq!["PpToLine"@]);
    let mut arguments: Vec<Argument> = Vec::new();
    let types0: Vec<String> = Vec::new();
    let types0 = push_text(types0, "AnyDefinedOrGridPoint");
    assert(texts(types0@) =~= seq!["AnyDefinedOrGridPoint"@]);
    let excl0: Vec<String> = Vec::new();
    assert(texts(excl0@) =~= Seq::<Seq<char>>::empty());
    arguments.push(make_argument(types0, "Select an already defined point or a point on the grid (1 of 2)", excl0));
    let types1: Vec<String> = Vec::new();
    let types1 = push_text(types1, "Line");
    assert(texts(types1@) =~= seq!["Line"@]);
    let excl1: Vec<String> = Vec::new();
    assert(texts(excl1@) =~= Seq::<Seq<char>>::empty());
    arguments.push(make_argument(types1, "Select a line (2 of 2)", excl1));
    assert(arguments_view(arguments@) =~= seq![ArgumentV { types: seq!["AnyDefinedOrGridPoint"@], hint: "Select an already defined point or a point on the grid (1 of 2)"@, exclusive_object_types: Seq::<Seq<char>>::empty() }, ArgumentV { types: seq!["Line"@], hint: "Select a line (2 of 2)"@, exclusive_object_types: Seq::<Seq<char>>::empty() }]);
    let allowed: Vec<String> = Vec::new();
    let allowed = push_text(allowed, "lineA");
    let allowed = push_text(allowed, "lineB");
    let allowed = push_text(allowed, "lineC");
    let allowed = push_text(allowed, "lineD");
    let allowed = push_text(allowed, "lineE");
    let allowed = push_text(allowed, "lineF");
    let allowed = push_text(allowed, "lineG");
    let allowed = push_text(allowed, "lineH");
    let allowed = push_text(allowed, "lineI");
    let allowed = push_text(allowed, "lineJ");
    let allowed = push_text(allowed, "lineK");
    assert(texts(allowed@) =~= seq!["lineA"@, "lineB"@, "lineC"@, "lineD"@, "lineE"@, "lineF"@, "lineG"@, "lineH"@, "lineI"@, "lineJ"@, "lineK"@]);
    let r = make_action("PpToLine", object_types, arguments, "Perpendicular to a line: a line through the given point perpendicular to the given line", allowed, "Lines");
    assert(r@ =~= pp_to_line_entry());
    r
}

/// Builds the action `PlToLine` (see `pl_to_line_entry`).
fn pl_to_line_action() -> (r: Action)
    ensures
        r@ == pl_to_line_entry(),
{
    let object_types: Vec<String> = Vec::new();
    let object_types = push_text(object_types, "PlToLine");
    assert(texts(object_types@) =~= seq!["PlToLine"@]);
    let mut arguments: Vec<Argument> = Vec::new();
    let types0: Vec<String> = Vec::new();
    let types0 = push_text(types0, "AnyDefinedOrGridPoint");
    assert(texts(types0@) =~= seq!["AnyDefinedOrGridPoint"@]);
    let excl0: Vec<String> = Vec::new();
    assert(texts(excl0@) =~= Seq::<Seq<char>>::empty());
    arguments.push(make_argument(types0, "Select an already defined point or a point on the grid (1 of 2)", excl0));
    let types1: Vec<String> = Vec::new();
    let types1 = push_text(types1, "Line");
    assert(texts(types1@) =~= seq!["Line"@]);
    let excl1: Vec<String> = Vec::new();
    assert(texts(excl1@) =~= Seq::<Seq<char>>::empty());
    arguments.push(make_argument(types1, "Select a line (2 of 2)", excl1));
    assert(arguments_view(arguments@) =~= seq![ArgumentV { types: seq!["AnyDefinedOrGridPoint"@], hint: "Select an already defined point or a point on the grid (1 of 2)"@, exclusive_object_types: Seq::<Seq<char>>::empty() }, ArgumentV { types: seq!["Line"@], hint: "Select a line (2 of 2)"@, exclusive_object_types: Seq::<Seq<char>>::empty() }]);
    let allowed: Vec<String> = Vec::new();
    let allowed = push_text(allowed, "lineA");
    let allowed = push_text(allowed, "lineB");
    let allowed = push_text(allowed, "lineC");
    let allowed = push_text(allowed, "lineD");
    let allowed = push_text(allowed, "lineE");
    let allowed = push_text(allowed, "lineF");
    let allowed = push_text(allowed, "lineG");
    let allowed = push_text(allowed, "lineH");
    let allowed = push_text(allowed, "lineI");
    let allowed = push_text(allowed, "lineJ");
    let allowed = push_text(allowed, "lineK");
    assert(texts(allowed@) =~= seq!["lineA"@, "lineB"@, "lineC"@, "lineD"@, "lineE"@, "lineF"@, "lineG"@, "lineH"@, "lineI"@, "lineJ"@, "lineK"@]);
    let r = make_action("PlToLine", object_types, arguments, "Parallel to a line: a line through the given point parallel to the given line", allowed, "Lines");
    assert(r@ =~= pl_to_line_entry());
    r
}

/// Builds the action `Parameter` (see `parameter_entry`).
fn parameter_action() -> (r: Action)
    ensures
        r@ == parameter_entry(),
{
    let object_types: Vec<String> = Vec::new();
    let object_types = push_text(object_types, "Parameter");
    assert(texts(object_types@) =~= seq!["Parameter"@]);
    let mut arguments: Vec<Argument> = Vec::new();
    assert(arguments_view(arguments@) =~= Seq::<ArgumentV>::empty());
    let allowed: Vec<String> = Vec::new();
    let allowed = push_text(allowed, "t");
    let allowed = push_text(allowed, "u");
    let allowed = push_text(allowed, "v");
    let allowed = push_text(allowed, "w");
    assert(texts(allowed@) =~= seq!["t"@, "u"@, "v"@, "w"@]);
    let r = make_action("Parameter", object_types, arguments, "Parameter: a free variable with 0 initial value, to use in an Invariant", allowed, "Parameters");
    assert(r@ =~= parameter_entry());
    r
}

/// Builds the action `DistanceInvariant` (see `distance_invariant_entry`).
fn distance_invariant_action() -> (r: Action)
    ensures
        r@ == distance_invariant_entry(),
{
    let object_types: Vec<String> = Vec::new();
    let object_types = push_text(object_types, "TwoPointDistanceInvariant");
    let object_types = push_text(object_types, "PointToLineDistanceInvariant");
    assert(texts(object_types@) =~= seq!["TwoPointDistanceInvariant"@, "PointToLineDistanceInvariant"@]);
    let mut arguments: Vec<Argument> = Vec::new();
    let types0: Vec<String> = Vec::new();
    let types0 = push_text(types0, "AnyDefinedOrGridPoint");
    assert(texts(types0@) =~= seq!["AnyDefinedOrGridPoint"@]);
    let excl0: Vec<String> = Vec::new();
    assert(texts(excl0@) =~= Seq::<Seq<char>>::empty());
    arguments.push(make_argument(types0, "Select an already defined point or a point on the grid (1 of 2)", excl0));
    let types1: Vec<String> = Vec::new();
    let types1 = push_text(types1, "AnyDefinedOrGridPoint");
    let types1 = push_text(types1, "Line");
    assert(texts(types1@) =~= seq!["AnyDefinedOrGridPoint"@, "Line"@]);
    let excl1: Vec<String> = Vec::new();
    assert(texts(excl1@) =~= Seq::<Seq<char>>::empty());
    arguments.push(make_argument(types1, "Select an already defined point or a point on the grid, or a line (2 of 2)", excl1));
    assert(arguments_view(arguments@) =~= seq![ArgumentV { types: seq!["AnyDefinedOrGridPoint"@], hint: "Select an already defined point or a point on the grid (1 of 2)"@, exclusive_object_types: Seq::<Seq<char>>::empty() }, ArgumentV { types: seq!["AnyDefinedOrGridPoint"@, "Line"@], hint: "Select an already defined point or a point on the grid, or a line (2 of 2)"@, exclusive_object_types: Seq::<Seq<char>>::empty() }]);
    let allowed: Vec<String> = Vec::new();
    let allowed = push_text(allowed, "invA");
    let allowed = push_text(allowed, "invB");
    let allowed = push_text(allowed, "invC");
    let allowed = push_text(allowed, "invD");
    let allowed = push_text(allowed, "invE");
    let allowed = push_text(allowed, "invF");
    let allowed = push_text(allowed, "invG");
    let allowed = push_text(allowed, "invH");
    let allowed = push_text(allowed, "invI");
    let allowed = push_text(allowed, "invJ");
    let allowed = push_text(allowed, "invK");
    assert(texts(allowed@) =~= seq!["invA"@, "invB"@, "invC"@, "invD"@, "invE"@, "invF"@, "invG"@, "invH"@, "invI"@, "invJ"@, "invK"@]);
    let r = make_action("DistanceInvariant", object_types, arguments, "Distance Invariant: specifies that the distance from a point to another point or line is constant", allowed, "Constraints");
    assert(r@ =~= distance_invariant_entry());
    r
}

/// Builds the action `AngleInvariant` (see `angle_invariant_entry`).
fn angle_invariant_action() -> (r: Action)
    ensures
        r@ == angle_invariant_entry(),
{
    let object_types: Vec<String> = Vec::new();
    let object_types = push_text(object_types, "TwoLineAngleInvariant");
    assert(texts(object_types@) =~= seq!["TwoLineAngleInvariant"@]);
    let mut arguments: Vec<Argument> = Vec::new();
    let types0: Vec<String> = Vec::new();
    let types0 = push_text(types0, "Line");
    assert(texts(types0@) =~= seq!["Line"@]);
    let excl0: Vec<String> = Vec::new();
    assert(texts(excl0@) =~= Seq::<Seq<char>>::empty());
    arguments.push(make_argument(types0, "Select a line (1 of 2)", excl0));
    let types1: Vec<String> = Vec::new();
    let types1 = push_text(types1, "Line");
    assert(texts(types1@) =~= seq!["Line"@]);
    let excl1: Vec<String> = Vec::new();
    assert(texts(excl1@) =~= Seq::<Seq<char>>::empty());
    arguments.push(make_argument(types1, "Select a line (2 of 2)", excl1));
    assert(arguments_view(arguments@) =~= seq![ArgumentV { types: seq!["Line"@], hint: "Select a line (1 of 2)"@, exclusive_object_types: Seq::<Seq<char>>::empty() }, ArgumentV { types: seq!["Line"@], hint: "Select a line (2 of 2)"@, exclusive_object_types: Seq::<Seq<char>>::empty() }]);
    let allowed: Vec<String> = Vec::new();
    let allowed = push_text(allowed, "invA");
    let allowed = push_text(allowed, "invB");
    let allowed = push_text(allowed, "invC");
    let allowed = push_text(allowed, "invD");
    let allowed = push_text(allowed, "invE");
    let allowed = push_text(allowed, "invF");
    let allowed = push_text(allowed, "invG");
    let allowed = push_text(allowed, "invH");
    let allowed = push_text(allowed, "invI");
    let allowed = push_text(allowed, "invJ");
    let allowed = push_text(allowed, "invK");
    assert(texts(allowed@) =~= seq!["invA"@, "invB"@, "invC"@, "invD"@, "invE"@, "invF"@, "invG"@, "invH"@, "invI"@, "invJ"@, "invK"@]);
    let r = make_action("AngleInvariant", object_types, arguments, "Angle Invariant: specifies that the angle between two lines is constant", allowed, "Constraints");
    assert(r@ =~= angle_invariant_entry());
    r
}

/// Builds the action `Invariant` (see `invariant_entry`).
fn invariant_action() -> (r: Action)
    ensures
        r@ == invariant_entry(),
{
    let object_types: Vec<String> = Vec::new();
    let object_types = push_text(object_types, "Invariant");
    assert(texts(object_types@) =~= seq!["Invariant"@]);
    let mut arguments: Vec<Argument> = Vec::new();
    let types0: Vec<String> = Vec::new();
    assert(texts(types0@) =~= Seq::<Seq<char>>::empty());
    let excl0: Vec<String> = Vec::new();
    assert(texts(excl0@) =~= Seq::<Seq<char>>::empty());
    arguments.push(make_argument(types0, "Enter the formula for the invariant, e.g., d(A, X)", excl0));
    assert(arguments_view(arguments@) =~= seq![ArgumentV { types: Seq::<Seq<char>>::empty(), hint: "Enter the formula for the invariant, e.g., d(A, X)"@, exclusive_object_types: Seq::<Seq<char>>::empty() }]);
    let allowed: Vec<String> = Vec::new();
    let allowed = push_text(allowed, "invA");
    let allowed = push_text(allowed, "invB");
    let allowed = push_text(allowed, "invC");
    let allowed = push_text(allowed, "invD");
    let allowed = push_text(allowed, "invE");
    let allowed = push_text(allowed, "invF");
    let allowed = push_text(allowed, "invG");
    let allowed = push_text(allowed, "invH");
    let allowed = push_text(allowed, "invI");
    let allowed = push_text(allowed, "invJ");
    let allowed = push_text(allowed, "invK");
    assert(texts(allowed@) =~= seq!["invA"@, "invB"@, "invC"@, "invD"@, "invE"@, "invF"@, "invG"@, "invH"@, "invI"@, "invJ"@, "invK"@]);
    let r = make_action("Invariant", object_types, arguments, "Custom invariant: a relation of the form F(object1, object2,..) = C that constrains defined objects (free points, etc.). C is the initial value of the expression.", allowed, "Constraints");
    assert(r@ =~= invariant_entry());
    r
}

/// Builds the action `Locus` (see `locus_entry`).
fn locus_action() -> (r: Action)
    ensures
        r@ == locus_entry(),
{
    let object_types: Vec<String> = Vec::new();
    let object_types = push_text(object_types, "Locus");
    assert(texts(object_types@) =~= seq!["Locus"@]);
    let mut arguments: Vec<Argument> = Vec::new();
    let types0: Vec<String> = Vec::new();
    let types0 = push_text(types0, "MobilePoint");
    assert(texts(types0@) =~= seq!["MobilePoint"@]);
    let excl0: Vec<String> = Vec::new();
    let excl0 = push_text(excl0, "Locus");
    assert(texts(excl0@) =~= seq!["Locus"@]);
    arguments.push(make_argument(types0, "Select an already defined mobile (i.e., not fixed) point", excl0));
    assert(arguments_view(arguments@) =~= seq![ArgumentV { types: seq!["MobilePoint"@], hint: "Select an already defined mobile (i.e., not fixed) point"@, exclusive_object_types: seq!["Locus"@] }]);
    let allowed: Vec<String> = Vec::new();
    let allowed = push_text(allowed, "locusA");
    let allowed = push_text(allowed, "locusB");
    let allowed = push_text(allowed, "locusC");
    let allowed = push_text(allowed, "locusD");
    let allowed = push_text(allowed, "locusE");
    let allowed = push_text(allowed, "locusF");
    let allowed = push_text(allowed, "locusG");
    let allowed = push_text(allowed, "locusH");
    let allowed = push_text(allowed, "locusI");
    let allowed = push_text(allowed, "locusJ");
    let allowed = push_text(allowed, "locusK");
    assert(texts(allowed@) =~= seq!["locusA"@, "locusB"@, "locusC"@, "locusD"@, "locusE"@, "locusF"@, "locusG"@, "locusH"@, "locusI"@, "locusJ"@, "locusK"@]);
    let r = make_action("Locus", object_types, arguments, "Locus: pick a point to display the curve (all positions of that point satisfying the constraints)", allowed, "Locus");
    assert(r@ =~= locus_entry());
    r
}

/// The actions of the drawing service, in the order in which they are
/// offered (see `catalogue`).
pub fn actions() -> (r: Vec<Action>)
    ensures
        actions_view(r@) == catalogue(),
        r@.len() == 18,
{
    let mut r: Vec<Action> = Vec::new();
    r.push(fixed_point_action());
    r.push(free_point_action());
    r.push(midpoint_action());
    r.push(intersection_point_action());
    r.push(sliding_point_action());
    r.push(projection_action());
    r.push(reflection_action());
    r.push(scaled_vector_point_action());
    r.push(computed_point_action());
    r.push(line_a_b_action());
    r.push(pp_bisector_action());
    r.push(pp_to_line_action());
    r.push(pl_to_line_action());
    r.push(parameter_action());
    r.push(distance_invariant_action());
    r.push(angle_invariant_action());
    r.push(invariant_action());
    r.push(locus_action());
    assert(actions_view(r@) =~= catalogue());
    r
}

} // verus!
