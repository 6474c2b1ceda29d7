//! The kinds of objects in a scene, the objects themselves, and the errors
//! that handling them gives.

use vstd::prelude::*;
use crate::text::push_str;
use crate::scene_object::strings_view;

use crate::scene_object::fixed_point::FixedPoint;
use crate::scene_object::free_point::FreePoint;
use crate::scene_object::midpoint::Midpoint;
use crate::scene_object::intersection_point::IntersectionPoint;
use crate::scene_object::sliding_point::SlidingPoint;
use crate::scene_object::projection::Projection;
use crate::scene_object::pl_to_line::PlToLine;
use crate::scene_object::point_to_line_distance_invariant::PointToLineDistanceInvariant;
use crate::scene_object::two_line_angle_invariant::TwoLineAngleInvariant;
use crate::scene_object::formula_invariant::Invariant;
use crate::scene_object::locus::Locus;

verus! {

/// What went wrong with a scene.
#[derive(Debug, Clone, PartialEq)]
pub enum SceneError {
    InvalidObjectType(String),
    InvalidProperties(String),
    InvalidPointFormat(String),
    ObjectNotFound(String),
    DependencyNotFound(String),
    DatabaseError(String),
    InvalidEquation(String),
}

/// The message of an error: its kind, a colon and its text.
pub open spec fn error_message(e: SceneError) -> Seq<char> {
    match e {
        SceneError::InvalidObjectType(s) => "Invalid object type: "@ + s@,
        SceneError::InvalidProperties(s) => "Invalid properties: "@ + s@,
        SceneError::InvalidPointFormat(s) => "Invalid point format: "@ + s@,
        SceneError::ObjectNotFound(s) => "Object not found: "@ + s@,
        SceneError::DependencyNotFound(s) => "Referenced object not found: "@ + s@,
        SceneError::DatabaseError(s) => "Database error: "@ + s@,
        SceneError::InvalidEquation(s) => "Invalid equation: "@ + s@,
    }
}

impl SceneError {
    /// The message of the error (see `error_message`).
    pub fn to_string(&self) -> (r: String)
        ensures
            r@ == error_message(*self),
    {
        let mut m = String::new();
        match self {
            SceneError::InvalidObjectType(s) => {
                push_str(&mut m, "Invalid object type: ");
                push_str(&mut m, s.as_str());
            },
            SceneError::InvalidProperties(s) => {
                push_str(&mut m, "Invalid properties: ");
                push_str(&mut m, s.as_str());
            },
            SceneError::InvalidPointFormat(s) => {
                push_str(&mut m, "Invalid point format: ");
                push_str(&mut m, s.as_str());
            },
            SceneError::ObjectNotFound(s) => {
                push_str(&mut m, "Object not found: ");
                push_str(&mut m, s.as_str());
            },
            SceneError::DependencyNotFound(s) => {
                push_str(&mut m, "Referenced object not found: ");
                push_str(&mut m, s.as_str());
            },
            SceneError::DatabaseError(s) => {
                push_str(&mut m, "Database error: ");
                push_str(&mut m, s.as_str());
            },
            SceneError::InvalidEquation(s) => {
                push_str(&mut m, "Invalid equation: ");
                push_str(&mut m, s.as_str());
            },
        }
        m
    }
}

/// The kinds of objects a scene can hold.
#[derive(Debug, Clone, Copy, PartialEq, Eq, Structural)]
pub enum ObjectType {
    FixedPoint,
    FreePoint,
    Midpoint,
    IntersectionPoint,
    SlidingPoint,
    Projection,
    Reflection,
    LineAB,
    PpBisector,
    PpToLine,
    PlToLine,
    TwoPointDistanceInvariant,
    PointToLineDistanceInvariant,
    TwoLineAngleInvariant,
    Invariant,
    Locus,
    Parameter,
}

/// The name of a kind of object.
pub open spec fn kind_name(t: ObjectType) -> Seq<char> {
    match t {
        ObjectType::FixedPoint => "FixedPoint"@,
        ObjectType::FreePoint => "FreePoint"@,
        ObjectType::Midpoint => "Midpoint"@,
        ObjectType::IntersectionPoint => "IntersectionPoint"@,
        ObjectType::SlidingPoint => "SlidingPoint"@,
        ObjectType::Projection => "Projection"@,
        ObjectType::Reflection => "Reflection"@,
        ObjectType::LineAB => "LineAB"@,
        ObjectType::PpBisector => "PpBisector"@,
        ObjectType::PpToLine => "PpToLine"@,
        ObjectType::PlToLine => "PlToLine"@,
        ObjectType::TwoPointDistanceInvariant => "TwoPointDistanceInvariant"@,
        ObjectType::PointToLineDistanceInvariant => "PointToLineDistanceInvariant"@,
        ObjectType::TwoLineAngleInvariant => "TwoLineAngleInvariant"@,
        ObjectType::Invariant => "Invariant"@,
        ObjectType::Locus => "Locus"@,
        ObjectType::Parameter => "Parameter"@,
    }
}

impl ObjectType {
    /// The name of the kind (see `kind_name`).
    pub fn to_string(&self) -> (r: String)
        ensures
            r@ == kind_name(*self),
    {
        let mut s = String::new();
        match self {
            ObjectType::FixedPoint => push_str(&mut s, "FixedPoint"),
            ObjectType::FreePoint => push_str(&mut s, "FreePoint"),
            ObjectType::Midpoint => push_str(&mut s, "Midpoint"),
            ObjectType::IntersectionPoint => push_str(&mut s, "IntersectionPoint"),
            ObjectType::SlidingPoint => push_str(&mut s, "SlidingPoint"),
            ObjectType::Projection => push_str(&mut s, "Projection"),
            ObjectType::Reflection => push_str(&mut s, "Reflection"),
            ObjectType::LineAB => push_str(&mut s, "LineAB"),
            ObjectType::PpBisector => push_str(&mut s, "PpBisector"),
            ObjectType::PpToLine => push_str(&mut s, "PpToLine"),
            ObjectType::PlToLine => push_str(&mut s, "PlToLine"),
            ObjectType::TwoPointDistanceInvariant => push_str(&mut s, "TwoPointDistanceInvariant"),
            ObjectType::PointToLineDistanceInvariant => push_str(&mut s, "PointToLineDistanceInvariant"),
            ObjectType::TwoLineAngleInvariant => push_str(&mut s, "TwoLineAngleInvariant"),
            ObjectType::Invariant => push_str(&mut s, "Invariant"),
            ObjectType::Locus => push_str(&mut s, "Locus"),
            ObjectType::Parameter => push_str(&mut s, "Parameter"),
        }
        s
    }

    /// The kind with the given name; `InvalidObjectType` with the name when
    /// there is none.
    pub fn from_str(s: &str) -> (r: Result<ObjectType, SceneError>)
        ensures
            match r {
                Ok(t) => kind_name(t) == s@,
                Err(e) => e == SceneError::InvalidObjectType(e->InvalidObjectType_0) && e->InvalidObjectType_0@ == s@
                    && forall|t: ObjectType| kind_name(t) != s@,
            },
    {
        if crate::scene_kinds::same_text(s, "FixedPoint") {
            return Ok(ObjectType::FixedPoint);
        }
        if crate::scene_kinds::same_text(s, "FreePoint") {
            return Ok(ObjectType::FreePoint);
        }
        if crate::scene_kinds::same_text(s, "Midpoint") {
            return Ok(ObjectType::Midpoint);
        }
        if crate::scene_kinds::same_text(s, "IntersectionPoint") {
            return Ok(ObjectType::IntersectionPoint);
        }
        if crate::scene_kinds::same_text(s, "SlidingPoint") {
            return Ok(ObjectType::SlidingPoint);
        }
        if crate::scene_kinds::same_text(s, "Projection") {
            return Ok(ObjectType::Projection);
        }
        if crate::scene_kinds::same_text(s, "Reflection") {
            return Ok(ObjectType::Reflection);
        }
        if crate::scene_kinds::same_text(s, "LineAB") {
            return Ok(ObjectType::LineAB);
        }
        if crate::scene_kinds::same_text(s, "PpBisector") {
            return Ok(ObjectType::PpBisector);
        }
        if crate::scene_kinds::same_text(s, "PpToLine") {
            return Ok(ObjectType::PpToLine);
        }
        if crate::scene_kinds::same_text(s, "PlToLine") {
            return Ok(ObjectType::PlToLine);
        }
        if crate::scene_kinds::same_text(s, "TwoPointDistanceInvariant") {
            return Ok(ObjectType::TwoPointDistanceInvariant);
        }
        if crate::scene_kinds::same_text(s, "PointToLineDistanceInvariant") {
            return Ok(ObjectType::PointToLineDistanceInvariant);
        }
        if crate::scene_kinds::same_text(s, "TwoLineAngleInvariant") {
            return Ok(ObjectType::TwoLineAngleInvariant);
        }
        if crate::scene_kinds::same_text(s, "Invariant") {
            return Ok(ObjectType::Invariant);
        }
        if crate::scene_kinds::same_text(s, "Locus") {
            return Ok(ObjectType::Locus);
        }
        if crate::scene_kinds::same_text(s, "Parameter") {
            return Ok(ObjectType::Parameter);
        }
        proof {
            reveal_strlit("FixedPoint");
            reveal_strlit("FreePoint");
            reveal_strlit("Midpoint");
            reveal_strlit("IntersectionPoint");
            reveal_strlit("SlidingPoint");
            reveal_strlit("Projection");
            reveal_strlit("Reflection");
            reveal_strlit("LineAB");
            reveal_strlit("PpBisector");
            reveal_strlit("PpToLine");
            reveal_strlit("PlToLine");
            reveal_strlit("TwoPointDistanceInvariant");
            reveal_strlit("PointToLineDistanceInvariant");
            reveal_strlit("TwoLineAngleInvariant");
            reveal_strlit("Invariant");
            reveal_strlit("Locus");
            reveal_strlit("Parameter");
            assert forall|t: ObjectType| kind_name(t) != s@ by {
                match t {
                    ObjectType::FixedPoint => {},
                    ObjectType::FreePoint => {},
                    ObjectType::Midpoint => {},
                    ObjectType::IntersectionPoint => {},
                    ObjectType::SlidingPoint => {},
                    ObjectType::Projection => {},
                    ObjectType::Reflection => {},
                    ObjectType::LineAB => {},
                    ObjectType::PpBisector => {},
                    ObjectType::PpToLine => {},
                    ObjectType::PlToLine => {},
                    ObjectType::TwoPointDistanceInvariant => {},
                    ObjectType::PointToLineDistanceInvariant => {},
                    ObjectType::TwoLineAngleInvariant => {},
                    ObjectType::Invariant => {},
                    ObjectType::Locus => {},
                    ObjectType::Parameter => {},
                }
            }
        }
        let mut m = String::new();
        push_str(&mut m, s);
        Err(SceneError::InvalidObjectType(m))
    }
}

/// Different kinds have different names, so reading the name of a kind
/// (`ObjectType::from_str` of `ObjectType::to_string`) gives the kind back.
pub proof fn law_kind_names_distinct(a: ObjectType, b: ObjectType)
    requires
        kind_name(a) == kind_name(b),
    ensures
        a == b,
{
    match a {
        ObjectType::FixedPoint => {
            match b {
                ObjectType::FixedPoint => {},
                ObjectType::FreePoint => {
                    reveal_strlit("FixedPoint");
                    reveal_strlit("FreePoint");
                    assert("FixedPoint"@.len() == 10);
                    assert("FreePoint"@.len() == 9);
                },
                ObjectType::Midpoint => {
                    reveal_strlit("FixedPoint");
                    reveal_strlit("Midpoint");
                    assert("FixedPoint"@.len() == 10);
                    assert("Midpoint"@.len() == 8);
                },
                ObjectType::IntersectionPoint => {
                    reveal_strlit("FixedPoint");
                    reveal_strlit("IntersectionPoint");
                    assert("FixedPoint"@.len() == 10);
                    assert("IntersectionPoint"@.len() == 17);
                },
                ObjectType::SlidingPoint => {
                    reveal_strlit("FixedPoint");
                    reveal_strlit("SlidingPoint");
                    assert("FixedPoint"@.len() == 10);
                    assert("SlidingPoint"@.len() == 12);
                },
                ObjectType::Projection => {
                    reveal_strlit("FixedPoint");
                    reveal_strlit("Projection");
                    assert("FixedPoint"@[0] == 'F');
                    assert("Projection"@[0] == 'P');
                },
                ObjectType::Reflection => {
                    reveal_strlit("FixedPoint");
                    reveal_strlit("Reflection");
                    assert("FixedPoint"@[0] == 'F');
                    assert("Reflection"@[0] == 'R');
                },
                ObjectType::LineAB => {
                    reveal_strlit("FixedPoint");
                    reveal_strlit("LineAB");
                    assert("FixedPoint"@.len() == 10);
                    assert("LineAB"@.len() == 6);
                },
                ObjectType::PpBisector => {
                    reveal_strlit("FixedPoint");
                    reveal_strlit("PpBisector");
                    assert("FixedPoint"@[0] == 'F');
                    assert("PpBisector"@[0] == 'P');
                },
                ObjectType::PpToLine => {
                    reveal_strlit("FixedPoint");
                    reveal_strlit("PpToLine");
                    assert("FixedPoint"@.len() == 10);
                    assert("PpToLine"@.len() == 8);
                },
                ObjectType::PlToLine => {
                    reveal_strlit("FixedPoint");
                    reveal_strlit("PlToLine");
                    assert("FixedPoint"@.len() == 10);
                    assert("PlToLine"@.len() == 8);
                },
                ObjectType::TwoPointDistanceInvariant => {
                    reveal_strlit("FixedPoint");
                    reveal_strlit("TwoPointDistanceInvariant");
                    assert("FixedPoint"@.len() == 10);
                    assert("TwoPointDistanceInvariant"@.len() == 25);
                },
                ObjectType::PointToLineDistanceInvariant => {
                    reveal_strlit("FixedPoint");
                    reveal_strlit("PointToLineDistanceInvariant");
                    assert("FixedPoint"@.len() == 10);
                    assert("PointToLineDistanceInvariant"@.len() == 28);
                },
                ObjectType::TwoLineAngleInvariant => {
                    reveal_strlit("FixedPoint");
                    reveal_strlit("TwoLineAngleInvariant");
                    assert("FixedPoint"@.len() == 10);
                    assert("TwoLineAngleInvariant"@.len() == 21);
                },
                ObjectType::Invariant => {
                    reveal_strlit("FixedPoint");
                    reveal_strlit("Invariant");
                    assert("FixedPoint"@.len() == 10);
                    assert("Invariant"@.len() == 9);
                },
                ObjectType::Locus => {
                    reveal_strlit("FixedPoint");
                    reveal_strlit("Locus");
                    assert("FixedPoint"@.len() == 10);
                    assert("Locus"@.len() == 5);
                },
                ObjectType::Parameter => {
                    reveal_strlit("FixedPoint");
                    reveal_strlit("Parameter");
                    assert("FixedPoint"@.len() == 10);
                    assert("Parameter"@.len() == 9);
                },
            }
        },
        ObjectType::FreePoint => {
            match b {
                ObjectType::FixedPoint => {
                    reveal_strlit("FreePoint");
                    reveal_strlit("FixedPoint");
                    assert("FreePoint"@.len() == 9);
                    assert("FixedPoint"@.len() == 10);
                },
                ObjectType::FreePoint => {},
                ObjectType::Midpoint => {
                    reveal_strlit("FreePoint");
                    reveal_strlit("Midpoint");
                    assert("FreePoint"@.len() == 9);
                    assert("Midpoint"@.len() == 8);
                },
                ObjectType::IntersectionPoint => {
                    reveal_strlit("FreePoint");
                    reveal_strlit("IntersectionPoint");
                    assert("FreePoint"@.len() == 9);
                    assert("IntersectionPoint"@.len() == 17);
                },
                ObjectType::SlidingPoint => {
                    reveal_strlit("FreePoint");
                    reveal_strlit("SlidingPoint");
                    assert("FreePoint"@.len() == 9);
                    assert("SlidingPoint"@.len() == 12);
                },
                ObjectType::Projection => {
                    reveal_strlit("FreePoint");
                    reveal_strlit("Projection");
                    assert("FreePoint"@.len() == 9);
                    assert("Projection"@.len() == 10);
                },
                ObjectType::Reflection => {
                    reveal_strlit("FreePoint");
                    reveal_strlit("Reflection");
                    assert("FreePoint"@.len() == 9);
                    assert("Reflection"@.len() == 10);
                },
                ObjectType::LineAB => {
                    reveal_strlit("FreePoint");
                    reveal_strlit("LineAB");
                    assert("FreePoint"@.len() == 9);
                    assert("LineAB"@.len() == 6);
                },
                ObjectType::PpBisector => {
                    reveal_strlit("FreePoint");
                    reveal_strlit("PpBisector");
                    assert("FreePoint"@.len() == 9);
                    assert("PpBisector"@.len() == 10);
                },
                ObjectType::PpToLine => {
                    reveal_strlit("FreePoint");
                    reveal_strlit("PpToLine");
                    assert("FreePoint"@.len() == 9);
                    assert("PpToLine"@.len() == 8);
                },
                ObjectType::PlToLine => {
                    reveal_strlit("FreePoint");
                    reveal_strlit("PlToLine");
                    assert("FreePoint"@.len() == 9);
                    assert("PlToLine"@.len() == 8);
                },
                ObjectType::TwoPointDistanceInvariant => {
                    reveal_strlit("FreePoint");
                    reveal_strlit("TwoPointDistanceInvariant");
                    assert("FreePoint"@.len() == 9);
                    assert("TwoPointDistanceInvariant"@.len() == 25);
                },
                ObjectType::PointToLineDistanceInvariant => {
                    reveal_strlit("FreePoint");
                    reveal_strlit("PointToLineDistanceInvariant");
                    assert("FreePoint"@.len() == 9);
                    assert("PointToLineDistanceInvariant"@.len() == 28);
                },
                ObjectType::TwoLineAngleInvariant => {
                    reveal_strlit("FreePoint");
                    reveal_strlit("TwoLineAngleInvariant");
                    assert("FreePoint"@.len() == 9);
                    assert("TwoLineAngleInvariant"@.len() == 21);
                },
                ObjectType::Invariant => {
                    reveal_strlit("FreePoint");
                    reveal_strlit("Invariant");
                    assert("FreePoint"@[0] == 'F');
                    assert("Invariant"@[0] == 'I');
                },
                ObjectType::Locus => {
                    reveal_strlit("FreePoint");
                    reveal_strlit("Locus");
                    assert("FreePoint"@.len() == 9);
                    assert("Locus"@.len() == 5);
                },
                ObjectType::Parameter => {
                    reveal_strlit("FreePoint");
                    reveal_strlit("Parameter");
                    assert("FreePoint"@[0] == 'F');
                    assert("Parameter"@[0] == 'P');
                },
            }
        },
        ObjectType::Midpoint => {
            match b {
                ObjectType::FixedPoint => {
                    reveal_strlit("Midpoint");
                    reveal_strlit("FixedPoint");
                    assert("Midpoint"@.len() == 8);
                    assert("FixedPoint"@.len() == 10);
                },
                ObjectType::FreePoint => {
                    reveal_strlit("Midpoint");
                    reveal_strlit("FreePoint");
                    assert("Midpoint"@.len() == 8);
                    assert("FreePoint"@.len() == 9);
                },
                ObjectType::Midpoint => {},
                ObjectType::IntersectionPoint => {
                    reveal_strlit("Midpoint");
                    reveal_strlit("IntersectionPoint");
                    assert("Midpoint"@.len() == 8);
                    assert("IntersectionPoint"@.len() == 17);
                },
                ObjectType::SlidingPoint => {
                    reveal_strlit("Midpoint");
                    reveal_strlit("SlidingPoint");
                    assert("Midpoint"@.len() == 8);
                    assert("SlidingPoint"@.len() == 12);
                },
                ObjectType::Projection => {
                    reveal_strlit("Midpoint");
                    reveal_strlit("Projection");
                    assert("Midpoint"@.len() == 8);
                    assert("Projection"@.len() == 10);
                },
                ObjectType::Reflection => {
                    reveal_strlit("Midpoint");
                    reveal_strlit("Reflection");
                    assert("Midpoint"@.len() == 8);
                    assert("Reflection"@.len() == 10);
                },
                ObjectType::LineAB => {
                    reveal_strlit("Midpoint");
                    reveal_strlit("LineAB");
                    assert("Midpoint"@.len() == 8);
                    assert("LineAB"@.len() == 6);
                },
                ObjectType::PpBisector => {
                    reveal_strlit("Midpoint");
                    reveal_strlit("PpBisector");
                    assert("Midpoint"@.len() == 8);
                    assert("PpBisector"@.len() == 10);
                },
                ObjectType::PpToLine => {
                    reveal_strlit("Midpoint");
                    reveal_strlit("PpToLine");
                    assert("Midpoint"@[0] == 'M');
                    assert("PpToLine"@[0] == 'P');
                },
                ObjectType::PlToLine => {
                    reveal_strlit("Midpoint");
                    reveal_strlit("PlToLine");
                    assert("Midpoint"@[0] == 'M');
                    assert("PlToLine"@[0] == 'P');
                },
                ObjectType::TwoPointDistanceInvariant => {
                    reveal_strlit("Midpoint");
                    reveal_strlit("TwoPointDistanceInvariant");
                    assert("Midpoint"@.len() == 8);
                    assert("TwoPointDistanceInvariant"@.len() == 25);
                },
                ObjectType::PointToLineDistanceInvariant => {
                    reveal_strlit("Midpoint");
                    reveal_strlit("PointToLineDistanceInvariant");
                    assert("Midpoint"@.len() == 8);
                    assert("PointToLineDistanceInvariant"@.len() == 28);
                },
                ObjectType::TwoLineAngleInvariant => {
                    reveal_strlit("Midpoint");
                    reveal_strlit("TwoLineAngleInvariant");
                    assert("Midpoint"@.len() == 8);
                    assert("TwoLineAngleInvariant"@.len() == 21);
                },
                ObjectType::Invariant => {
                    reveal_strlit("Midpoint");
                    reveal_strlit("Invariant");
                    assert("Midpoint"@.len() == 8);
                    assert("Invariant"@.len() == 9);
                },
                ObjectType::Locus => {
                    reveal_strlit("Midpoint");
                    reveal_strlit("Locus");
                    assert("Midpoint"@.len() == 8);
                    assert("Locus"@.len() == 5);
                },
                ObjectType::Parameter => {
                    reveal_strlit("Midpoint");
                    reveal_strlit("Parameter");
                    assert("Midpoint"@.len() == 8);
                    assert("Parameter"@.len() == 9);
                },
            }
        },
        ObjectType::IntersectionPoint => {
            match b {
                ObjectType::FixedPoint => {
                    reveal_strlit("IntersectionPoint");
                    reveal_strlit("FixedPoint");
                    assert("IntersectionPoint"@.len() == 17);
                    assert("FixedPoint"@.len() == 10);
                },
                ObjectType::FreePoint => {
                    reveal_strlit("IntersectionPoint");
                    reveal_strlit("FreePoint");
                    assert("IntersectionPoint"@.len() == 17);
                    assert("FreePoint"@.len() == 9);
                },
                ObjectType::Midpoint => {
                    reveal_strlit("IntersectionPoint");
                    reveal_strlit("Midpoint");
                    assert("IntersectionPoint"@.len() == 17);
                    assert("Midpoint"@.len() == 8);
                },
                ObjectType::IntersectionPoint => {},
                ObjectType::SlidingPoint => {
                    reveal_strlit("IntersectionPoint");
                    reveal_strlit("SlidingPoint");
                    assert("IntersectionPoint"@.len() == 17);
                    assert("SlidingPoint"@.len() == 12);
                },
                ObjectType::Projection => {
                    reveal_strlit("IntersectionPoint");
                    reveal_strlit("Projection");
                    assert("IntersectionPoint"@.len() == 17);
                    assert("Projection"@.len() == 10);
                },
                ObjectType::Reflection => {
                    reveal_strlit("IntersectionPoint");
                    reveal_strlit("Reflection");
                    assert("IntersectionPoint"@.len() == 17);
                    assert("Reflection"@.len() == 10);
                },
                ObjectType::LineAB => {
                    reveal_strlit("IntersectionPoint");
                    reveal_strlit("LineAB");
                    assert("IntersectionPoint"@.len() == 17);
                    assert("LineAB"@.len() == 6);
                },
                ObjectType::PpBisector => {
                    reveal_strlit("IntersectionPoint");
                    reveal_strlit("PpBisector");
                    assert("IntersectionPoint"@.len() == 17);
                    assert("PpBisector"@.len() == 10);
                },
                ObjectType::PpToLine => {
                    reveal_strlit("IntersectionPoint");
                    reveal_strlit("PpToLine");
                    assert("IntersectionPoint"@.len() == 17);
                    assert("PpToLine"@.len() == 8);
                },
                ObjectType::PlToLine => {
                    reveal_strlit("IntersectionPoint");
                    reveal_strlit("PlToLine");
                    assert("IntersectionPoint"@.len() == 17);
                    assert("PlToLine"@.len() == 8);
                },
                ObjectType::TwoPointDistanceInvariant => {
                    reveal_strlit("IntersectionPoint");
                    reveal_strlit("TwoPointDistanceInvariant");
                    assert("IntersectionPoint"@.len() == 17);
                    assert("TwoPointDistanceInvariant"@.len() == 25);
                },
                ObjectType::PointToLineDistanceInvariant => {
                    reveal_strlit("IntersectionPoint");
                    reveal_strlit("PointToLineDistanceInvariant");
                    assert("IntersectionPoint"@.len() == 17);
                    assert("PointToLineDistanceInvariant"@.len() == 28);
                },
                ObjectType::TwoLineAngleInvariant => {
                    reveal_strlit("IntersectionPoint");
                    reveal_strlit("TwoLineAngleInvariant");
                    assert("IntersectionPoint"@.len() == 17);
                    assert("TwoLineAngleInvariant"@.len() == 21);
                },
                ObjectType::Invariant => {
                    reveal_strlit("IntersectionPoint");
                    reveal_strlit("Invariant");
                    assert("IntersectionPoint"@.len() == 17);
                    assert("Invariant"@.len() == 9);
                },
                ObjectType::Locus => {
                    reveal_strlit("IntersectionPoint");
                    reveal_strlit("Locus");
                    assert("IntersectionPoint"@.len() == 17);
                    assert("Locus"@.len() == 5);
                },
                ObjectType::Parameter => {
                    reveal_strlit("IntersectionPoint");
                    reveal_strlit("Parameter");
                    assert("IntersectionPoint"@.len() == 17);
                    assert("Parameter"@.len() == 9);
                },
            }
        },
        ObjectType::SlidingPoint => {
            match b {
                ObjectType::FixedPoint => {
                    reveal_strlit("SlidingPoint");
                    reveal_strlit("FixedPoint");
                    assert("SlidingPoint"@.len() == 12);
                    assert("FixedPoint"@.len() == 10);
                },
                ObjectType::FreePoint => {
                    reveal_strlit("SlidingPoint");
                    reveal_strlit("FreePoint");
                    assert("SlidingPoint"@.len() == 12);
                    assert("FreePoint"@.len() == 9);
                },
                ObjectType::Midpoint => {
                    reveal_strlit("SlidingPoint");
                    reveal_strlit("Midpoint");
                    assert("SlidingPoint"@.len() == 12);
                    assert("Midpoint"@.len() == 8);
                },
                ObjectType::IntersectionPoint => {
                    reveal_strlit("SlidingPoint");
                    reveal_strlit("IntersectionPoint");
                    assert("SlidingPoint"@.len() == 12);
                    assert("IntersectionPoint"@.len() == 17);
                },
                ObjectType::SlidingPoint => {},
                ObjectType::Projection => {
                    reveal_strlit("SlidingPoint");
                    reveal_strlit("Projection");
                    assert("SlidingPoint"@.len() == 12);
                    assert("Projection"@.len() == 10);
                },
                ObjectType::Reflection => {
                    reveal_strlit("SlidingPoint");
                    reveal_strlit("Reflection");
                    assert("SlidingPoint"@.len() == 12);
                    assert("Reflection"@.len() == 10);
                },
                ObjectType::LineAB => {
                    reveal_strlit("SlidingPoint");
                    reveal_strlit("LineAB");
                    assert("SlidingPoint"@.len() == 12);
                    assert("LineAB"@.len() == 6);
                },
                ObjectType::PpBisector => {
                    reveal_strlit("SlidingPoint");
                    reveal_strlit("PpBisector");
                    assert("SlidingPoint"@.len() == 12);
                    assert("PpBisector"@.len() == 10);
                },
                ObjectType::PpToLine => {
                    reveal_strlit("SlidingPoint");
                    reveal_strlit("PpToLine");
                    assert("SlidingPoint"@.len() == 12);
                    assert("PpToLine"@.len() == 8);
                },
                ObjectType::PlToLine => {
                    reveal_strlit("SlidingPoint");
                    reveal_strlit("PlToLine");
                    assert("SlidingPoint"@.len() == 12);
                    assert("PlToLine"@.len() == 8);
                },
                ObjectType::TwoPointDistanceInvariant => {
                    reveal_strlit("SlidingPoint");
                    reveal_strlit("TwoPointDistanceInvariant");
                    assert("SlidingPoint"@.len() == 12);
                    assert("TwoPointDistanceInvariant"@.len() == 25);
                },
                ObjectType::PointToLineDistanceInvariant => {
                    reveal_strlit("SlidingPoint");
                    reveal_strlit("PointToLineDistanceInvariant");
                    assert("SlidingPoint"@.len() == 12);
                    assert("PointToLineDistanceInvariant"@.len() == 28);
                },
                ObjectType::TwoLineAngleInvariant => {
                    reveal_strlit("SlidingPoint");
                    reveal_strlit("TwoLineAngleInvariant");
                    assert("SlidingPoint"@.len() == 12);
                    assert("TwoLineAngleInvariant"@.len() == 21);
                },
                ObjectType::Invariant => {
                    reveal_strlit("SlidingPoint");
                    reveal_strlit("Invariant");
                    assert("SlidingPoint"@.len() == 12);
                    assert("Invariant"@.len() == 9);
                },
                ObjectType::Locus => {
                    reveal_strlit("SlidingPoint");
                    reveal_strlit("Locus");
                    assert("SlidingPoint"@.len() == 12);
                    assert("Locus"@.len() == 5);
                },
                ObjectType::Parameter => {
                    reveal_strlit("SlidingPoint");
                    reveal_strlit("Parameter");
                    assert("SlidingPoint"@.len() == 12);
                    assert("Parameter"@.len() == 9);
                },
            }
        },
        ObjectType::Projection => {
            match b {
                ObjectType::FixedPoint => {
                    reveal_strlit("Projection");
                    reveal_strlit("FixedPoint");
                    assert("Projection"@[0] == 'P');
                    assert("FixedPoint"@[0] == 'F');
                },
                ObjectType::FreePoint => {
                    reveal_strlit("Projection");
                    reveal_strlit("FreePoint");
                    assert("Projection"@.len() == 10);
                    assert("FreePoint"@.len() == 9);
                },
                ObjectType::Midpoint => {
                    reveal_strlit("Projection");
                    reveal_strlit("Midpoint");
                    assert("Projection"@.len() == 10);
                    assert("Midpoint"@.len() == 8);
                },
                ObjectType::IntersectionPoint => {
                    reveal_strlit("Projection");
                    reveal_strlit("IntersectionPoint");
                    assert("Projection"@.len() == 10);
                    assert("IntersectionPoint"@.len() == 17);
                },
                ObjectType::SlidingPoint => {
                    reveal_strlit("Projection");
                    reveal_strlit("SlidingPoint");
                    assert("Projection"@.len() == 10);
                    assert("SlidingPoint"@.len() == 12);
                },
                ObjectType::Projection => {},
                ObjectType::Reflection => {
                    reveal_strlit("Projection");
                    reveal_strlit("Reflection");
                    assert("Projection"@[0] == 'P');
                    assert("Reflection"@[0] == 'R');
                },
                ObjectType::LineAB => {
                    reveal_strlit("Projection");
                    reveal_strlit("LineAB");
                    assert("Projection"@.len() == 10);
                    assert("LineAB"@.len() == 6);
                },
                ObjectType::PpBisector => {
                    reveal_strlit("Projection");
                    reveal_strlit("PpBisector");
                    assert("Projection"@[1] == 'r');
                    assert("PpBisector"@[1] == 'p');
                },
                ObjectType::PpToLine => {
                    reveal_strlit("Projection");
                    reveal_strlit("PpToLine");
                    assert("Projection"@.len() == 10);
                    assert("PpToLine"@.len() == 8);
                },
                ObjectType::PlToLine => {
                    reveal_strlit("Projection");
                    reveal_strlit("PlToLine");
                    assert("Projection"@.len() == 10);
                    assert("PlToLine"@.len() == 8);
                },
                ObjectType::TwoPointDistanceInvariant => {
                    reveal_strlit("Projection");
                    reveal_strlit("TwoPointDistanceInvariant");
                    assert("Projection"@.len() == 10);
                    assert("TwoPointDistanceInvariant"@.len() == 25);
                },
                ObjectType::PointToLineDistanceInvariant => {
                    reveal_strlit("Projection");
                    reveal_strlit("PointToLineDistanceInvariant");
                    assert("Projection"@.len() == 10);
                    assert("PointToLineDistanceInvariant"@.len() == 28);
                },
                ObjectType::TwoLineAngleInvariant => {
                    reveal_strlit("Projection");
                    reveal_strlit("TwoLineAngleInvariant");
                    assert("Projection"@.len() == 10);
                    assert("TwoLineAngleInvariant"@.len() == 21);
                },
                ObjectType::Invariant => {
                    reveal_strlit("Projection");
                    reveal_strlit("Invariant");
                    assert("Projection"@.len() == 10);
                    assert("Invariant"@.len() == 9);
                },
                ObjectType::Locus => {
                    reveal_strlit("Projection");
                    reveal_strlit("Locus");
                    assert("Projection"@.len() == 10);
                    assert("Locus"@.len() == 5);
                },
                ObjectType::Parameter => {
                    reveal_strlit("Projection");
                    reveal_strlit("Parameter");
                    assert("Projection"@.len() == 10);
                    assert("Parameter"@.len() == 9);
                },
            }
        },
        ObjectType::Reflection => {
            match b {
                ObjectType::FixedPoint => {
                    reveal_strlit("Reflection");
                    reveal_strlit("FixedPoint");
                    assert("Reflection"@[0] == 'R');
                    assert("FixedPoint"@[0] == 'F');
                },
                ObjectType::FreePoint => {
                    reveal_strlit("Reflection");
                    reveal_strlit("FreePoint");
                    assert("Reflection"@.len() == 10);
                    assert("FreePoint"@.len() == 9);
                },
                ObjectType::Midpoint => {
                    reveal_strlit("Reflection");
                    reveal_strlit("Midpoint");
                    assert("Reflection"@.len() == 10);
                    assert("Midpoint"@.len() == 8);
                },
                ObjectType::IntersectionPoint => {
                    reveal_strlit("Reflection");
                    reveal_strlit("IntersectionPoint");
                    assert("Reflection"@.len() == 10);
                    assert("IntersectionPoint"@.len() == 17);
                },
                ObjectType::SlidingPoint => {
                    reveal_strlit("Reflection");
                    reveal_strlit("SlidingPoint");
                    assert("Reflection"@.len() == 10);
                    assert("SlidingPoint"@.len() == 12);
                },
                ObjectType::Projection => {
                    reveal_strlit("Reflection");
                    reveal_strlit("Projection");
                    assert("Reflection"@[0] == 'R');
                    assert("Projection"@[0] == 'P');
                },
                ObjectType::Reflection => {},
                ObjectType::LineAB => {
                    reveal_strlit("Reflection");
                    reveal_strlit("LineAB");
                    assert("Reflection"@.len() == 10);
                    assert("LineAB"@.len() == 6);
                },
                ObjectType::PpBisector => {
                    reveal_strlit("Reflection");
                    reveal_strlit("PpBisector");
                    assert("Reflection"@[0] == 'R');
                    assert("PpBisector"@[0] == 'P');
                },
                ObjectType::PpToLine => {
                    reveal_strlit("Reflection");
                    reveal_strlit("PpToLine");
                    assert("Reflection"@.len() == 10);
                    assert("PpToLine"@.len() == 8);
                },
                ObjectType::PlToLine => {
                    reveal_strlit("Reflection");
                    reveal_strlit("PlToLine");
                    assert("Reflection"@.len() == 10);
                    assert("PlToLine"@.len() == 8);
                },
                ObjectType::TwoPointDistanceInvariant => {
                    reveal_strlit("Reflection");
                    reveal_strlit("TwoPointDistanceInvariant");
                    assert("Reflection"@.len() == 10);
                    assert("TwoPointDistanceInvariant"@.len() == 25);
                },
                ObjectType::PointToLineDistanceInvariant => {
                    reveal_strlit("Reflection");
                    reveal_strlit("PointToLineDistanceInvariant");
                    assert("Reflection"@.len() == 10);
                    assert("PointToLineDistanceInvariant"@.len() == 28);
                },
                ObjectType::TwoLineAngleInvariant => {
                    reveal_strlit("Reflection");
                    reveal_strlit("TwoLineAngleInvariant");
                    assert("Reflection"@.len() == 10);
                    assert("TwoLineAngleInvariant"@.len() == 21);
                },
                ObjectType::Invariant => {
                    reveal_strlit("Reflection");
                    reveal_strlit("Invariant");
                    assert("Reflection"@.len() == 10);
                    assert("Invariant"@.len() == 9);
                },
                ObjectType::Locus => {
                    reveal_strlit("Reflection");
                    reveal_strlit("Locus");
                    assert("Reflection"@.len() == 10);
                    assert("Locus"@.len() == 5);
                },
                ObjectType::Parameter => {
                    reveal_strlit("Reflection");
                    reveal_strlit("Parameter");
                    assert("Reflection"@.len() == 10);
                    assert("Parameter"@.len() == 9);
                },
            }
        },
        ObjectType::LineAB => {
            match b {
                ObjectType::FixedPoint => {
                    reveal_strlit("LineAB");
                    reveal_strlit("FixedPoint");
                    assert("LineAB"@.len() == 6);
                    assert("FixedPoint"@.len() == 10);
                },
                ObjectType::FreePoint => {
                    reveal_strlit("LineAB");
                    reveal_strlit("FreePoint");
                    assert("LineAB"@.len() == 6);
                    assert("FreePoint"@.len() == 9);
                },
                ObjectType::Midpoint => {
                    reveal_strlit("LineAB");
                    reveal_strlit("Midpoint");
                    assert("LineAB"@.len() == 6);
                    assert("Midpoint"@.len() == 8);
                },
                ObjectType::IntersectionPoint => {
                    reveal_strlit("LineAB");
                    reveal_strlit("IntersectionPoint");
                    assert("LineAB"@.len() == 6);
                    assert("IntersectionPoint"@.len() == 17);
                },
                ObjectType::SlidingPoint => {
                    reveal_strlit("LineAB");
                    reveal_strlit("SlidingPoint");
                    assert("LineAB"@.len() == 6);
                    assert("SlidingPoint"@.len() == 12);
                },
                ObjectType::Projection => {
                    reveal_strlit("LineAB");
                    reveal_strlit("Projection");
                    assert("LineAB"@.len() == 6);
                    assert("Projection"@.len() == 10);
                },
                ObjectType::Reflection => {
                    reveal_strlit("LineAB");
                    reveal_strlit("Reflection");
                    assert("LineAB"@.len() == 6);
                    assert("Reflection"@.len() == 10);
                },
                ObjectType::LineAB => {},
                ObjectType::PpBisector => {
                    reveal_strlit("LineAB");
                    reveal_strlit("PpBisector");
                    assert("LineAB"@.len() == 6);
                    assert("PpBisector"@.len() == 10);
                },
                ObjectType::PpToLine => {
                    reveal_strlit("LineAB");
                    reveal_strlit("PpToLine");
                    assert("LineAB"@.len() == 6);
                    assert("PpToLine"@.len() == 8);
                },
                ObjectType::PlToLine => {
                    reveal_strlit("LineAB");
                    reveal_strlit("PlToLine");
                    assert("LineAB"@.len() == 6);
                    assert("PlToLine"@.len() == 8);
                },
                ObjectType::TwoPointDistanceInvariant => {
                    reveal_strlit("LineAB");
                    reveal_strlit("TwoPointDistanceInvariant");
                    assert("LineAB"@.len() == 6);
                    assert("TwoPointDistanceInvariant"@.len() == 25);
                },
                ObjectType::PointToLineDistanceInvariant => {
                    reveal_strlit("LineAB");
                    reveal_strlit("PointToLineDistanceInvariant");
                    assert("LineAB"@.len() == 6);
                    assert("PointToLineDistanceInvariant"@.len() == 28);
                },
                ObjectType::TwoLineAngleInvariant => {
                    reveal_strlit("LineAB");
                    reveal_strlit("TwoLineAngleInvariant");
                    assert("LineAB"@.len() == 6);
                    assert("TwoLineAngleInvariant"@.len() == 21);
                },
                ObjectType::Invariant => {
                    reveal_strlit("LineAB");
                    reveal_strlit("Invariant");
                    assert("LineAB"@.len() == 6);
                    assert("Invariant"@.len() == 9);
                },
                ObjectType::Locus => {
                    reveal_strlit("LineAB");
                    reveal_strlit("Locus");
                    assert("LineAB"@.len() == 6);
                    assert("Locus"@.len() == 5);
                },
                ObjectType::Parameter => {
                    reveal_strlit("LineAB");
                    reveal_strlit("Parameter");
                    assert("LineAB"@.len() == 6);
                    assert("Parameter"@.len() == 9);
                },
            }
        },
        ObjectType::PpBisector => {
            match b {
                ObjectType::FixedPoint => {
                    reveal_strlit("PpBisector");
                    reveal_strlit("FixedPoint");
                    assert("PpBisector"@[0] == 'P');
                    assert("FixedPoint"@[0] == 'F');
                },
                ObjectType::FreePoint => {
                    reveal_strlit("PpBisector");
                    reveal_strlit("FreePoint");
                    assert("PpBisector"@.len() == 10);
                    assert("FreePoint"@.len() == 9);
                },
                ObjectType::Midpoint => {
                    reveal_strlit("PpBisector");
                    reveal_strlit("Midpoint");
                    assert("PpBisector"@.len() == 10);
                    assert("Midpoint"@.len() == 8);
                },
                ObjectType::IntersectionPoint => {
                    reveal_strlit("PpBisector");
                    reveal_strlit("IntersectionPoint");
                    assert("PpBisector"@.len() == 10);
                    assert("IntersectionPoint"@.len() == 17);
                },
                ObjectType::SlidingPoint => {
                    reveal_strlit("PpBisector");
                    reveal_strlit("SlidingPoint");
                    assert("PpBisector"@.len() == 10);
                    assert("SlidingPoint"@.len() == 12);
                },
                ObjectType::Projection => {
                    reveal_strlit("PpBisector");
                    reveal_strlit("Projection");
                    assert("PpBisector"@[1] == 'p');
                    assert("Projection"@[1] == 'r');
                },
                ObjectType::Reflection => {
                    reveal_strlit("PpBisector");
                    reveal_strlit("Reflection");
                    assert("PpBisector"@[0] == 'P');
                    assert("Reflection"@[0] == 'R');
                },
                ObjectType::LineAB => {
                    reveal_strlit("PpBisector");
                    reveal_strlit("LineAB");
                    assert("PpBisector"@.len() == 10);
                    assert("LineAB"@.len() == 6);
                },
                ObjectType::PpBisector => {},
                ObjectType::PpToLine => {
                    reveal_strlit("PpBisector");
                    reveal_strlit("PpToLine");
                    assert("PpBisector"@.len() == 10);
                    assert("PpToLine"@.len() == 8);
                },
                ObjectType::PlToLine => {
                    reveal_strlit("PpBisector");
                    reveal_strlit("PlToLine");
                    assert("PpBisector"@.len() == 10);
                    assert("PlToLine"@.len() == 8);
                },
                ObjectType::TwoPointDistanceInvariant => {
                    reveal_strlit("PpBisector");
                    reveal_strlit("TwoPointDistanceInvariant");
                    assert("PpBisector"@.len() == 10);
                    assert("TwoPointDistanceInvariant"@.len() == 25);
                },
                ObjectType::PointToLineDistanceInvariant => {
                    reveal_strlit("PpBisector");
                    reveal_strlit("PointToLineDistanceInvariant");
                    assert("PpBisector"@.len() == 10);
                    assert("PointToLineDistanceInvariant"@.len() == 28);
                },
                ObjectType::TwoLineAngleInvariant => {
                    reveal_strlit("PpBisector");
                    reveal_strlit("TwoLineAngleInvariant");
                    assert("PpBisector"@.len() == 10);
                    assert("TwoLineAngleInvariant"@.len() == 21);
                },
                ObjectType::Invariant => {
                    reveal_strlit("PpBisector");
                    reveal_strlit("Invariant");
                    assert("PpBisector"@.len() == 10);
                    assert("Invariant"@.len() == 9);
                },
                ObjectType::Locus => {
                    reveal_strlit("PpBisector");
                    reveal_strlit("Locus");
                    assert("PpBisector"@.len() == 10);
                    assert("Locus"@.len() == 5);
                },
                ObjectType::Parameter => {
                    reveal_strlit("PpBisector");
                    reveal_strlit("Parameter");
                    assert("PpBisector"@.len() == 10);
                    assert("Parameter"@.len() == 9);
                },
            }
        },
        ObjectType::PpToLine => {
            match b {
                ObjectType::FixedPoint => {
                    reveal_strlit("PpToLine");
                    reveal_strlit("FixedPoint");
                    assert("PpToLine"@.len() == 8);
                    assert("FixedPoint"@.len() == 10);
                },
                ObjectType::FreePoint => {
                    reveal_strlit("PpToLine");
                    reveal_strlit("FreePoint");
                    assert("PpToLine"@.len() == 8);
                    assert("FreePoint"@.len() == 9);
                },
                ObjectType::Midpoint => {
                    reveal_strlit("PpToLine");
                    reveal_strlit("Midpoint");
                    assert("PpToLine"@[0] == 'P');
                    assert("Midpoint"@[0] == 'M');
                },
                ObjectType::IntersectionPoint => {
                    reveal_strlit("PpToLine");
                    reveal_strlit("IntersectionPoint");
                    assert("PpToLine"@.len() == 8);
                    assert("IntersectionPoint"@.len() == 17);
                },
                ObjectType::SlidingPoint => {
                    reveal_strlit("PpToLine");
                    reveal_strlit("SlidingPoint");
                    assert("PpToLine"@.len() == 8);
                    assert("SlidingPoint"@.len() == 12);
                },
                ObjectType::Projection => {
                    reveal_strlit("PpToLine");
                    reveal_strlit("Projection");
                    assert("PpToLine"@.len() == 8);
                    assert("Projection"@.len() == 10);
                },
                ObjectType::Reflection => {
                    reveal_strlit("PpToLine");
                    reveal_strlit("Reflection");
                    assert("PpToLine"@.len() == 8);
                    assert("Reflection"@.len() == 10);
                },
                ObjectType::LineAB => {
                    reveal_strlit("PpToLine");
                    reveal_strlit("LineAB");
                    assert("PpToLine"@.len() == 8);
                    assert("LineAB"@.len() == 6);
                },
                ObjectType::PpBisector => {
                    reveal_strlit("PpToLine");
                    reveal_strlit("PpBisector");
                    assert("PpToLine"@.len() == 8);
                    assert("PpBisector"@.len() == 10);
                },
                ObjectType::PpToLine => {},
                ObjectType::PlToLine => {
                    reveal_strlit("PpToLine");
                    reveal_strlit("PlToLine");
                    assert("PpToLine"@[1] == 'p');
                    assert("PlToLine"@[1] == 'l');
                },
                ObjectType::TwoPointDistanceInvariant => {
                    reveal_strlit("PpToLine");
                    reveal_strlit("TwoPointDistanceInvariant");
                    assert("PpToLine"@.len() == 8);
                    assert("TwoPointDistanceInvariant"@.len() == 25);
                },
                ObjectType::PointToLineDistanceInvariant => {
                    reveal_strlit("PpToLine");
                    reveal_strlit("PointToLineDistanceInvariant");
                    assert("PpToLine"@.len() == 8);
                    assert("PointToLineDistanceInvariant"@.len() == 28);
                },
                ObjectType::TwoLineAngleInvariant => {
                    reveal_strlit("PpToLine");
                    reveal_strlit("TwoLineAngleInvariant");
                    assert("PpToLine"@.len() == 8);
                    assert("TwoLineAngleInvariant"@.len() == 21);
                },
                ObjectType::Invariant => {
                    reveal_strlit("PpToLine");
                    reveal_strlit("Invariant");
                    assert("PpToLine"@.len() == 8);
                    assert("Invariant"@.len() == 9);
                },
                ObjectType::Locus => {
                    reveal_strlit("PpToLine");
                    reveal_strlit("Locus");
                    assert("PpToLine"@.len() == 8);
                    assert("Locus"@.len() == 5);
                },
                ObjectType::Parameter => {
                    reveal_strlit("PpToLine");
                    reveal_strlit("Parameter");
                    assert("PpToLine"@.len() == 8);
                    assert("Parameter"@.len() == 9);
                },
            }
        },
        ObjectType::PlToLine => {
            match b {
                ObjectType::FixedPoint => {
                    reveal_strlit("PlToLine");
                    reveal_strlit("FixedPoint");
                    assert("PlToLine"@.len() == 8);
                    assert("FixedPoint"@.len() == 10);
                },
                ObjectType::FreePoint => {
                    reveal_strlit("PlToLine");
                    reveal_strlit("FreePoint");
                    assert("PlToLine"@.len() == 8);
                    assert("FreePoint"@.len() == 9);
                },
                ObjectType::Midpoint => {
                    reveal_strlit("PlToLine");
                    reveal_strlit("Midpoint");
                    assert("PlToLine"@[0] == 'P');
                    assert("Midpoint"@[0] == 'M');
                },
                ObjectType::IntersectionPoint => {
                    reveal_strlit("PlToLine");
                    reveal_strlit("IntersectionPoint");
                    assert("PlToLine"@.len() == 8);
                    assert("IntersectionPoint"@.len() == 17);
                },
                ObjectType::SlidingPoint => {
                    reveal_strlit("PlToLine");
                    reveal_strlit("SlidingPoint");
                    assert("PlToLine"@.len() == 8);
                    assert("SlidingPoint"@.len() == 12);
                },
                ObjectType::Projection => {
                    reveal_strlit("PlToLine");
                    reveal_strlit("Projection");
                    assert("PlToLine"@.len() == 8);
                    assert("Projection"@.len() == 10);
                },
                ObjectType::Reflection => {
                    reveal_strlit("PlToLine");
                    reveal_strlit("Reflection");
                    assert("PlToLine"@.len() == 8);
                    assert("Reflection"@.len() == 10);
                },
                ObjectType::LineAB => {
                    reveal_strlit("PlToLine");
                    reveal_strlit("LineAB");
                    assert("PlToLine"@.len() == 8);
                    assert("LineAB"@.len() == 6);
                },
                ObjectType::PpBisector => {
                    reveal_strlit("PlToLine");
                    reveal_strlit("PpBisector");
                    assert("PlToLine"@.len() == 8);
                    assert("PpBisector"@.len() == 10);
                },
                ObjectType::PpToLine => {
                    reveal_strlit("PlToLine");
                    reveal_strlit("PpToLine");
                    assert("PlToLine"@[1] == 'l');
                    assert("PpToLine"@[1] == 'p');
                },
                ObjectType::PlToLine => {},
                ObjectType::TwoPointDistanceInvariant => {
                    reveal_strlit("PlToLine");
                    reveal_strlit("TwoPointDistanceInvariant");
                    assert("PlToLine"@.len() == 8);
                    assert("TwoPointDistanceInvariant"@.len() == 25);
                },
                ObjectType::PointToLineDistanceInvariant => {
                    reveal_strlit("PlToLine");
                    reveal_strlit("PointToLineDistanceInvariant");
                    assert("PlToLine"@.len() == 8);
                    assert("PointToLineDistanceInvariant"@.len() == 28);
                },
                ObjectType::TwoLineAngleInvariant => {
                    reveal_strlit("PlToLine");
                    reveal_strlit("TwoLineAngleInvariant");
                    assert("PlToLine"@.len() == 8);
                    assert("TwoLineAngleInvariant"@.len() == 21);
                },
                ObjectType::Invariant => {
                    reveal_strlit("PlToLine");
                    reveal_strlit("Invariant");
                    assert("PlToLine"@.len() == 8);
                    assert("Invariant"@.len() == 9);
                },
                ObjectType::Locus => {
                    reveal_strlit("PlToLine");
                    reveal_strlit("Locus");
                    assert("PlToLine"@.len() == 8);
                    assert("Locus"@.len() == 5);
                },
                ObjectType::Parameter => {
                    reveal_strlit("PlToLine");
                    reveal_strlit("Parameter");
                    assert("PlToLine"@.len() == 8);
                    assert("Parameter"@.len() == 9);
                },
            }
        },
        ObjectType::TwoPointDistanceInvariant => {
            match b {
                ObjectType::FixedPoint => {
                    reveal_strlit("TwoPointDistanceInvariant");
                    reveal_strlit("FixedPoint");
                    assert("TwoPointDistanceInvariant"@.len() == 25);
                    assert("FixedPoint"@.len() == 10);
                },
                ObjectType::FreePoint => {
                    reveal_strlit("TwoPointDistanceInvariant");
                    reveal_strlit("FreePoint");
                    assert("TwoPointDistanceInvariant"@.len() == 25);
                    assert("FreePoint"@.len() == 9);
                },
                ObjectType::Midpoint => {
                    reveal_strlit("TwoPointDistanceInvariant");
                    reveal_strlit("Midpoint");
                    assert("TwoPointDistanceInvariant"@.len() == 25);
                    assert("Midpoint"@.len() == 8);
                },
                ObjectType::IntersectionPoint => {
                    reveal_strlit("TwoPointDistanceInvariant");
                    reveal_strlit("IntersectionPoint");
                    assert("TwoPointDistanceInvariant"@.len() == 25);
                    assert("IntersectionPoint"@.len() == 17);
                },
                ObjectType::SlidingPoint => {
                    reveal_strlit("TwoPointDistanceInvariant");
                    reveal_strlit("SlidingPoint");
                    assert("TwoPointDistanceInvariant"@.len() == 25);
                    assert("SlidingPoint"@.len() == 12);
                },
                ObjectType::Projection => {
                    reveal_strlit("TwoPointDistanceInvariant");
                    reveal_strlit("Projection");
                    assert("TwoPointDistanceInvariant"@.len() == 25);
                    assert("Projection"@.len() == 10);
                },
                ObjectType::Reflection => {
                    reveal_strlit("TwoPointDistanceInvariant");
                    reveal_strlit("Reflection");
                    assert("TwoPointDistanceInvariant"@.len() == 25);
                    assert("Reflection"@.len() == 10);
                },
                ObjectType::LineAB => {
                    reveal_strlit("TwoPointDistanceInvariant");
                    reveal_strlit("LineAB");
                    assert("TwoPointDistanceInvariant"@.len() == 25);
                    assert("LineAB"@.len() == 6);
                },
                ObjectType::PpBisector => {
                    reveal_strlit("TwoPointDistanceInvariant");
                    reveal_strlit("PpBisector");
                    assert("TwoPointDistanceInvariant"@.len() == 25);
                    assert("PpBisector"@.len() == 10);
                },
                ObjectType::PpToLine => {
                    reveal_strlit("TwoPointDistanceInvariant");
                    reveal_strlit("PpToLine");
                    assert("TwoPointDistanceInvariant"@.len() == 25);
                    assert("PpToLine"@.len() == 8);
                },
                ObjectType::PlToLine => {
                    reveal_strlit("TwoPointDistanceInvariant");
                    reveal_strlit("PlToLine");
                    assert("TwoPointDistanceInvariant"@.len() == 25);
                    assert("PlToLine"@.len() == 8);
                },
                ObjectType::TwoPointDistanceInvariant => {},
                ObjectType::PointToLineDistanceInvariant => {
                    reveal_strlit("TwoPointDistanceInvariant");
                    reveal_strlit("PointToLineDistanceInvariant");
                    assert("TwoPointDistanceInvariant"@.len() == 25);
                    assert("PointToLineDistanceInvariant"@.len() == 28);
                },
                ObjectType::TwoLineAngleInvariant => {
                    reveal_strlit("TwoPointDistanceInvariant");
                    reveal_strlit("TwoLineAngleInvariant");
                    assert("TwoPointDistanceInvariant"@.len() == 25);
                    assert("TwoLineAngleInvariant"@.len() == 21);
                },
                ObjectType::Invariant => {
                    reveal_strlit("TwoPointDistanceInvariant");
                    reveal_strlit("Invariant");
                    assert("TwoPointDistanceInvariant"@.len() == 25);
                    assert("Invariant"@.len() == 9);
                },
                ObjectType::Locus => {
                    reveal_strlit("TwoPointDistanceInvariant");
                    reveal_strlit("Locus");
                    assert("TwoPointDistanceInvariant"@.len() == 25);
                    assert("Locus"@.len() == 5);
                },
                ObjectType::Parameter => {
                    reveal_strlit("TwoPointDistanceInvariant");
                    reveal_strlit("Parameter");
                    assert("TwoPointDistanceInvariant"@.len() == 25);
                    assert("Parameter"@.len() == 9);
                },
            }
        },
        ObjectType::PointToLineDistanceInvariant => {
            match b {
                ObjectType::FixedPoint => {
                    reveal_strlit("PointToLineDistanceInvariant");
                    reveal_strlit("FixedPoint");
                    assert("PointToLineDistanceInvariant"@.len() == 28);
                    assert("FixedPoint"@.len() == 10);
                },
                ObjectType::FreePoint => {
                    reveal_strlit("PointToLineDistanceInvariant");
                    reveal_strlit("FreePoint");
                    assert("PointToLineDistanceInvariant"@.len() == 28);
                    assert("FreePoint"@.len() == 9);
                },
                ObjectType::Midpoint => {
                    reveal_strlit("PointToLineDistanceInvariant");
                    reveal_strlit("Midpoint");
                    assert("PointToLineDistanceInvariant"@.len() == 28);
                    assert("Midpoint"@.len() == 8);
                },
                ObjectType::IntersectionPoint => {
                    reveal_strlit("PointToLineDistanceInvariant");
                    reveal_strlit("IntersectionPoint");
                    assert("PointToLineDistanceInvariant"@.len() == 28);
                    assert("IntersectionPoint"@.len() == 17);
                },
                ObjectType::SlidingPoint => {
                    reveal_strlit("PointToLineDistanceInvariant");
                    reveal_strlit("SlidingPoint");
                    assert("PointToLineDistanceInvariant"@.len() == 28);
                    assert("SlidingPoint"@.len() == 12);
                },
                ObjectType::Projection => {
                    reveal_strlit("PointToLineDistanceInvariant");
                    reveal_strlit("Projection");
                    assert("PointToLineDistanceInvariant"@.len() == 28);
                    assert("Projection"@.len() == 10);
                },
                ObjectType::Reflection => {
                    reveal_strlit("PointToLineDistanceInvariant");
                    reveal_strlit("Reflection");
                    assert("PointToLineDistanceInvariant"@.len() == 28);
                    assert("Reflection"@.len() == 10);
                },
                ObjectType::LineAB => {
                    reveal_strlit("PointToLineDistanceInvariant");
                    reveal_strlit("LineAB");
                    assert("PointToLineDistanceInvariant"@.len() == 28);
                    assert("LineAB"@.len() == 6);
                },
                ObjectType::PpBisector => {
                    reveal_strlit("PointToLineDistanceInvariant");
                    reveal_strlit("PpBisector");
                    assert("PointToLineDistanceInvariant"@.len() == 28);
                    assert("PpBisector"@.len() == 10);
                },
                ObjectType::PpToLine => {
                    reveal_strlit("PointToLineDistanceInvariant");
                    reveal_strlit("PpToLine");
                    assert("PointToLineDistanceInvariant"@.len() == 28);
                    assert("PpToLine"@.len() == 8);
                },
                ObjectType::PlToLine => {
                    reveal_strlit("PointToLineDistanceInvariant");
                    reveal_strlit("PlToLine");
                    assert("PointToLineDistanceInvariant"@.len() == 28);
                    assert("PlToLine"@.len() == 8);
                },
                ObjectType::TwoPointDistanceInvariant => {
                    reveal_strlit("PointToLineDistanceInvariant");
                    reveal_strlit("TwoPointDistanceInvariant");
                    assert("PointToLineDistanceInvariant"@.len() == 28);
                    assert("TwoPointDistanceInvariant"@.len() == 25);
                },
                ObjectType::PointToLineDistanceInvariant => {},
                ObjectType::TwoLineAngleInvariant => {
                    reveal_strlit("PointToLineDistanceInvariant");
                    reveal_strlit("TwoLineAngleInvariant");
                    assert("PointToLineDistanceInvariant"@.len() == 28);
                    assert("TwoLineAngleInvariant"@.len() == 21);
                },
                ObjectType::Invariant => {
                    reveal_strlit("PointToLineDistanceInvariant");
                    reveal_strlit("Invariant");
                    assert("PointToLineDistanceInvariant"@.len() == 28);
                    assert("Invariant"@.len() == 9);
                },
                ObjectType::Locus => {
                    reveal_strlit("PointToLineDistanceInvariant");
                    reveal_strlit("Locus");
                    assert("PointToLineDistanceInvariant"@.len() == 28);
                    assert("Locus"@.len() == 5);
                },
                ObjectType::Parameter => {
                    reveal_strlit("PointToLineDistanceInvariant");
                    reveal_strlit("Parameter");
                    assert("PointToLineDistanceInvariant"@.len() == 28);
                    assert("Parameter"@.len() == 9);
                },
            }
        },
        ObjectType::TwoLineAngleInvariant => {
            match b {
                ObjectType::FixedPoint => {
                    reveal_strlit("TwoLineAngleInvariant");
                    reveal_strlit("FixedPoint");
                    assert("TwoLineAngleInvariant"@.len() == 21);
                    assert("FixedPoint"@.len() == 10);
                },
                ObjectType::FreePoint => {
                    reveal_strlit("TwoLineAngleInvariant");
                    reveal_strlit("FreePoint");
                    assert("TwoLineAngleInvariant"@.len() == 21);
                    assert("FreePoint"@.len() == 9);
                },
                ObjectType::Midpoint => {
                    reveal_strlit("TwoLineAngleInvariant");
                    reveal_strlit("Midpoint");
                    assert("TwoLineAngleInvariant"@.len() == 21);
                    assert("Midpoint"@.len() == 8);
                },
                ObjectType::IntersectionPoint => {
                    reveal_strlit("TwoLineAngleInvariant");
                    reveal_strlit("IntersectionPoint");
                    assert("TwoLineAngleInvariant"@.len() == 21);
                    assert("IntersectionPoint"@.len() == 17);
                },
                ObjectType::SlidingPoint => {
                    reveal_strlit("TwoLineAngleInvariant");
                    reveal_strlit("SlidingPoint");
                    assert("TwoLineAngleInvariant"@.len() == 21);
                    assert("SlidingPoint"@.len() == 12);
                },
                ObjectType::Projection => {
                    reveal_strlit("TwoLineAngleInvariant");
                    reveal_strlit("Projection");
                    assert("TwoLineAngleInvariant"@.len() == 21);
                    assert("Projection"@.len() == 10);
                },
                ObjectType::Reflection => {
                    reveal_strlit("TwoLineAngleInvariant");
                    reveal_strlit("Reflection");
                    assert("TwoLineAngleInvariant"@.len() == 21);
                    assert("Reflection"@.len() == 10);
                },
                ObjectType::LineAB => {
                    reveal_strlit("TwoLineAngleInvariant");
                    reveal_strlit("LineAB");
                    assert("TwoLineAngleInvariant"@.len() == 21);
                    assert("LineAB"@.len() == 6);
                },
                ObjectType::PpBisector => {
                    reveal_strlit("TwoLineAngleInvariant");
                    reveal_strlit("PpBisector");
                    assert("TwoLineAngleInvariant"@.len() == 21);
                    assert("PpBisector"@.len() == 10);
                },
                ObjectType::PpToLine => {
                    reveal_strlit("TwoLineAngleInvariant");
                    reveal_strlit("PpToLine");
                    assert("TwoLineAngleInvariant"@.len() == 21);
                    assert("PpToLine"@.len() == 8);
                },
                ObjectType::PlToLine => {
                    reveal_strlit("TwoLineAngleInvariant");
                    reveal_strlit("PlToLine");
                    assert("TwoLineAngleInvariant"@.len() == 21);
                    assert("PlToLine"@.len() == 8);
                },
                ObjectType::TwoPointDistanceInvariant => {
                    reveal_strlit("TwoLineAngleInvariant");
                    reveal_strlit("TwoPointDistanceInvariant");
                    assert("TwoLineAngleInvariant"@.len() == 21);
                    assert("TwoPointDistanceInvariant"@.len() == 25);
                },
                ObjectType::PointToLineDistanceInvariant => {
                    reveal_strlit("TwoLineAngleInvariant");
                    reveal_strlit("PointToLineDistanceInvariant");
                    assert("TwoLineAngleInvariant"@.len() == 21);
                    assert("PointToLineDistanceInvariant"@.len() == 28);
                },
                ObjectType::TwoLineAngleInvariant => {},
                ObjectType::Invariant => {
                    reveal_strlit("TwoLineAngleInvariant");
                    reveal_strlit("Invariant");
                    assert("TwoLineAngleInvariant"@.len() == 21);
                    assert("Invariant"@.len() == 9);
                },
                ObjectType::Locus => {
                    reveal_strlit("TwoLineAngleInvariant");
                    reveal_strlit("Locus");
                    assert("TwoLineAngleInvariant"@.len() == 21);
                    assert("Locus"@.len() == 5);
                },
                ObjectType::Parameter => {
                    reveal_strlit("TwoLineAngleInvariant");
                    reveal_strlit("Parameter");
                    assert("TwoLineAngleInvariant"@.len() == 21);
                    assert("Parameter"@.len() == 9);
                },
            }
        },
        ObjectType::Invariant => {
            match b {
                ObjectType::FixedPoint => {
                    reveal_strlit("Invariant");
                    reveal_strlit("FixedPoint");
                    assert("Invariant"@.len() == 9);
                    assert("FixedPoint"@.len() == 10);
                },
                ObjectType::FreePoint => {
                    reveal_strlit("Invariant");
                    reveal_strlit("FreePoint");
                    assert("Invariant"@[0] == 'I');
                    assert("FreePoint"@[0] == 'F');
                },
                ObjectType::Midpoint => {
                    reveal_strlit("Invariant");
                    reveal_strlit("Midpoint");
                    assert("Invariant"@.len() == 9);
                    assert("Midpoint"@.len() == 8);
                },
                ObjectType::IntersectionPoint => {
                    reveal_strlit("Invariant");
                    reveal_strlit("IntersectionPoint");
                    assert("Invariant"@.len() == 9);
                    assert("IntersectionPoint"@.len() == 17);
                },
                ObjectType::SlidingPoint => {
                    reveal_strlit("Invariant");
                    reveal_strlit("SlidingPoint");
                    assert("Invariant"@.len() == 9);
                    assert("SlidingPoint"@.len() == 12);
                },
                ObjectType::Projection => {
                    reveal_strlit("Invariant");
                    reveal_strlit("Projection");
                    assert("Invariant"@.len() == 9);
                    assert("Projection"@.len() == 10);
                },
                ObjectType::Reflection => {
                    reveal_strlit("Invariant");
                    reveal_strlit("Reflection");
                    assert("Invariant"@.len() == 9);
                    assert("Reflection"@.len() == 10);
                },
                ObjectType::LineAB => {
                    reveal_strlit("Invariant");
                    reveal_strlit("LineAB");
                    assert("Invariant"@.len() == 9);
                    assert("LineAB"@.len() == 6);
                },
                ObjectType::PpBisector => {
                    reveal_strlit("Invariant");
                    reveal_strlit("PpBisector");
                    assert("Invariant"@.len() == 9);
                    assert("PpBisector"@.len() == 10);
                },
                ObjectType::PpToLine => {
                    reveal_strlit("Invariant");
                    reveal_strlit("PpToLine");
                    assert("Invariant"@.len() == 9);
                    assert("PpToLine"@.len() == 8);
                },
                ObjectType::PlToLine => {
                    reveal_strlit("Invariant");
                    reveal_strlit("PlToLine");
                    assert("Invariant"@.len() == 9);
                    assert("PlToLine"@.len() == 8);
                },
                ObjectType::TwoPointDistanceInvariant => {
                    reveal_strlit("Invariant");
                    reveal_strlit("TwoPointDistanceInvariant");
                    assert("Invariant"@.len() == 9);
                    assert("TwoPointDistanceInvariant"@.len() == 25);
                },
                ObjectType::PointToLineDistanceInvariant => {
                    reveal_strlit("Invariant");
                    reveal_strlit("PointToLineDistanceInvariant");
                    assert("Invariant"@.len() == 9);
                    assert("PointToLineDistanceInvariant"@.len() == 28);
                },
                ObjectType::TwoLineAngleInvariant => {
                    reveal_strlit("Invariant");
                    reveal_strlit("TwoLineAngleInvariant");
                    assert("Invariant"@.len() == 9);
                    assert("TwoLineAngleInvariant"@.len() == 21);
                },
                ObjectType::Invariant => {},
                ObjectType::Locus => {
                    reveal_strlit("Invariant");
                    reveal_strlit("Locus");
                    assert("Invariant"@.len() == 9);
                    assert("Locus"@.len() == 5);
                },
                ObjectType::Parameter => {
                    reveal_strlit("Invariant");
                    reveal_strlit("Parameter");
                    assert("Invariant"@[0] == 'I');
                    assert("Parameter"@[0] == 'P');
                },
            }
        },
        ObjectType::Locus => {
            match b {
                ObjectType::FixedPoint => {
                    reveal_strlit("Locus");
                    reveal_strlit("FixedPoint");
                    assert("Locus"@.len() == 5);
                    assert("FixedPoint"@.len() == 10);
                },
                ObjectType::FreePoint => {
                    reveal_strlit("Locus");
                    reveal_strlit("FreePoint");
                    assert("Locus"@.len() == 5);
                    assert("FreePoint"@.len() == 9);
                },
                ObjectType::Midpoint => {
                    reveal_strlit("Locus");
                    reveal_strlit("Midpoint");
                    assert("Locus"@.len() == 5);
                    assert("Midpoint"@.len() == 8);
                },
                ObjectType::IntersectionPoint => {
                    reveal_strlit("Locus");
                    reveal_strlit("IntersectionPoint");
                    assert("Locus"@.len() == 5);
                    assert("IntersectionPoint"@.len() == 17);
                },
                ObjectType::SlidingPoint => {
                    reveal_strlit("Locus");
                    reveal_strlit("SlidingPoint");
                    assert("Locus"@.len() == 5);
                    assert("SlidingPoint"@.len() == 12);
                },
                ObjectType::Projection => {
                    reveal_strlit("Locus");
                    reveal_strlit("Projection");
                    assert("Locus"@.len() == 5);
                    assert("Projection"@.len() == 10);
                },
                ObjectType::Reflection => {
                    reveal_strlit("Locus");
                    reveal_strlit("Reflection");
                    assert("Locus"@.len() == 5);
                    assert("Reflection"@.len() == 10);
                },
                ObjectType::LineAB => {
                    reveal_strlit("Locus");
                    reveal_strlit("LineAB");
                    assert("Locus"@.len() == 5);
                    assert("LineAB"@.len() == 6);
                },
                ObjectType::PpBisector => {
                    reveal_strlit("Locus");
                    reveal_strlit("PpBisector");
                    assert("Locus"@.len() == 5);
                    assert("PpBisector"@.len() == 10);
                },
                ObjectType::PpToLine => {
                    reveal_strlit("Locus");
                    reveal_strlit("PpToLine");
                    assert("Locus"@.len() == 5);
                    assert("PpToLine"@.len() == 8);
                },
                ObjectType::PlToLine => {
                    reveal_strlit("Locus");
                    reveal_strlit("PlToLine");
                    assert("Locus"@.len() == 5);
                    assert("PlToLine"@.len() == 8);
                },
                ObjectType::TwoPointDistanceInvariant => {
                    reveal_strlit("Locus");
                    reveal_strlit("TwoPointDistanceInvariant");
                    assert("Locus"@.len() == 5);
                    assert("TwoPointDistanceInvariant"@.len() == 25);
                },
                ObjectType::PointToLineDistanceInvariant => {
                    reveal_strlit("Locus");
                    reveal_strlit("PointToLineDistanceInvariant");
                    assert("Locus"@.len() == 5);
                    assert("PointToLineDistanceInvariant"@.len() == 28);
                },
                ObjectType::TwoLineAngleInvariant => {
                    reveal_strlit("Locus");
                    reveal_strlit("TwoLineAngleInvariant");
                    assert("Locus"@.len() == 5);
                    assert("TwoLineAngleInvariant"@.len() == 21);
                },
                ObjectType::Invariant => {
                    reveal_strlit("Locus");
                    reveal_strlit("Invariant");
                    assert("Locus"@.len() == 5);
                    assert("Invariant"@.len() == 9);
                },
                ObjectType::Locus => {},
                ObjectType::Parameter => {
                    reveal_strlit("Locus");
                    reveal_strlit("Parameter");
                    assert("Locus"@.len() == 5);
                    assert("Parameter"@.len() == 9);
                },
            }
        },
        ObjectType::Parameter => {
            match b {
                ObjectType::FixedPoint => {
                    reveal_strlit("Parameter");
                    reveal_strlit("FixedPoint");
                    assert("Parameter"@.len() == 9);
                    assert("FixedPoint"@.len() == 10);
                },
                ObjectType::FreePoint => {
                    reveal_strlit("Parameter");
                    reveal_strlit("FreePoint");
                    assert("Parameter"@[0] == 'P');
                    assert("FreePoint"@[0] == 'F');
                },
                ObjectType::Midpoint => {
                    reveal_strlit("Parameter");
                    reveal_strlit("Midpoint");
                    assert("Parameter"@.len() == 9);
                    assert("Midpoint"@.len() == 8);
                },
                ObjectType::IntersectionPoint => {
                    reveal_strlit("Parameter");
                    reveal_strlit("IntersectionPoint");
                    assert("Parameter"@.len() == 9);
                    assert("IntersectionPoint"@.len() == 17);
                },
                ObjectType::SlidingPoint => {
                    reveal_strlit("Parameter");
                    reveal_strlit("SlidingPoint");
                    assert("Parameter"@.len() == 9);
                    assert("SlidingPoint"@.len() == 12);
                },
                ObjectType::Projection => {
                    reveal_strlit("Parameter");
                    reveal_strlit("Projection");
                    assert("Parameter"@.len() == 9);
                    assert("Projection"@.len() == 10);
                },
                ObjectType::Reflection => {
                    reveal_strlit("Parameter");
                    reveal_strlit("Reflection");
                    assert("Parameter"@.len() == 9);
                    assert("Reflection"@.len() == 10);
                },
                ObjectType::LineAB => {
                    reveal_strlit("Parameter");
                    reveal_strlit("LineAB");
                    assert("Parameter"@.len() == 9);
                    assert("LineAB"@.len() == 6);
                },
                ObjectType::PpBisector => {
                    reveal_strlit("Parameter");
                    reveal_strlit("PpBisector");
                    assert("Parameter"@.len() == 9);
                    assert("PpBisector"@.len() == 10);
                },
                ObjectType::PpToLine => {
                    reveal_strlit("Parameter");
                    reveal_strlit("PpToLine");
                    assert("Parameter"@.len() == 9);
                    assert("PpToLine"@.len() == 8);
                },
                ObjectType::PlToLine => {
                    reveal_strlit("Parameter");
                    reveal_strlit("PlToLine");
                    assert("Parameter"@.len() == 9);
                    assert("PlToLine"@.len() == 8);
                },
                ObjectType::TwoPointDistanceInvariant => {
                    reveal_strlit("Parameter");
                    reveal_strlit("TwoPointDistanceInvariant");
                    assert("Parameter"@.len() == 9);
                    assert("TwoPointDistanceInvariant"@.len() == 25);
                },
                ObjectType::PointToLineDistanceInvariant => {
                    reveal_strlit("Parameter");
                    reveal_strlit("PointToLineDistanceInvariant");
                    assert("Parameter"@.len() == 9);
                    assert("PointToLineDistanceInvariant"@.len() == 28);
                },
                ObjectType::TwoLineAngleInvariant => {
                    reveal_strlit("Parameter");
                    reveal_strlit("TwoLineAngleInvariant");
                    assert("Parameter"@.len() == 9);
                    assert("TwoLineAngleInvariant"@.len() == 21);
                },
                ObjectType::Invariant => {
                    reveal_strlit("Parameter");
                    reveal_strlit("Invariant");
                    assert("Parameter"@[0] == 'P');
                    assert("Invariant"@[0] == 'I');
                },
                ObjectType::Locus => {
                    reveal_strlit("Parameter");
                    reveal_strlit("Locus");
                    assert("Parameter"@.len() == 9);
                    assert("Locus"@.len() == 5);
                },
                ObjectType::Parameter => {},
            }
        },
    }
}

/// Whether two texts are equal.
pub fn same_text(a: &str, b: &str) -> (r: bool)
    ensures
        r == (a@ == b@),
{
    let x = crate::text::str_chars(a);
    let y = crate::text::str_chars(b);
    if x.len() != y.len() {
        return false;
    }
    let mut i: usize = 0;
    while i < x.len()
        invariant
            x@ == a@,
            y@ == b@,
            x@.len() == y@.len(),
            i <= x@.len(),
            forall|j: int| 0 <= j < i ==> x@[j] == y@[j],
        decreases x@.len() - i,
    {
        if x[i] != y[i] {
            return false;
        }
        i = i + 1;
    }
    assert(x@ =~= y@);
    true
}

/// An object of a scene.
#[derive(Debug, Clone, PartialEq)]
pub enum SceneObject {
    FixedPoint(FixedPoint),
    FreePoint(FreePoint),
    Midpoint(Midpoint),
    IntersectionPoint(IntersectionPoint),
    SlidingPoint(SlidingPoint),
    Projection(Projection),
    PlToLine(PlToLine),
    PointToLineDistanceInvariant(PointToLineDistanceInvariant),
    TwoLineAngleInvariant(TwoLineAngleInvariant),
    Invariant(Invariant),
    Locus(Locus),
    Parameter,
}

/// The Python text of an object named `name`, as the object's own
/// `to_python` gives it.
pub open spec fn object_python(obj: SceneObject, name: Seq<char>) -> Seq<char> {
    match obj {
        SceneObject::FixedPoint(o) => crate::scene_object::fixed_point::fixed_point_python(o.x, o.y, name),
        SceneObject::FreePoint(o) => crate::scene_object::free_point::free_point_python(o.x, o.y, name),
        SceneObject::Midpoint(o) => crate::scene_object::midpoint::midpoint_python(o.point1@, o.point2@, name),
        SceneObject::IntersectionPoint(o) => crate::scene_object::intersection_point::intersection_python(o.object_name_1@, o.object_name_2@, name),
        SceneObject::SlidingPoint(o) => crate::scene_object::sliding_point::sliding_point_python(o.x, o.y, o.constraining_object_name@, name),
        SceneObject::Projection(o) => crate::scene_object::projection::projection_python(o.point@, o.line@, name),
        SceneObject::PlToLine(o) => crate::scene_object::pl_to_line::pl_to_line_python(o.point@, o.line@, name),
        SceneObject::PointToLineDistanceInvariant(o) => crate::scene_object::point_to_line_distance_invariant::point_line_distance_python(o.point@, o.line@, name),
        SceneObject::TwoLineAngleInvariant(o) => crate::scene_object::two_line_angle_invariant::angle_python(o.line1@, o.line2@),
        SceneObject::Invariant(o) => "is_constant("@ + crate::scene_expr::prepared(o.formula@) + ")"@,
        SceneObject::Locus(o) => crate::scene_object::locus::locus_python(o.point@, name),
        SceneObject::Parameter => name + " = Value(next_var(), 0)"@,
    }
}

/// What an object's own `get_dependencies` gives.
pub open spec fn object_dependencies(obj: SceneObject, d: Seq<Seq<char>>) -> bool {
    match obj {
        SceneObject::FixedPoint(o) => d.len() == 0,
        SceneObject::FreePoint(o) => d.len() == 0,
        SceneObject::Midpoint(o) => d == crate::scene_object::midpoint::named(seq![o.point1@, o.point2@]),
        SceneObject::IntersectionPoint(o) => d == seq![o.object_name_1@, o.object_name_2@],
        SceneObject::SlidingPoint(o) => d == seq![o.constraining_object_name@],
        SceneObject::Projection(o) => d == (if o.point@.contains(',') { seq![] } else { seq![o.point@] }) + seq![o.line@],
        SceneObject::PlToLine(o) => d == (if o.point@.contains(',') { seq![] } else { seq![o.point@] }) + seq![o.line@],
        SceneObject::PointToLineDistanceInvariant(o) => d == (if o.point@.contains(',') { seq![] } else { seq![o.point@] }) + seq![o.line@],
        SceneObject::TwoLineAngleInvariant(o) => d == seq![o.line1@, o.line2@],
        SceneObject::Invariant(o) => {
            let ps = crate::scene_expr::regex_pieces(crate::scene_expr::name_pattern(), o.formula@);
            &&& crate::scene_expr::strictly_sorted(d)
            &&& forall|t: Seq<char>| #[trigger] d.contains(t) <==> (crate::scene_expr::has_name_of_kind(ps, t, 1) || (
                crate::scene_expr::has_name_of_kind(ps, t, 0)
                    && !crate::scene_object::formula_invariant::builtin_function(t)))
        },
        SceneObject::Locus(o) => d == seq![o.point@],
        SceneObject::Parameter => d.len() == 0,
    }
}

/// The kind of an object.
pub open spec fn object_type(obj: SceneObject) -> ObjectType {
    match obj {
        SceneObject::FixedPoint(_) => ObjectType::FixedPoint,
        SceneObject::FreePoint(_) => ObjectType::FreePoint,
        SceneObject::Midpoint(_) => ObjectType::Midpoint,
        SceneObject::IntersectionPoint(_) => ObjectType::IntersectionPoint,
        SceneObject::SlidingPoint(_) => ObjectType::SlidingPoint,
        SceneObject::Projection(_) => ObjectType::Projection,
        SceneObject::PlToLine(_) => ObjectType::PlToLine,
        SceneObject::PointToLineDistanceInvariant(_) => ObjectType::PointToLineDistanceInvariant,
        SceneObject::TwoLineAngleInvariant(_) => ObjectType::TwoLineAngleInvariant,
        SceneObject::Invariant(_) => ObjectType::Invariant,
        SceneObject::Locus(_) => ObjectType::Locus,
        SceneObject::Parameter => ObjectType::Parameter,
    }
}

impl SceneObject {
    /// The kind of the object.
    pub fn get_type(&self) -> (r: ObjectType)
        ensures
            r == object_type(*self),
    {
        match self {
            SceneObject::FixedPoint(_) => ObjectType::FixedPoint,
            SceneObject::FreePoint(_) => ObjectType::FreePoint,
            SceneObject::Midpoint(_) => ObjectType::Midpoint,
            SceneObject::IntersectionPoint(_) => ObjectType::IntersectionPoint,
            SceneObject::SlidingPoint(_) => ObjectType::SlidingPoint,
            SceneObject::Projection(_) => ObjectType::Projection,
            SceneObject::PlToLine(_) => ObjectType::PlToLine,
            SceneObject::PointToLineDistanceInvariant(_) => ObjectType::PointToLineDistanceInvariant,
            SceneObject::TwoLineAngleInvariant(_) => ObjectType::TwoLineAngleInvariant,
            SceneObject::Invariant(_) => ObjectType::Invariant,
            SceneObject::Locus(_) => ObjectType::Locus,
            SceneObject::Parameter => ObjectType::Parameter,
        }
    }

    /// The Python lines that define the object (see `object_python`).
    pub fn to_python(&self, name: &str) -> (r: String)
        ensures
            r@ == object_python(*self, name@),
    {
        match self {
            SceneObject::FixedPoint(o) => o.to_python(name),
            SceneObject::FreePoint(o) => o.to_python(name),
            SceneObject::Midpoint(o) => o.to_python(name),
            SceneObject::IntersectionPoint(o) => o.to_python(name),
            SceneObject::SlidingPoint(o) => o.to_python(name),
            SceneObject::Projection(o) => o.to_python(name),
            SceneObject::PlToLine(o) => o.to_python(name),
            SceneObject::PointToLineDistanceInvariant(o) => o.to_python(name),
            SceneObject::TwoLineAngleInvariant(o) => o.to_python(name),
            SceneObject::Invariant(o) => o.to_python(name),
            SceneObject::Locus(o) => o.to_python(name),
            SceneObject::Parameter => {
                let mut s = String::new();
                push_str(&mut s, name);
                push_str(&mut s, " = Value(next_var(), 0)");
                s
            },
        }
    }

    /// The names of the objects this one is built on (see
    /// `object_dependencies`).
    pub fn get_dependencies(&self) -> (r: Vec<String>)
        ensures
            object_dependencies(*self, strings_view(r@)),
    {
        match self {
            SceneObject::FixedPoint(o) => o.get_dependencies(),
            SceneObject::FreePoint(o) => o.get_dependencies(),
            SceneObject::Midpoint(o) => o.get_dependencies(),
            SceneObject::IntersectionPoint(o) => o.get_dependencies(),
            SceneObject::SlidingPoint(o) => o.get_dependencies(),
            SceneObject::Projection(o) => o.get_dependencies(),
            SceneObject::PlToLine(o) => o.get_dependencies(),
            SceneObject::PointToLineDistanceInvariant(o) => o.get_dependencies(),
            SceneObject::TwoLineAngleInvariant(o) => o.get_dependencies(),
            SceneObject::Invariant(o) => o.get_dependencies(),
            SceneObject::Locus(o) => o.get_dependencies(),
            SceneObject::Parameter => Vec::new(),
        }
    }
}

} // verus!
