//! The names that an expression may use are exactly those that the error
//! messages list as allowed.

use vstd::prelude::*;
use crate::python_laws::py_args;
use crate::scene_object::formula_invariant::builtin_function;
use crate::scene_validate::barred_kind;
use crate::scene_kinds::{ObjectType, kind_name};
use crate::scene_validate::{
    allowed_field, allowed_method, allowed_function, fields_tail, methods_tail, functions_tail,
};

verus! {

/// A name in double quotes.
pub open spec fn quoted_name(n: Seq<char>) -> Seq<char> {
    seq!['"'] + n + seq!['"']
}

/// A list of names as the messages print it: `["a", "b"]`.
pub open spec fn quoted_list(ns: Seq<Seq<char>>) -> Seq<char> {
    seq!['['] + py_args(Seq::new(ns.len(), |i: int| quoted_name(ns[i]))) + seq![']']
}

/// The fields that the message for a rejected field lists.
pub open spec fn listed_fields() -> Seq<Seq<char>> {
    seq!["x"@, "y"@, "o"@, "n"@]
}

/// The methods that the message for a rejected method lists.
pub open spec fn listed_methods() -> Seq<Seq<char>> {
    seq!["abs"@, "length"@, "length_sqr"@, "rotated90"@, "contains"@]
}

/// The functions that the message for a rejected function lists.
pub open spec fn listed_functions() -> Seq<Seq<char>> {
    seq!["sqrt"@, "d"@, "d_sqr"@, "cot"@, "Point"@, "Line"@, "Vector"@]
}

/// A field is accepted exactly when the message for a rejected field lists
/// it.
pub proof fn law_allowed_fields(t: Seq<char>)
    ensures
        allowed_field(t) <==> listed_fields().contains(t),
        fields_tail() == "'. Allowed fields are: "@ + quoted_list(listed_fields()),
{
    let ns = listed_fields();
    if allowed_field(t) {
        if t == "x"@ {
            assert(ns[0] == t);
        } else if t == "y"@ {
            assert(ns[1] == t);
        } else if t == "o"@ {
            assert(ns[2] == t);
        } else {
            assert(ns[3] == t);
        }
    }
    reveal_strlit("x");
    reveal_strlit("y");
    reveal_strlit("o");
    reveal_strlit("n");
    reveal_strlit("'. Allowed fields are: ");
    reveal_strlit("'. Allowed fields are: [\"x\", \"y\", \"o\", \"n\"]");
    reveal_with_fuel(py_args, 5);
    let qs = Seq::new(ns.len(), |i: int| quoted_name(ns[i]));
    assert(qs.drop_last().drop_last().drop_last() =~= seq![quoted_name("x"@)]);
    assert(qs.drop_last().drop_last() =~= seq![quoted_name("x"@), quoted_name("y"@)]);
    assert(qs.drop_last() =~= seq![quoted_name("x"@), quoted_name("y"@), quoted_name("o"@)]);
    assert(fields_tail() =~= "'. Allowed fields are: "@ + quoted_list(ns));
}

/// A method is accepted exactly when the message for a rejected method
/// lists it.
pub proof fn law_allowed_methods(t: Seq<char>)
    ensures
        allowed_method(t) <==> listed_methods().contains(t),
        methods_tail() == "'. Allowed methods are: "@ + quoted_list(listed_methods()),
{
    let ns = listed_methods();
    if allowed_method(t) {
        if t == "abs"@ {
            assert(ns[0] == t);
        } else if t == "length"@ {
            assert(ns[1] == t);
        } else if t == "length_sqr"@ {
            assert(ns[2] == t);
        } else if t == "rotated90"@ {
            assert(ns[3] == t);
        } else {
            assert(ns[4] == t);
        }
    }
    reveal_strlit("abs");
    reveal_strlit("length");
    reveal_strlit("length_sqr");
    reveal_strlit("rotated90");
    reveal_strlit("contains");
    reveal_strlit("'. Allowed methods are: ");
    reveal_strlit("'. Allowed methods are: [\"abs\", \"length\", \"length_sqr\", \"rotated90\", \"contains\"]");
    reveal_with_fuel(py_args, 6);
    let qs = Seq::new(ns.len(), |i: int| quoted_name(ns[i]));
    assert(qs.drop_last().drop_last().drop_last().drop_last() =~= seq![quoted_name("abs"@)]);
    assert(qs.drop_last().drop_last().drop_last() =~= seq![quoted_name("abs"@), quoted_name("length"@)]);
    assert(qs.drop_last().drop_last() =~= seq![
        quoted_name("abs"@),
        quoted_name("length"@),
        quoted_name("length_sqr"@),
    ]);
    assert(qs.drop_last() =~= seq![
        quoted_name("abs"@),
        quoted_name("length"@),
        quoted_name("length_sqr"@),
        quoted_name("rotated90"@),
    ]);
    assert(methods_tail() =~= "'. Allowed methods are: "@ + quoted_list(ns));
}

/// A function is accepted exactly when the message for a rejected function
/// lists it.
pub proof fn law_allowed_functions(t: Seq<char>)
    ensures
        allowed_function(t) <==> listed_functions().contains(t),
        functions_tail() == "'. Allowed functions are: "@ + quoted_list(listed_functions()),
{
    let ns = listed_functions();
    if allowed_function(t) {
        if t == "sqrt"@ {
            assert(ns[0] == t);
        } else if t == "d"@ {
            assert(ns[1] == t);
        } else if t == "d_sqr"@ {
            assert(ns[2] == t);
        } else if t == "cot"@ {
            assert(ns[3] == t);
        } else if t == "Point"@ {
            assert(ns[4] == t);
        } else if t == "Line"@ {
            assert(ns[5] == t);
        } else {
            assert(ns[6] == t);
        }
    }
    reveal_strlit("sqrt");
    reveal_strlit("d");
    reveal_strlit("d_sqr");
    reveal_strlit("cot");
    reveal_strlit("Point");
    reveal_strlit("Line");
    reveal_strlit("Vector");
    reveal_strlit("'. Allowed functions are: ");
    reveal_strlit("'. Allowed functions are: [\"sqrt\", \"d\", \"d_sqr\", \"cot\", \"Point\", \"Line\", \"Vector\"]");
    reveal_with_fuel(py_args, 8);
    let qs = Seq::new(ns.len(), |i: int| quoted_name(ns[i]));
    let q = |i: int| quoted_name(ns[i]);
    assert(qs.take(1) =~= seq![q(0)]);
    assert(qs.take(2) =~= seq![q(0), q(1)]);
    assert(qs.take(3) =~= seq![q(0), q(1), q(2)]);
    assert(qs.take(4) =~= seq![q(0), q(1), q(2), q(3)]);
    assert(qs.take(5) =~= seq![q(0), q(1), q(2), q(3), q(4)]);
    assert(qs.take(6) =~= seq![q(0), q(1), q(2), q(3), q(4), q(5)]);
    assert(qs.drop_last() =~= qs.take(6));
    assert(qs.take(6).drop_last() =~= qs.take(5));
    assert(qs.take(5).drop_last() =~= qs.take(4));
    assert(qs.take(4).drop_last() =~= qs.take(3));
    assert(qs.take(3).drop_last() =~= qs.take(2));
    assert(qs.take(2).drop_last() =~= qs.take(1));
    assert(functions_tail() =~= "'. Allowed functions are: "@ + quoted_list(ns));
}

/// The functions that a formula may call without naming an object are the
/// functions that an expression may call.
pub proof fn law_builtin_functions(t: Seq<char>)
    ensures
        builtin_function(t) <==> listed_functions().contains(t),
        builtin_function(t) <==> allowed_function(t),
{
    law_allowed_functions(t);
}

/// `s` ends with `suffix`.
pub open spec fn ends_with(s: Seq<char>, suffix: Seq<char>) -> bool {
    s.len() >= suffix.len() && s.skip(s.len() - suffix.len()) == suffix
}

/// The objects that an expression may not name are the invariants and the
/// loci: the kinds whose name ends with `Invariant`, and `Locus`.
pub proof fn law_barred_kinds(k: ObjectType)
    ensures
        barred_kind(k) <==> (ends_with(kind_name(k), "Invariant"@) || kind_name(k) == "Locus"@),
{
    reveal_strlit("FixedPoint");
    reveal_strlit("FreePoint");
    reveal_strlit("Midpoint");
    reveal_strlit("IntersectionPoint");
    reveal_strlit("SlidingPoint");
    reveal_strlit("Projection");
    reveal_strlit("Reflection");
    reveal_strlit("LineAB");
    reveal_strlit("PpBisector");
    reveal_strlit("PpToLine");
    reveal_strlit("PlToLine");
    reveal_strlit("TwoPointDistanceInvariant");
    reveal_strlit("PointToLineDistanceInvariant");
    reveal_strlit("TwoLineAngleInvariant");
    reveal_strlit("Invariant");
    reveal_strlit("Locus");
    reveal_strlit("Parameter");
    let s = kind_name(k);
    let inv = "Invariant"@;
    if s.len() >= inv.len() && s.skip(s.len() - inv.len()) == inv {
        assert(s[s.len() - 9] == s.skip(s.len() - inv.len())[0]);
        assert(s[s.len() - 8] == s.skip(s.len() - inv.len())[1]);
        assert(s[s.len() - 1] == s.skip(s.len() - inv.len())[8]);
    }
    if barred_kind(k) && k != ObjectType::Locus {
        assert(s.skip(s.len() - inv.len()) =~= inv);
    }
}

} // verus!
