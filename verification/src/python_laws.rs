//! What the Python text of each scene object says, read as Python: which
//! constructor or function each line calls, on which arguments, and which
//! constraints follow.

use vstd::prelude::*;
use crate::text::int_text;
use crate::scene_object::point_text;
use crate::poly_parse::split_on;
use crate::text::trim_ws;
use crate::scene_object::fixed_point::fixed_point_python;
use crate::scene_object::free_point::free_point_python;
use crate::scene_object::intersection_point::intersection_python;
use crate::scene_object::locus::locus_python;
use crate::scene_object::midpoint::midpoint_python;
use crate::scene_object::pl_to_line::pl_to_line_python;
use crate::scene_object::point_to_line_distance_invariant::point_line_distance_python;
use crate::scene_object::projection::projection_python;
use crate::scene_object::sliding_point::sliding_point_python;
use crate::scene_object::two_line_angle_invariant::angle_python;
use crate::scene_object::computed_point::computed_point_python;
use crate::scene_object::formula_invariant::invariant_python;
use crate::scene_expr::prepared;

verus! {

/// Python arguments, separated by `, `.
pub open spec fn py_args(args: Seq<Seq<char>>) -> Seq<char>
    decreases args.len(),
{
    if args.len() == 0 {
        Seq::empty()
    } else if args.len() == 1 {
        args[0]
    } else {
        py_args(args.drop_last()) + seq![',', ' '] + args.last()
    }
}

/// A Python call of `f` on `args`.
pub open spec fn py_call(f: Seq<char>, args: Seq<Seq<char>>) -> Seq<char> {
    f + seq!['('] + py_args(args) + seq![')']
}

/// A Python assignment of `value` to `name`.
pub open spec fn py_assign(name: Seq<char>, value: Seq<char>) -> Seq<char> {
    name + seq![' ', '=', ' '] + value
}

/// A call of the method `m` of `obj`.
pub open spec fn py_method(obj: Seq<char>, m: Seq<char>, args: Seq<Seq<char>>) -> Seq<char> {
    obj + seq!['.'] + py_call(m, args)
}

/// Python lines, separated by line breaks.
pub open spec fn py_lines(ls: Seq<Seq<char>>) -> Seq<char>
    decreases ls.len(),
{
    if ls.len() == 0 {
        Seq::empty()
    } else if ls.len() == 1 {
        ls[0]
    } else {
        py_lines(ls.drop_last()) + seq!['\n'] + ls.last()
    }
}

/// A fresh unknown with a fresh initial value:
/// `Value(next_var(), initial=Value(next_var()))`.
pub open spec fn py_new_value() -> Seq<char> {
    let fresh = py_call("next_var"@, seq![]);
    py_call("Value"@, seq![fresh, "initial="@ + py_call("Value"@, seq![fresh])])
}

/// A new point of two fresh unknowns.
pub open spec fn py_new_point() -> Seq<char> {
    py_call("Point"@, seq![py_new_value(), py_new_value()])
}

proof fn lemma_args2(a: Seq<char>, b: Seq<char>)
    ensures
        py_args(seq![a, b]) == a + seq![',', ' '] + b,
{
    assert(seq![a, b].drop_last() =~= seq![a]);
    assert(py_args(seq![a]) == a);
    assert(seq![a, b].last() == b);
}

proof fn lemma_lines2(a: Seq<char>, b: Seq<char>)
    ensures
        py_lines(seq![a, b]) == a + seq!['\n'] + b,
{
    assert(seq![a, b].drop_last() =~= seq![a]);
    assert(py_lines(seq![a]) == a);
    assert(seq![a, b].last() == b);
}

proof fn lemma_lines3(a: Seq<char>, b: Seq<char>, c: Seq<char>)
    ensures
        py_lines(seq![a, b, c]) == a + seq!['\n'] + b + seq!['\n'] + c,
{
    assert(seq![a, b, c].drop_last() =~= seq![a, b]);
    lemma_lines2(a, b);
}

proof fn lemma_new_value()
    ensures
        py_new_value() == "Value(next_var(), initial=Value(next_var()))"@,
{
    reveal_strlit("next_var");
    reveal_strlit("Value");
    reveal_strlit("initial=");
    reveal_strlit("Value(next_var(), initial=Value(next_var()))");
    let fresh = py_call("next_var"@, seq![]);
    assert(fresh =~= "next_var()"@) by {
        reveal_strlit("next_var()");
    }
    assert(py_args(seq![fresh]) == fresh);
    let inner = py_call("Value"@, seq![fresh]);
    lemma_args2(fresh, "initial="@ + inner);
    assert(py_new_value() =~= "Value(next_var(), initial=Value(next_var()))"@);
}

/// A fixed point is the assignment of a `FixedPoint` call on its coordinates.
pub proof fn law_fixed_point_python(x: i64, y: i64, name: Seq<char>)
    ensures
        fixed_point_python(x, y, name) == py_assign(name, py_call("FixedPoint"@, seq![int_text(x as int), int_text(y as int)])),
{
    reveal_strlit("FixedPoint");
    reveal_strlit(" = FixedPoint(");
    reveal_strlit(", ");
    reveal_strlit(")");
    lemma_args2(int_text(x as int), int_text(y as int));
    assert(fixed_point_python(x, y, name) =~= py_assign(
        name,
        py_call("FixedPoint"@, seq![int_text(x as int), int_text(y as int)]),
    ));
}

/// A free point is the assignment of a `FreePoint` call on its coordinates.
pub proof fn law_free_point_python(x: i64, y: i64, name: Seq<char>)
    ensures
        free_point_python(x, y, name) == py_assign(name, py_call("FreePoint"@, seq![int_text(x as int), int_text(y as int)])),
{
    reveal_strlit("FreePoint");
    reveal_strlit(" = FreePoint(");
    reveal_strlit(", ");
    reveal_strlit(")");
    lemma_args2(int_text(x as int), int_text(y as int));
    assert(free_point_python(x, y, name) =~= py_assign(
        name,
        py_call("FreePoint"@, seq![int_text(x as int), int_text(y as int)]),
    ));
}

/// A projection is the assignment of a `Projection` call on the point and
/// the line.
pub proof fn law_projection_python(point: Seq<char>, line: Seq<char>, name: Seq<char>)
    ensures
        projection_python(point, line, name) == py_assign(name, py_call("Projection"@, seq![point_text(point), line])),
{
    reveal_strlit("Projection");
    reveal_strlit(" = Projection(");
    reveal_strlit(", ");
    reveal_strlit(")");
    lemma_args2(point_text(point), line);
    assert(projection_python(point, line, name) =~= py_assign(
        name,
        py_call("Projection"@, seq![point_text(point), line]),
    ));
}

/// A perpendicular is the assignment of a `PlToLine` call on the point and
/// the line.
pub proof fn law_pl_to_line_python(point: Seq<char>, line: Seq<char>, name: Seq<char>)
    ensures
        pl_to_line_python(point, line, name) == py_assign(name, py_call("PlToLine"@, seq![point_text(point), line])),
{
    reveal_strlit("PlToLine");
    reveal_strlit(" = PlToLine(");
    reveal_strlit(", ");
    reveal_strlit(")");
    lemma_args2(point_text(point), line);
    assert(pl_to_line_python(point, line, name) =~= py_assign(
        name,
        py_call("PlToLine"@, seq![point_text(point), line]),
    ));
}

/// An intersection is a new point, then one line that puts it on the first
/// object and one that puts it on the second.
pub proof fn law_intersection_python(o1: Seq<char>, o2: Seq<char>, name: Seq<char>)
    ensures
        intersection_python(o1, o2, name) == py_lines(
            seq![
                py_assign(name, py_new_point()),
                py_method(o1, "contains"@, seq![name]),
                py_method(o2, "contains"@, seq![name]),
            ],
        ),
{
    reveal_strlit("contains");
    reveal_strlit(".contains(");
    reveal_strlit("Point");
    reveal_strlit(" = Point(");
    reveal_strlit(", ");
    reveal_strlit(")");
    reveal_strlit("\n");
    lemma_new_value();
    let nv = py_new_value();
    lemma_args2(nv, nv);
    assert(py_args(seq![name]) == name);
    let a = py_assign(name, py_new_point());
    let b = py_method(o1, "contains"@, seq![name]);
    let c = py_method(o2, "contains"@, seq![name]);
    lemma_lines3(a, b, c);
    assert(intersection_python(o1, o2, name) =~= a + seq!['\n'] + b + seq!['\n'] + c);
}

/// A sliding point is a free point at its coordinates, then a line that
/// puts it on its object.
pub proof fn law_sliding_point_python(x: i64, y: i64, obj: Seq<char>, name: Seq<char>)
    ensures
        sliding_point_python(x, y, obj, name) == py_lines(
            seq![
                py_assign(name, py_call("FreePoint"@, seq![int_text(x as int), int_text(y as int)])),
                py_method(obj, "contains"@, seq![name]),
            ],
        ),
{
    reveal_strlit("contains");
    reveal_strlit(".contains(");
    reveal_strlit("FreePoint");
    reveal_strlit(" = FreePoint(");
    reveal_strlit(", ");
    reveal_strlit(")");
    reveal_strlit("\n");
    lemma_args2(int_text(x as int), int_text(y as int));
    assert(py_args(seq![name]) == name);
    let a = py_assign(name, py_call("FreePoint"@, seq![int_text(x as int), int_text(y as int)]));
    let b = py_method(obj, "contains"@, seq![name]);
    lemma_lines2(a, b);
    assert(sliding_point_python(x, y, obj, name) =~= a + seq!['\n'] + b);
}

proof fn lemma_point_def(name: Seq<char>)
    ensures
        py_assign(name, py_new_point()) == name + " = Point("@ + "Value(next_var(), initial=Value(next_var()))"@ + ", "@
            + "Value(next_var(), initial=Value(next_var()))"@ + ")"@,
{
    reveal_strlit("Point");
    reveal_strlit(" = Point(");
    reveal_strlit(", ");
    reveal_strlit(")");
    lemma_new_value();
    let nv = py_new_value();
    lemma_args2(nv, nv);
    assert(py_assign(name, py_new_point()) =~= name + " = Point("@ + nv + ", "@ + nv + ")"@);
}

proof fn lemma_zero_vector(x1: Seq<char>, x2: Seq<char>, name: Seq<char>)
    ensures
        py_call(
            "is_zero_vector"@,
            seq![
                py_call(Seq::empty(), seq![x1 + seq![' ', '-', ' '] + name]) + seq![' ', '+', ' '] + py_call(
                    Seq::empty(),
                    seq![x2 + seq![' ', '-', ' '] + name],
                ),
            ],
        ) == "is_zero_vector(("@ + x1 + " - "@ + name + ") + ("@ + x2 + " - "@ + name + "))"@,
{
    reveal_strlit("is_zero_vector");
    reveal_strlit("is_zero_vector((");
    reveal_strlit(" - ");
    reveal_strlit(") + (");
    reveal_strlit("))");
    let d1 = x1 + seq![' ', '-', ' '] + name;
    let d2 = x2 + seq![' ', '-', ' '] + name;
    assert(py_args(seq![d1]) == d1);
    assert(py_args(seq![d2]) == d2);
    let s = py_call(Seq::empty(), seq![d1]) + seq![' ', '+', ' '] + py_call(Seq::empty(), seq![d2]);
    assert(py_args(seq![s]) == s);
    assert(py_call("is_zero_vector"@, seq![s]) =~= "is_zero_vector(("@ + x1 + " - "@ + name + ") + ("@ + x2 + " - "@
        + name + "))"@);
}

/// A midpoint is a new point, then the constraint that its differences to
/// the two points add up to the zero vector.
pub proof fn law_midpoint_python(p1: Seq<char>, p2: Seq<char>, name: Seq<char>)
    ensures
        midpoint_python(p1, p2, name) == py_lines(
            seq![
                py_assign(name, py_new_point()),
                py_call(
                    "is_zero_vector"@,
                    seq![
                        py_call(Seq::empty(), seq![point_text(p1) + seq![' ', '-', ' '] + name]) + seq![' ', '+', ' ']
                            + py_call(Seq::empty(), seq![point_text(p2) + seq![' ', '-', ' '] + name]),
                    ],
                ),
            ],
        ),
{
    reveal_strlit("\n");
    lemma_point_def(name);
    lemma_zero_vector(point_text(p1), point_text(p2), name);
    let a = py_assign(name, py_new_point());
    let b = py_call(
        "is_zero_vector"@,
        seq![
            py_call(Seq::empty(), seq![point_text(p1) + seq![' ', '-', ' '] + name]) + seq![' ', '+', ' '] + py_call(
                Seq::empty(),
                seq![point_text(p2) + seq![' ', '-', ' '] + name],
            ),
        ],
    );
    lemma_lines2(a, b);
    assert(midpoint_python(p1, p2, name) =~= a + seq!['\n'] + b);
}

/// A locus is a `plot` call on its name, quoted, and its point.
pub proof fn law_locus_python(point: Seq<char>, name: Seq<char>)
    ensures
        locus_python(point, name) == py_call("plot"@, seq![seq!['"'] + name + seq!['"'], point]),
{
    reveal_strlit("plot");
    reveal_strlit("plot(\"");
    reveal_strlit("\", ");
    reveal_strlit(")");
    lemma_args2(seq!['"'] + name + seq!['"'], point);
    assert(locus_python(point, name) =~= py_call("plot"@, seq![seq!['"'] + name + seq!['"'], point]));
}

/// A distance invariant says that the distance `d` from the point to the
/// line is constant.
pub proof fn law_point_line_distance_python(point: Seq<char>, line: Seq<char>, name: Seq<char>)
    ensures
        point_line_distance_python(point, line, name) == py_call(
            "is_constant"@,
            seq![py_call("d"@, seq![point_text(point), line])],
        ),
{
    reveal_strlit("is_constant");
    reveal_strlit("d");
    reveal_strlit("is_constant(d(");
    reveal_strlit(", ");
    reveal_strlit("))");
    lemma_args2(point_text(point), line);
    let inner = py_call("d"@, seq![point_text(point), line]);
    assert(py_args(seq![inner]) == inner);
    assert(point_line_distance_python(point, line, name) =~= py_call("is_constant"@, seq![inner]));
}

/// An angle invariant says that the absolute value of the cotangent of the
/// angle between the two lines' normals is constant.
pub proof fn law_angle_python(l1: Seq<char>, l2: Seq<char>)
    ensures
        angle_python(l1, l2) == py_call(
            "is_constant"@,
            seq![py_method(py_call("cot"@, seq![l1 + seq!['.', 'n'], l2 + seq!['.', 'n']]), "abs"@, seq![])],
        ),
{
    reveal_strlit("is_constant");
    reveal_strlit("cot");
    reveal_strlit("abs");
    reveal_strlit("is_constant(cot(");
    reveal_strlit(".n, ");
    reveal_strlit(".n).abs())");
    lemma_args2(l1 + seq!['.', 'n'], l2 + seq!['.', 'n']);
    let inner = py_method(py_call("cot"@, seq![l1 + seq!['.', 'n'], l2 + seq!['.', 'n']]), "abs"@, seq![]);
    assert(py_args(seq![inner]) == inner);
    assert(angle_python(l1, l2) =~= py_call("is_constant"@, seq![inner]));
}

/// A computed point is the assignment of a `Point` call on its two
/// formulas, prepared for Python.
pub proof fn law_computed_point_python(x: Seq<char>, y: Seq<char>, name: Seq<char>)
    ensures
        computed_point_python(x, y, name) == py_assign(name, py_call("Point"@, seq![prepared(x), prepared(y)])),
{
    reveal_strlit("Point");
    reveal_strlit(" = Point(");
    reveal_strlit(", ");
    reveal_strlit(")");
    lemma_args2(prepared(x), prepared(y));
    assert(computed_point_python(x, y, name) =~= py_assign(name, py_call("Point"@, seq![prepared(x), prepared(y)])));
}

/// A formula invariant is an `is_constant` call on the formula, prepared
/// for Python.
pub proof fn law_invariant_python(f: Seq<char>)
    ensures
        invariant_python(f) == py_call("is_constant"@, seq![prepared(f)]),
{
    reveal_strlit("is_constant");
    reveal_strlit("is_constant(");
    reveal_strlit(")");
    assert(py_args(seq![prepared(f)]) == prepared(f));
    assert(invariant_python(f) =~= py_call("is_constant"@, seq![prepared(f)]));
}

/// A point given by coordinates `x, y` becomes a `FixedPoint` call on the
/// two coordinates, trimmed; a point given by name stays its name.
pub proof fn law_point_text(p: Seq<char>)
    ensures
        p.contains(',') ==> point_text(p) == py_call(
            "FixedPoint"@,
            seq![trim_ws(split_on(p, ',')[0]), trim_ws(split_on(p, ',')[1])],
        ),
        !p.contains(',') ==> point_text(p) == p,
{
    if p.contains(',') {
        reveal_strlit("FixedPoint");
        reveal_strlit("FixedPoint(");
        reveal_strlit(", ");
        reveal_strlit(")");
        let a = trim_ws(split_on(p, ',')[0]);
        let b = trim_ws(split_on(p, ',')[1]);
        lemma_args2(a, b);
        assert(point_text(p) =~= py_call("FixedPoint"@, seq![a, b]));
    }
}

} // verus!
