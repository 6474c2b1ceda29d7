use polyalgebra::scene_kinds::{ObjectType, SceneError, SceneObject};
use polyalgebra::scene_object::computed_point::ComputedPoint;
use polyalgebra::scene_object::fixed_point::FixedPoint;
use polyalgebra::scene_object::formula_invariant::Invariant;
use polyalgebra::scene_object::free_point::FreePoint;
use polyalgebra::scene_object::intersection_point::IntersectionPoint;
use polyalgebra::scene_object::locus::Locus;
use polyalgebra::scene_object::midpoint::Midpoint;
use polyalgebra::scene_object::point_to_line_distance_invariant::PointToLineDistanceInvariant;
use polyalgebra::scene_object::sliding_point::SlidingPoint;
use polyalgebra::scene_object::two_line_angle_invariant::TwoLineAngleInvariant;
use polyalgebra::scene_utils::SceneUtils;

fn inv(formula: &str) -> Invariant {
    Invariant { formula: formula.to_string() }
}

fn sorted(mut v: Vec<String>) -> Vec<String> {
    v.sort();
    v
}

fn strings(v: &[&str]) -> Vec<String> {
    v.iter().map(|s| s.to_string()).collect()
}

#[test]
fn invariant_test_to_python_basic() {
    assert_eq!(inv("d(A, B)").to_python("test"), "is_constant(d(A, B))");
}

#[test]
fn test_to_python_with_exponentiation() {
    assert_eq!(inv("x^2 + y^2").to_python("test"), "is_constant(x**i(2) + y**i(2))");
}

#[test]
fn invariant_test_to_python_with_coordinates() {
    assert_eq!(inv("(1, 2) + (3, 4)").to_python("test"), "is_constant((i(1), i(2)) + (i(3), i(4)))");
}

#[test]
fn test_to_python_with_coordinates_and_spaces() {
    assert_eq!(inv("( 1 , 2 ) + ( 3 , 4 )").to_python("test"), "is_constant(( i(1) , i(2) ) + ( i(3) , i(4) ))");
}

#[test]
fn test_to_python_with_standalone_integers() {
    assert_eq!(inv("5 + 10 * 2").to_python("test"), "is_constant(i(5) + i(10) * i(2))");
}

#[test]
fn test_to_python_with_mixed_content() {
    assert_eq!(inv("d(A, B)^2 + (1, 2) * 3").to_python("test"), "is_constant(d(A, B)**i(2) + (i(1), i(2)) * i(3))");
}

#[test]
fn test_to_python_with_nested_coordinates() {
    assert_eq!(inv("((1, 2), (3, 4))").to_python("test"), "is_constant(((i(1), i(2)), (i(3), i(4))))");
}

#[test]
fn test_to_python_with_complex_expression() {
    assert_eq!(inv("sqrt((x1 - x2)^2 + (y1 - y2)^2) + 5").to_python("test"), "is_constant(sqrt((x1 - x2)**i(2) + (y1 - y2)**i(2)) + i(5))");
}

#[test]
fn test_to_python_with_negative_numbers() {
    assert_eq!(inv("-5 + (-3)").to_python("test"), "is_constant(-i(5) + (-i(3)))");
}

#[test]
fn test_to_python_with_zero() {
    assert_eq!(inv("0 + x").to_python("test"), "is_constant(i(0) + x)");
}

#[test]
fn test_to_python_with_large_numbers() {
    assert_eq!(inv("1000000 + 999999").to_python("test"), "is_constant(i(1000000) + i(999999))");
}

#[test]
fn test_to_python_with_mixed_coordinate_formats() {
    assert_eq!(inv("(1/2) + ( 3 , 4 ) + (5, 6)").to_python("test"), "is_constant(q(1, 2) + ( i(3) , i(4) ) + (i(5), i(6)))");
}

#[test]
fn test_to_python_with_single_number() {
    assert_eq!(inv("42").to_python("test"), "is_constant(i(42))");
}

#[test]
fn test_to_python_with_single_coordinate() {
    assert_eq!(inv("(1, 2)").to_python("test"), "is_constant((i(1), i(2)))");
}

#[test]
fn test_to_python_with_single_exponent() {
    assert_eq!(inv("x^2").to_python("test"), "is_constant(x**i(2))");
}

#[test]
fn test_to_python_with_fractional_degree() {
    assert_eq!(inv("d(A, B)^(1/2)").to_python("test"), "is_constant(d(A, B)**q(1, 2))");
}

#[test]
fn scene_object_test_python_generation() {
    let fixed = FixedPoint { x: 10, y: 20 };
    assert_eq!(fixed.to_python("P1"), "P1 = FixedPoint(10, 20)");

    let free = FreePoint { x: 30, y: 40 };
    assert_eq!(free.to_python("P2"), "P2 = FreePoint(30, 40)");

    let sliding = SlidingPoint { x: 20, y: 30, constraining_object_name: "L1".to_string() };
    assert_eq!(sliding.to_python("P3"), "P3 = FreePoint(20, 30)\nL1.contains(P3)");

    let inv1 = inv("d(A, B)");
    assert_eq!(inv1.to_python("I1"), "is_constant(d(A, B))");

    let point_to_line_inv = PointToLineDistanceInvariant { point: "P1".to_string(), line: "L1".to_string() };
    assert_eq!(point_to_line_inv.to_python("I3"), "is_constant(d(P1, L1))");

    let two_line_angle_inv = TwoLineAngleInvariant { line1: "L1".to_string(), line2: "L2".to_string() };
    assert_eq!(two_line_angle_inv.to_python("I4"), "is_constant(cot(L1.n, L2.n).abs())");

    let obj = SceneObject::FixedPoint(fixed);
    assert_eq!(obj.to_python("P1"), "P1 = FixedPoint(10, 20)");

    let obj = SceneObject::FreePoint(free);
    assert_eq!(obj.to_python("P2"), "P2 = FreePoint(30, 40)");

    let obj = SceneObject::SlidingPoint(sliding);
    assert_eq!(obj.to_python("P3"), "P3 = FreePoint(20, 30)\nL1.contains(P3)");

    let obj = SceneObject::Invariant(inv1);
    assert_eq!(obj.to_python("I1"), "is_constant(d(A, B))");

    let midpoint = Midpoint { point1: "P1".to_string(), point2: "P2".to_string() };
    assert_eq!(
        midpoint.to_python("M1"),
        "M1 = Point(Value(next_var(), initial=Value(next_var())), Value(next_var(), initial=Value(next_var())))\nis_zero_vector((P1 - M1) + (P2 - M1))"
    );

    let obj = SceneObject::Midpoint(midpoint);
    assert_eq!(
        obj.to_python("M1"),
        "M1 = Point(Value(next_var(), initial=Value(next_var())), Value(next_var(), initial=Value(next_var())))\nis_zero_vector((P1 - M1) + (P2 - M1))"
    );
}

#[test]
fn scene_object_test_get_dependencies() {
    let fixed = FixedPoint { x: 10, y: 20 };
    assert_eq!(fixed.get_dependencies(), Vec::<String>::new());
    let obj = SceneObject::FixedPoint(fixed);
    assert_eq!(obj.get_dependencies(), Vec::<String>::new());

    let free = FreePoint { x: 30, y: 40 };
    assert_eq!(free.get_dependencies(), Vec::<String>::new());
    let obj = SceneObject::FreePoint(free);
    assert_eq!(obj.get_dependencies(), Vec::<String>::new());

    let sliding = SlidingPoint { x: 50, y: 60, constraining_object_name: "L1".to_string() };
    assert_eq!(sliding.get_dependencies(), vec!["L1"]);
    let obj = SceneObject::SlidingPoint(sliding);
    assert_eq!(obj.get_dependencies(), vec!["L1"]);

    let intersection = IntersectionPoint { object_name_1: "L1".to_string(), object_name_2: "C1".to_string() };
    let expected = sorted(strings(&["L1", "C1"]));
    assert_eq!(sorted(intersection.get_dependencies()), expected);
    let obj = SceneObject::IntersectionPoint(intersection);
    assert_eq!(sorted(obj.get_dependencies()), expected);

    let i1 = inv("d(A, B)");
    let expected = sorted(strings(&["A", "B"]));
    assert_eq!(sorted(i1.get_dependencies()), expected);
    let obj = SceneObject::Invariant(i1);
    assert_eq!(sorted(obj.get_dependencies()), expected);

    let i2 = inv("d(A.x, B.y)");
    assert_eq!(sorted(i2.get_dependencies()), expected);
    let obj = SceneObject::Invariant(i2);
    assert_eq!(sorted(obj.get_dependencies()), expected);

    let i3 = inv("d(A, B) + d(C, D)");
    let expected = sorted(strings(&["A", "B", "C", "D"]));
    assert_eq!(sorted(i3.get_dependencies()), expected);
    let obj = SceneObject::Invariant(i3);
    assert_eq!(sorted(obj.get_dependencies()), expected);

    let i4 = inv("d(A, B) + e(C, D)");
    let expected = sorted(strings(&["A", "B", "C", "D", "e"]));
    assert_eq!(sorted(i4.get_dependencies()), expected);
    let obj = SceneObject::Invariant(i4);
    assert_eq!(sorted(obj.get_dependencies()), expected);

    let locus = Locus { point: "P1".to_string() };
    assert_eq!(locus.get_dependencies(), vec!["P1".to_string()]);
    let obj = SceneObject::Locus(locus);
    assert_eq!(obj.get_dependencies(), vec!["P1".to_string()]);

    let midpoint = Midpoint { point1: "P1".to_string(), point2: "P2".to_string() };
    let expected = sorted(strings(&["P1", "P2"]));
    assert_eq!(sorted(midpoint.get_dependencies()), expected);
    let obj = SceneObject::Midpoint(midpoint);
    assert_eq!(sorted(obj.get_dependencies()), expected);

    let midpoint = Midpoint { point1: "P1".to_string(), point2: "10, 20".to_string() };
    assert_eq!(midpoint.get_dependencies(), vec!["P1".to_string()]);
    let obj = SceneObject::Midpoint(midpoint);
    assert_eq!(obj.get_dependencies(), vec!["P1".to_string()]);

    let midpoint = Midpoint { point1: "10, 20".to_string(), point2: "30, 40".to_string() };
    assert_eq!(midpoint.get_dependencies(), Vec::<String>::new());
    let obj = SceneObject::Midpoint(midpoint);
    assert_eq!(obj.get_dependencies(), Vec::<String>::new());

    let point_to_line_inv = PointToLineDistanceInvariant { point: "P1".to_string(), line: "L1".to_string() };
    let expected = sorted(strings(&["P1", "L1"]));
    assert_eq!(sorted(point_to_line_inv.get_dependencies()), expected);
    let obj = SceneObject::PointToLineDistanceInvariant(point_to_line_inv);
    assert_eq!(sorted(obj.get_dependencies()), expected);

    let point_to_line_inv = PointToLineDistanceInvariant { point: "10, 20".to_string(), line: "L1".to_string() };
    assert_eq!(point_to_line_inv.get_dependencies(), vec!["L1".to_string()]);
    let obj = SceneObject::PointToLineDistanceInvariant(point_to_line_inv);
    assert_eq!(obj.get_dependencies(), vec!["L1".to_string()]);

    let two_line_angle_inv = TwoLineAngleInvariant { line1: "L1".to_string(), line2: "L2".to_string() };
    let expected = sorted(strings(&["L1", "L2"]));
    assert_eq!(sorted(two_line_angle_inv.get_dependencies()), expected);
    let obj = SceneObject::TwoLineAngleInvariant(two_line_angle_inv);
    assert_eq!(sorted(obj.get_dependencies()), expected);
}

#[test]
fn test_computed_point() {
    let computed_point = ComputedPoint {
        x_expr: "A.x + 1".to_string(),
        y_expr: "B.y * 2".to_string(),
        value: "3, 4".to_string(),
    };
    assert_eq!(computed_point.x_expr, "A.x + 1");
    assert_eq!(computed_point.y_expr, "B.y * 2");
    assert_eq!(computed_point.value, "3, 4");
    assert_eq!(computed_point.to_python("C"), "C = Point(A.x + i(1), B.y * i(2))");
    assert_eq!(computed_point.get_dependencies(), vec!["A", "B"]);
}

fn cp(x: &str, y: &str) -> ComputedPoint {
    ComputedPoint { x_expr: x.to_string(), y_expr: y.to_string(), value: "1, 2".to_string() }
}

#[test]
fn computed_point_test_get_dependencies() {
    assert_eq!(cp("A.x", "B.y").get_dependencies(), vec!["A", "B"]);
    assert_eq!(cp("A.x + B.x + C.x", "B.y + D.y").get_dependencies(), vec!["A", "B", "C", "D"]);
    assert_eq!(cp("A.x + B.x", "B.y + A.y").get_dependencies(), vec!["A", "B"]);
    assert_eq!(cp("d(A, B)", "Point(C, D).x").get_dependencies(), vec!["A", "B", "C", "D"]);
    assert_eq!(cp("A.abs()", "B.length()").get_dependencies(), vec!["A", "B"]);
}

#[test]
fn test_extract_identifiers_function_call() {
    let result = SceneUtils::extract_identifiers(&"d(A, X)".to_string());
    assert_eq!(result.function_names, vec!["d"]);
    assert_eq!(result.object_names, vec!["A", "X"]);
    assert_eq!(result.field_names, Vec::<String>::new());
    assert_eq!(result.method_names, Vec::<String>::new());
}

#[test]
fn test_extract_identifiers_field_access() {
    let result = SceneUtils::extract_identifiers(&"B.y + A.x".to_string());
    assert_eq!(result.function_names, Vec::<String>::new());
    assert_eq!(result.object_names, vec!["A", "B"]);
    assert_eq!(result.field_names, vec!["x", "y"]);
    assert_eq!(result.method_names, Vec::<String>::new());
}

#[test]
fn test_extract_identifiers_function_with_number() {
    let result = SceneUtils::extract_identifiers(&"sqrt(2) * t".to_string());
    assert_eq!(result.function_names, vec!["sqrt"]);
    assert_eq!(result.object_names, vec!["t"]);
    assert_eq!(result.field_names, Vec::<String>::new());
    assert_eq!(result.method_names, Vec::<String>::new());
}

#[test]
fn test_extract_identifiers_method_calls() {
    let result = SceneUtils::extract_identifiers(&"t.abs() + u.abs()".to_string());
    assert_eq!(result.function_names, Vec::<String>::new());
    assert_eq!(result.object_names, vec!["t", "u"]);
    assert_eq!(result.field_names, Vec::<String>::new());
    assert_eq!(result.method_names, vec!["abs"]);
}

#[test]
fn test_extract_identifiers_number_only() {
    let result = SceneUtils::extract_identifiers(&"10".to_string());
    assert_eq!(result.function_names, Vec::<String>::new());
    assert_eq!(result.object_names, Vec::<String>::new());
    assert_eq!(result.field_names, Vec::<String>::new());
    assert_eq!(result.method_names, Vec::<String>::new());
}

#[test]
fn identifiers_with_spaces_before_parentheses_and_after_dots() {
    let result = SceneUtils::extract_identifiers(&"f (A) + B. x + B.g ()".to_string());
    assert_eq!(result.function_names, vec!["f"]);
    assert_eq!(result.object_names, vec!["A", "B"]);
    assert_eq!(result.field_names, vec!["x"]);
    assert_eq!(result.method_names, vec!["g"]);
}

#[test]
fn prepare_expression_keeps_names_with_digits() {
    assert_eq!(SceneUtils::prepare_expression(&"x1^3 + (10 / 4)".to_string()), "x1**i(3) + q(10, 4)");
}

#[test]
fn object_types_by_name() {
    assert_eq!(ObjectType::from_str("Midpoint").unwrap(), ObjectType::Midpoint);
    assert_eq!(ObjectType::from_str("Parameter").unwrap(), ObjectType::Parameter);
    assert_eq!(ObjectType::LineAB.to_string(), "LineAB");
    match ObjectType::from_str("Circle") {
        Err(SceneError::InvalidObjectType(s)) => assert_eq!(s, "Circle"),
        _ => panic!("expected an invalid object type"),
    }
}

#[test]
fn scene_object_types_and_parameter() {
    let obj = SceneObject::Parameter;
    assert_eq!(obj.get_type(), ObjectType::Parameter);
    assert_eq!(obj.to_python("t"), "t = Value(next_var(), 0)");
    assert!(obj.get_dependencies().is_empty());
    let obj = SceneObject::Locus(Locus { point: "P".to_string() });
    assert_eq!(obj.get_type(), ObjectType::Locus);
}

#[test]
fn scene_error_messages() {
    assert_eq!(SceneError::InvalidEquation("x".to_string()).to_string(), "Invalid equation: x");
    assert_eq!(SceneError::DependencyNotFound("A".to_string()).to_string(), "Referenced object not found: A");
}

#[test]
fn test_classify_identifiers_by_use() {
    let piece = |before: &str, name: &str, after: &str| (before.to_string(), name.to_string(), after.to_string());
    let pieces = vec![
        piece("", "d", "(A, X.x) + p.len()"),
        piece("d(", "A", ", X.x) + p.len()"),
        piece("d(A, ", "X", ".x) + p.len()"),
        piece("d(A, X.", "x", ") + p.len()"),
        piece("d(A, X.x) + ", "p", ".len()"),
        piece("d(A, X.x) + p.", "len", "()"),
        piece("", "A", ""),
    ];
    let r = SceneUtils::classify_identifiers(&pieces);
    assert_eq!(r.function_names, vec!["d".to_string()]);
    assert_eq!(r.object_names, vec!["A".to_string(), "X".to_string(), "p".to_string()]);
    assert_eq!(r.field_names, vec!["x".to_string()]);
    assert_eq!(r.method_names, vec!["len".to_string()]);
}
