use polyalgebra::scene_kinds::ObjectType;
use polyalgebra::scene_utils::SceneUtils;

fn validate(objects: &Vec<(String, ObjectType)>, expression: &str) -> Vec<String> {
    let ids = SceneUtils::extract_identifiers(&expression.to_string());
    SceneUtils::expression_errors(&ids, objects)
}

fn scene_with(objects: &[(&str, ObjectType)]) -> Vec<(String, ObjectType)> {
    objects.iter().map(|(n, k)| (n.to_string(), *k)).collect()
}

#[test]
fn test_validate_expression_valid_expressions() {
    let scene = scene_with(&[("A", ObjectType::FixedPoint), ("B", ObjectType::FreePoint)]);
    for expression in ["A.x + B.y", "d(A, B)", "A.x.abs()", "B.length()", "Point(1, 2)", "A.x + B.y + 5"] {
        let messages = validate(&scene, expression);
        assert!(messages.is_empty(), "Expression '{}' should be valid but got messages: {:?}", expression, messages);
    }
}

#[test]
fn test_validate_expression_invalid_field_names() {
    let scene = scene_with(&[]);
    for expression in ["A.z", "B.w", "obj.invalid"] {
        let messages = validate(&scene, expression);
        assert!(!messages.is_empty());
        assert!(messages.iter().any(|msg| msg.contains("Invalid field name")));
    }
}

#[test]
fn test_validate_expression_invalid_method_names() {
    let scene = scene_with(&[("A", ObjectType::FixedPoint)]);
    for expression in ["A.invalid()", "B.unknown()", "obj.bad()"] {
        let messages = validate(&scene, expression);
        assert!(!messages.is_empty());
        assert!(messages.iter().any(|msg| msg.contains("Invalid method name")));
    }
}

#[test]
fn test_validate_expression_invalid_function_names() {
    let scene = scene_with(&[]);
    for expression in ["invalid(A, B)", "unknown(1, 2)", "bad_function()"] {
        let messages = validate(&scene, expression);
        assert!(!messages.is_empty());
        assert!(messages.iter().any(|msg| msg.contains("Invalid function name")));
    }
}

#[test]
fn test_validate_expression_nonexistent_objects() {
    let scene = scene_with(&[]);
    for expression in ["Nonexistent.x", "Missing.y", "d(Nonexistent, B)"] {
        let messages = validate(&scene, expression);
        assert!(!messages.is_empty());
        assert!(messages.iter().any(|msg| msg.contains("not found in scene")));
    }
}

#[test]
fn test_validate_expression_disallowed_object_types() {
    let scene = scene_with(&[("Inv", ObjectType::Invariant)]);
    for expression in ["Inv.x", "d(Inv, A)"] {
        let messages = validate(&scene, expression);
        assert!(!messages.is_empty());
        assert!(messages.iter().any(|msg| msg.contains("not allowed in expressions")));
    }
}

#[test]
fn test_validate_expression_multiple_errors() {
    let scene = scene_with(&[]);
    let messages = validate(&scene, "Nonexistent.invalid() + bad_function(Missing)");
    assert!(messages.len() >= 3);
    assert!(messages.iter().any(|msg| msg.contains("not found in scene")));
    assert!(messages.iter().any(|msg| msg.contains("Invalid method name")));
    assert!(messages.iter().any(|msg| msg.contains("Invalid function name")));
}

#[test]
fn test_validate_expression_empty_expression() {
    assert!(validate(&scene_with(&[]), "").is_empty());
}

#[test]
fn test_validate_expression_numbers_only() {
    assert!(validate(&scene_with(&[]), "123 + 456").is_empty());
}

#[test]
fn validation_messages_in_full() {
    let scene = scene_with(&[("L", ObjectType::Locus), ("A", ObjectType::FixedPoint)]);
    assert_eq!(
        validate(&scene, "A.z + f(L) + A.spin() + Q"),
        vec![
            "Invalid field name: 'z'. Allowed fields are: [\"x\", \"y\", \"o\", \"n\"]".to_string(),
            "Invalid method name: 'spin'. Allowed methods are: [\"abs\", \"length\", \"length_sqr\", \"rotated90\", \"contains\"]".to_string(),
            "Invalid function name: 'f'. Allowed functions are: [\"sqrt\", \"d\", \"d_sqr\", \"cot\", \"Point\", \"Line\", \"Vector\"]".to_string(),
            "Object 'L' has type 'Locus' which is not allowed in expressions".to_string(),
            "Object 'Q' not found in scene".to_string(),
        ]
    );
}
