use polyalgebra::poly::Poly;
use std::rc::Rc;

#[test]
fn test_scale() {
    // Test scaling a constant
    let mut p = Poly::new("5").unwrap();
    p.scale(2);
    assert_eq!(p, Poly::new("10").unwrap());

    // Test scaling a simple polynomial
    let mut p = Poly::new("1 + 2*a").unwrap();
    p.scale(3);
    assert_eq!(p, Poly::new("3 + 6*a").unwrap());

    // Test scaling a nested polynomial
    let mut p = Poly::new("1 + 2*b + 3*a").unwrap();
    p.scale(-2);
    assert_eq!(p, Poly::new("-2 - 4*b - 6*a").unwrap());

    // Test scaling with zero
    let mut p = Poly::new("1 + 2*a").unwrap();
    p.scale(0);
    assert_eq!(
        p,
        Poly::Nested(
            0,
            vec![Rc::new(Poly::Constant(0)), Rc::new(Poly::Constant(0)),],
        )
    );

    // Test scaling with cleanup
    let mut p = Poly::new("1 + 2*a + 0*a^2").unwrap();
    p.scale(2);
    p.cleanup();
    assert_eq!(p, Poly::new("2 + 4*a").unwrap());
}

#[test]
fn test_add_poly_scaled_constants() {
    let mut p1 = Poly::new("5").unwrap();
    let p2 = Poly::new("3").unwrap();
    p1.add_poly_scaled(&p2, 2);
    assert_eq!(p1.to_string(), "11"); // 5 + 2*3 = 11
}

#[test]
fn test_add_poly_scaled_constant_to_poly() {
    let mut p1 = Poly::new("1 + 2*a").unwrap();
    let p2 = Poly::new("3").unwrap();
    p1.add_poly_scaled(&p2, 2);
    assert_eq!(p1.to_string(), "7 + 2*a"); // 1 + 2*3 + 2*a
}

#[test]
fn test_add_poly_scaled_same_variable() {
    let mut p1 = Poly::new("1 + 2*a").unwrap();
    let p2 = Poly::new("3 + 4*a").unwrap();
    p1.add_poly_scaled(&p2, 2);
    assert_eq!(p1.to_string(), "7 + 10*a"); // 1 + 2*3 + (2 + 2*4)*a
}

#[test]
fn test_add_poly_scaled_different_variables() {
    let mut p1 = Poly::new("1 + 2*a").unwrap();
    let p2 = Poly::new("3 + 4*b").unwrap();
    p1.add_poly_scaled(&p2, 2);
    assert_eq!(p1.to_string(), "7 + 8*b + 2*a"); // 1 + 2*3 + 2*a + 2*4*b
}

#[test]
fn test_add_poly_scaled_padding() {
    let mut p1 = Poly::new("1 + 2*a").unwrap();
    let p2 = Poly::new("3 + 4*a + 5*a^2").unwrap();
    p1.add_poly_scaled(&p2, 2);
    assert_eq!(p1.to_string(), "7 + 10*a + 10*a^2"); // 1 + 2*3 + (2 + 2*4)*a + 2*5*a^2
}

#[test]
fn test_add_poly_scaled_negative() {
    let mut p1 = Poly::new("1 + 2*a").unwrap();
    let p2 = Poly::new("3 + 4*a").unwrap();
    p1.add_poly_scaled(&p2, -2);
    assert_eq!(p1.to_string(), "-5 - 6*a"); // 1 + (-2)*3 + (2 + (-2)*4)*a
}

#[test]
fn test_add_poly_scaled_subtract_self() {
    let mut p1 = Poly::new("1 + 2*a + 3*b").unwrap();
    let p2 = p1.clone();
    p1.add_poly_scaled(&p2, -1);
    assert_eq!(p1.to_string(), "0"); // p1 - p1 = 0
}

#[test]
fn test_add_poly_scaled_complex1() {
    let mut p1 = Poly::new("a*b + 2*b^2 + a^2").unwrap();
    let p2 = Poly::new("b + b^3 + b*c^2").unwrap();
    p1.add_poly_scaled(&p2, 2);
    assert_eq!(
        p1.to_string(),
        "2*b + 2*c^2*b + 2*b^2 + 2*b^3 + b*a + a^2"
    );
}

#[test]
fn test_add_poly_scaled_complex2() {
    let mut p1 = Poly::new("a^2*b^2 + b^2*c + 3*c^2*a").unwrap();
    let p2 = Poly::new("5*a^2*b^2 + b*c^2 - c^2*a").unwrap();
    p1.add_poly_scaled(&p2, 3);
    assert_eq!(p1.to_string(), "3*c^2*b + c*b^2 + 16*b^2*a^2");
}

#[test]
fn test_add_poly_scaled_complex3() {
    let mut p1 = Poly::new("a^3 + b^3 + c^3").unwrap();
    let p2 = Poly::new("3*a*b*c").unwrap();
    p1.add_poly_scaled(&p2, -1);
    assert_eq!(p1.to_string(), "c^3 + b^3 - 3*c*b*a + a^3");
}

#[test]
fn test_add_poly_scaled_complex4() {
    let mut p1 = Poly::new("a^2 + b^2 + c^2").unwrap();
    let p2 = Poly::new("2*a*b + 2*b*c + 2*c*a").unwrap();
    p1.add_poly_scaled(&p2, 1);
    assert_eq!(p1.to_string(), "c^2 + 2*c*b + b^2 + 2*c*a + 2*b*a + a^2");
}

#[test]
fn test_add_poly_scaled_complex5() {
    let mut p1 = Poly::new("a^4 + b^4 + c^4").unwrap();
    let p2 = Poly::new("4*a^3*b + 6*a^2*b^2 + 4*a*b^3").unwrap();
    p1.add_poly_scaled(&p2, 1);
    assert_eq!(
        p1.to_string(),
        "c^4 + b^4 + 4*b^3*a + 6*b^2*a^2 + 4*b*a^3 + a^4"
    );
}

#[test]
fn test_multiply_constants() {
    let p1 = Poly::new("5").unwrap();
    let p2 = Poly::new("3").unwrap();
    let result = p1.multiply(&p2);
    assert_eq!(result.to_string(), "15");
}

#[test]
fn test_multiply_constant_poly() {
    let p1 = Poly::new("3").unwrap();
    let p2 = Poly::new("1 + 2*a").unwrap();
    let result = p1.multiply(&p2);
    assert_eq!(result.to_string(), "3 + 6*a");
}

#[test]
fn test_multiply_same_variable() {
    let p1 = Poly::new("1 + 2*a").unwrap();
    let p2 = Poly::new("3 + 4*a").unwrap();
    let result = p1.multiply(&p2);
    assert_eq!(result.to_string(), "3 + 10*a + 8*a^2");
}

#[test]
fn test_multiply_different_variables() {
    let p1 = Poly::new("1 + 2*a").unwrap();
    let p2 = Poly::new("3 + 4*b").unwrap();
    let result = p1.multiply(&p2);
    assert_eq!(result.to_string(), "3 + 4*b + 6*a + 8*b*a");
}

#[test]
fn test_multiply_complex1() {
    let p1 = Poly::new("a + b").unwrap();
    let p2 = Poly::new("a - b").unwrap();
    let result = p1.multiply(&p2);
    assert_eq!(result.to_string(), "-b^2 + a^2");
}

#[test]
fn test_multiply_complex2() {
    let p1 = Poly::new("a + b + c").unwrap();
    let p2 = Poly::new("a + b + c").unwrap();
    let result = p1.multiply(&p2);
    assert_eq!(
        result.to_string(),
        "c^2 + 2*c*b + b^2 + 2*c*a + 2*b*a + a^2"
    );
}

#[test]
fn test_multiply_complex3() {
    let p1 = Poly::new("a^2 + b^2").unwrap();
    let p2 = Poly::new("a^2 - b^2").unwrap();
    let result = p1.multiply(&p2);
    assert_eq!(result.to_string(), "-b^4 + a^4");
}

#[test]
fn test_multiply_complex4() {
    let p1 = Poly::new("a^3 + b^3").unwrap();
    let p2 = Poly::new("a + b").unwrap();
    let result = p1.multiply(&p2);
    assert_eq!(result.to_string(), "b^4 + b^3*a + b*a^3 + a^4");
}

#[test]
fn test_multiply_complex5() {
    let p1 = Poly::new("a^2 + b^2 + c^2").unwrap();
    let p2 = Poly::new("a + b + c").unwrap();
    let result = p1.multiply(&p2);
    assert_eq!(
        result.to_string(),
        "c^3 + c^2*b + c*b^2 + b^3 + c^2*a + b^2*a + c*a^2 + b*a^2 + a^3"
    );
}
