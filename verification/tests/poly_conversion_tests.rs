use polyalgebra::poly::Poly;

#[test]
fn test_from_poly_expression() {
    // Test case 1: Simple expression "(b + 1)*a - b"
    let result = Poly::from_poly_expression("(b + 1)*a - b").unwrap();
    assert_eq!(result.to_string(), "-b + a + b*a");

    // Test case 2: Simple constant
    let result = Poly::from_poly_expression("5").unwrap();
    assert_eq!(result.to_string(), "5");

    // Test case 3: Simple variable
    let result = Poly::from_poly_expression("a").unwrap();
    assert_eq!(result.to_string(), "a");

    // Test case 4: Simple addition
    let result = Poly::from_poly_expression("a + b").unwrap();
    assert_eq!(result.to_string(), "b + a");

    // Test case 5: Simple subtraction
    let result = Poly::from_poly_expression("a - b").unwrap();
    assert_eq!(result.to_string(), "-b + a");

    // Test case 6: Parenthesized expression
    let result = Poly::from_poly_expression("(a + b)").unwrap();
    assert_eq!(result.to_string(), "b + a");

    // Test case 7: Parenthesized expression with multiplication
    let result = Poly::from_poly_expression("(a + b)*c").unwrap();
    assert_eq!(result.to_string(), "c*b + c*a");

    // Test case 8: Complex expression with multiple parentheses
    let result = Poly::from_poly_expression("(a + b)*c + d").unwrap();
    assert_eq!(result.to_string(), "d + c*b + c*a");

    // Test case 9: Expression with coefficients
    let result = Poly::from_poly_expression("2*a + 3*b").unwrap();
    assert_eq!(result.to_string(), "3*b + 2*a");

    // Test case 10: Expression with exponents
    let result = Poly::from_poly_expression("(-a^2 + b)*c^2 + b*c + b^3").unwrap();
    assert_eq!(result.to_string(), "c*b + c^2*b + b^3 - c^2*a^2");

    // Test case 11: Expression with mixed terms
    let result = Poly::from_poly_expression("2*a^2 + 3*b + 1").unwrap();
    assert_eq!(result.to_string(), "1 + 3*b + 2*a^2");

    // Test case 12: Expression with negative coefficients
    let result = Poly::from_poly_expression("-2*a + 3*b").unwrap();
    assert_eq!(result.to_string(), "3*b - 2*a");

    // Test case 13: Expression with whitespace
    let result = Poly::from_poly_expression("  a  +  b  ").unwrap();
    assert_eq!(result.to_string(), "b + a");

    // Test case 14: Expression with explicit multiplication
    let result = Poly::from_poly_expression("a * b + c").unwrap();
    assert_eq!(result.to_string(), "c + b*a");

    // Test case 15: Empty expression
    let result = Poly::from_poly_expression("").unwrap();
    assert_eq!(result.to_string(), "0");
}

#[test]
fn test_from_poly_expression_edge_cases() {
    // Test case 1: Single negative term
    let result = Poly::from_poly_expression("-a").unwrap();
    assert_eq!(result.to_string(), "-a");

    // Test case 2: Single positive term with plus
    let result = Poly::from_poly_expression("+a").unwrap();
    assert_eq!(result.to_string(), "a");

    // Test case 3: Multiple parentheses
    let result = Poly::from_poly_expression("((a + b))").unwrap();
    assert_eq!(result.to_string(), "b + a");

    // Test case 4: Nested parentheses
    let result = Poly::from_poly_expression("(a + (b + c))").unwrap();
    assert_eq!(result.to_string(), "c + b + a");

    // Test case 5: Expression with multiple variables and exponents
    let result = Poly::from_poly_expression("a^2*b^3 + c*d^2").unwrap();
    assert_eq!(result.to_string(), "d^2*c + b^3*a^2");

    // Test case 6: Expression with coefficient 1
    let result = Poly::from_poly_expression("1*a + 1*b").unwrap();
    assert_eq!(result.to_string(), "b + a");

    // Test case 7: Expression with zero coefficient
    let result = Poly::from_poly_expression("0*a + b").unwrap();
    assert_eq!(result.to_string(), "b");
}

#[test]
fn test_from_poly_expression_complex_case() {
    let input = "((3*y1^2 - 3*y1)*b*a + (3*y1^3 - 3*y1 - 2))*x^2 + ((3*y1^2 - 3*y1 - 2)*b*a + (d + (3*y1^3 - 2*y1 - 1)))*x + ((d + (y1 + 1))*b*a + (d + (y1 + 1)))";
    let result = Poly::from_poly_expression(input).unwrap();
    let poly1 = Poly::new("1 + a*b + x").unwrap();
    let poly2 = Poly::new("1 + y1 - 2*x + d").unwrap();
    let product1 = poly1.multiply(&poly2);
    let poly3 = Poly::new("3*x*y1^2 - 3*x*y1").unwrap();
    let poly4 = Poly::new("1 + a*b + y1").unwrap();
    let poly5 = Poly::new("1 + x").unwrap();
    let product2 = poly3.multiply(&poly4).multiply(&poly5);
    let mut sum = product1;
    sum.add_poly_scaled(&product2, 1);
    assert_eq!(result.to_string(), sum.to_string());
}

#[test]
fn test_as_formatted_equation() {
    // Test simple linear equation: x + y = 0
    let poly = Poly::new("a + b").unwrap();
    let result = poly.as_formatted_equation(0, 1);
    assert_eq!(result, "x + y = 0");

    // Test equation with constant: x² + y² = 25
    let poly = Poly::new("a^2 + b^2 - 25").unwrap();
    let result = poly.as_formatted_equation(0, 1);
    assert_eq!(result, "x² + y² = 25");

    // Test equation with negative constant: x² + y² = -16
    let poly = Poly::new("a^2 + b^2 + 16").unwrap();
    let result = poly.as_formatted_equation(0, 1);
    assert_eq!(result, "-x² - y² = 16");

    // Test equation with mixed terms: 2x²y + 3xy² = 0
    let poly = Poly::new("2*a^2*b + 3*a*b^2").unwrap();
    let result = poly.as_formatted_equation(0, 1);
    assert_eq!(result, "2x²y + 3xy² = 0");

    // Test equation with high degrees: x¹⁰y²⁰ = 0
    let poly = Poly::new("a^10*b^20").unwrap();
    let result = poly.as_formatted_equation(0, 1);
    assert_eq!(result, "x¹⁰y²⁰ = 0");

    // Test equation with negative coefficients: -x² + y² = 0
    let poly = Poly::new("-a^2 + b^2").unwrap();
    let result = poly.as_formatted_equation(0, 1);
    assert_eq!(result, "-x² + y² = 0");

    // Test equation with mixed signs: x² - y² = 1
    let poly = Poly::new("a^2 - b^2 - 1").unwrap();
    let result = poly.as_formatted_equation(0, 1);
    assert_eq!(result, "x² - y² = 1");

    // Test constant equation: 5 = 0
    let poly = Poly::new("5").unwrap();
    let result = poly.as_formatted_equation(0, 1);
    assert_eq!(result, "0 = 5");

    // Test zero equation: 0 = 0
    let poly = Poly::new("0").unwrap();
    let result = poly.as_formatted_equation(0, 1);
    assert_eq!(result, "0 = 0");

    // Test equation with only x terms: x³ = 0
    let poly = Poly::new("a^3").unwrap();
    let result = poly.as_formatted_equation(0, 1);
    assert_eq!(result, "x³ = 0");

    // Test equation with only y terms: y⁴ = 0
    let poly = Poly::new("b^4").unwrap();
    let result = poly.as_formatted_equation(0, 1);
    assert_eq!(result, "y⁴ = 0");
}

#[test]
fn test_degree_to_superscript() {
    assert_eq!(Poly::degree_to_superscript(0), "⁰");
    assert_eq!(Poly::degree_to_superscript(1), "¹");
    assert_eq!(Poly::degree_to_superscript(2), "²");
    assert_eq!(Poly::degree_to_superscript(3), "³");
    assert_eq!(Poly::degree_to_superscript(10), "¹⁰");
    assert_eq!(Poly::degree_to_superscript(25), "²⁵");
    assert_eq!(Poly::degree_to_superscript(100), "¹⁰⁰");
}

