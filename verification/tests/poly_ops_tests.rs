use polyalgebra::poly::Poly;
use polyalgebra::poly_struct::SingleOutResult;
use std::rc::Rc;

#[test]
fn test_extract_factor_and_remainder_constant() {
    let p = Rc::new(Poly::new("5").unwrap());
    let (factor, remainder) = p.extract_factor_and_remainder(0, 1);
    assert_eq!(factor.to_string(), "0");
    assert_eq!(remainder.to_string(), "5");
}

#[test]
fn test_extract_factor_and_remainder_higher_variable() {
    let p = Rc::new(Poly::new("1 + 2*b").unwrap());
    let (factor, remainder) = p.extract_factor_and_remainder(0, 1);
    assert_eq!(factor.to_string(), "0");
    assert_eq!(remainder.to_string(), "1 + 2*b");
}

#[test]
fn test_extract_factor_and_remainder_same_variable() {
    let p = Rc::new(Poly::new("1 + 2*a + 3*a^2 + 4*a^3").unwrap());
    let (factor, remainder) = p.extract_factor_and_remainder(0, 2);
    assert_eq!(factor.to_string(), "3 + 4*a");
    assert_eq!(remainder.to_string(), "1 + 2*a");
}

#[test]
fn test_extract_factor_and_remainder_lower_variable() {
    let p = Rc::new(Poly::new("1 + 2*a + 3*a*b + 4*a*b^2").unwrap());
    let (factor, remainder) = p.extract_factor_and_remainder(1, 1);
    assert_eq!(factor.to_string(), "3*a + 4*b*a");
    assert_eq!(remainder.to_string(), "1 + 2*a");
}

#[test]
fn test_single_out() {
    // Test cases for single_out(1) where 1 is 'b'
    let test_cases = vec![
        (
            "2*b - c",
            SingleOutResult::Linear(Rc::new(Poly::new("-1*c").unwrap()), -2),
        ),
        (
            "a - 2*b",
            SingleOutResult::Linear(Rc::new(Poly::new("a").unwrap()), 2),
        ),
        ("b + b^2", SingleOutResult::Nonlinear),
        ("a^2 + b^2", SingleOutResult::Nonlinear),
        (
            "a^2 + b",
            SingleOutResult::Linear(Rc::new(Poly::new("a^2").unwrap()), -1),
        ),
        ("a^2 + a*b", SingleOutResult::Nonlinear),
    ];

    for (input, expected) in test_cases {
        let poly = Poly::new(input).unwrap();
        let result = poly.single_out(1);
        assert_eq!(
            format!("{:?}", result),
            format!("{:?}", expected),
            "Failed for input: {}",
            input
        );
    }
}

#[test]
fn test_substitute_linear() {
    // Test substituting a linear term
    let poly = Poly::new("a + 2*b").unwrap();
    let sub = Poly::new("c + d").unwrap();
    let result = poly.substitute_linear(1, Rc::new(sub), 3).unwrap();
    assert_eq!(result.to_string(), "2*d + 2*c + 3*a");

    // Test substituting a quadratic term
    let poly = Poly::new("a + b^2").unwrap();
    let sub = Poly::new("c + d").unwrap();
    let result = poly.substitute_linear(1, Rc::new(sub), 2).unwrap();
    assert_eq!(result.to_string(), "d^2 + 2*d*c + c^2 + 4*a");

    // Test substituting a term with multiple variables
    let poly = Poly::new("a*b + b^2").unwrap();
    let sub = Poly::new("c + d").unwrap();
    let result = poly.substitute_linear(1, Rc::new(sub), 2).unwrap();
    assert_eq!(result.to_string(), "d^2 + 2*d*c + c^2 + 2*d*a + 2*c*a");
}

#[test]
fn test_compute_factors() {
    // Test case 1: a^2 + a + 1
    let poly = Poly::new("a^2 + a + 1").unwrap();
    let mut factors = vec![Rc::new(Poly::Constant(0)); 5];
    poly.compute_factors(1, &mut factors);
    assert_eq!(factors[0].to_string(), "1 + a + a^2");
    assert_eq!(factors[1].to_string(), "0");
    assert_eq!(factors[2].to_string(), "0");
    assert_eq!(factors[3].to_string(), "0");
    assert_eq!(factors[4].to_string(), "0");

    // Test case 2: b^2 + b + 1
    let poly = Poly::new("b^2 + b + 1").unwrap();
    let mut factors = vec![Rc::new(Poly::Constant(0)); 5];
    poly.compute_factors(1, &mut factors);
    assert_eq!(factors[0].to_string(), "1");
    assert_eq!(factors[1].to_string(), "1");
    assert_eq!(factors[2].to_string(), "1");
    assert_eq!(factors[3].to_string(), "0");
    assert_eq!(factors[4].to_string(), "0");

    // Test case 3: a*b
    let poly = Poly::new("a*b").unwrap();
    let mut factors = vec![Rc::new(Poly::Constant(0)); 5];
    poly.compute_factors(1, &mut factors);
    assert_eq!(factors[0].to_string(), "0");
    assert_eq!(factors[1].to_string(), "a");
    assert_eq!(factors[2].to_string(), "0");
    assert_eq!(factors[3].to_string(), "0");
    assert_eq!(factors[4].to_string(), "0");

    // Test case 4: a^2*b + a*b^2 + 2*b + 1 + a^3
    let poly = Poly::new("a^2*b + a*b^2 + 2*b + 1 + a^3").unwrap();
    let mut factors = vec![Rc::new(Poly::Constant(0)); 5];
    poly.compute_factors(1, &mut factors);
    assert_eq!(factors[0].to_string(), "1 + a^3");
    assert_eq!(factors[1].to_string(), "2 + a^2");
    assert_eq!(factors[2].to_string(), "a");
    assert_eq!(factors[3].to_string(), "0");
    assert_eq!(factors[4].to_string(), "0");

    // Test case 5: c^2 + c + 1
    let poly = Poly::new("c^2 + c + 1").unwrap();
    let mut factors = vec![Rc::new(Poly::Constant(0)); 5];
    poly.compute_factors(1, &mut factors);
    assert_eq!(factors[0].to_string(), "1 + c + c^2");
    assert_eq!(factors[1].to_string(), "0");
    assert_eq!(factors[2].to_string(), "0");
    assert_eq!(factors[3].to_string(), "0");
    assert_eq!(factors[4].to_string(), "0");

    // Test case 6: b*c
    let poly = Poly::new("b*c").unwrap();
    let mut factors = vec![Rc::new(Poly::Constant(0)); 5];
    poly.compute_factors(1, &mut factors);
    assert_eq!(factors[0].to_string(), "0");
    assert_eq!(factors[1].to_string(), "c");
    assert_eq!(factors[2].to_string(), "0");
    assert_eq!(factors[3].to_string(), "0");
    assert_eq!(factors[4].to_string(), "0");

    // Test case 7: c^2*b + c*b^2 + 2*b + 1 + c^3
    let poly = Poly::new("c^2*b + c*b^2 + 2*b + 1 + c^3").unwrap();
    let mut factors = vec![Rc::new(Poly::Constant(0)); 5];
    poly.compute_factors(1, &mut factors);
    assert_eq!(factors[0].to_string(), "1 + c^3");
    assert_eq!(factors[1].to_string(), "2 + c^2");
    assert_eq!(factors[2].to_string(), "c");
    assert_eq!(factors[3].to_string(), "0");
    assert_eq!(factors[4].to_string(), "0");

    // Test case 8: a*b*c + a^2*b^2*c^2
    let poly = Poly::new("a*b*c + a^2*b^2*c^2").unwrap();
    let mut factors = vec![Rc::new(Poly::Constant(0)); 5];
    poly.compute_factors(1, &mut factors);
    assert_eq!(factors[0].to_string(), "0");
    assert_eq!(factors[1].to_string(), "c*a");
    assert_eq!(factors[2].to_string(), "c^2*a^2");
    assert_eq!(factors[3].to_string(), "0");
    assert_eq!(factors[4].to_string(), "0");
}

#[test]
fn test_get_derivative() {
    // Test derivative of constant
    let poly = Poly::new("5").unwrap();
    let result = poly.get_derivative(0);
    assert_eq!(result.to_string(), "0");

    // Test derivative of linear term
    let poly = Poly::new("3 + 2*a").unwrap();
    let result = poly.get_derivative(0);
    assert_eq!(result.to_string(), "2");

    // Test derivative of quadratic term
    let poly = Poly::new("a^2 + 2*a + 1").unwrap();
    let result = poly.get_derivative(0);
    assert_eq!(result.to_string(), "2 + 2*a");

    // Test derivative of cubic term
    let poly = Poly::new("a^3 + 2*a^2 + 3*a + 4").unwrap();
    let result = poly.get_derivative(0);
    assert_eq!(result.to_string(), "3 + 4*a + 3*a^2");

    // Test derivative with respect to higher variable
    let poly = Poly::new("a^2 + 2*a + 1").unwrap();
    let result = poly.get_derivative(1);
    assert_eq!(result.to_string(), "0");

    // Test derivative with respect to lower variable
    let poly = Poly::new("a + 2*b*a + b^2*a").unwrap();
    let result = poly.get_derivative(0);
    assert_eq!(result.to_string(), "1 + 2*b + b^2");

    // Test derivative of product
    let poly = Poly::new("a*b^2").unwrap();
    let result = poly.get_derivative(0);
    assert_eq!(result.to_string(), "b^2");

    // Test derivative of complex polynomial
    let poly = Poly::new("a^2*b^2 + 2*a*b + a^3").unwrap();
    let result = poly.get_derivative(0);
    assert_eq!(result.to_string(), "2*b + 2*b^2*a + 3*a^2");
}

#[test]
fn test_decompose_constant() {
    let poly = Rc::new(Poly::Constant(5));
    let result = poly.decompose(0); // variable 'a'
    assert_eq!(result.len(), 1);
    assert_eq!(result[0], Rc::new(Poly::Constant(5)));
}

#[test]
fn test_decompose_simple_polynomial() {
    let poly = Rc::new(Poly::new("1 + 2*a + 3*a^2").unwrap());
    let result = poly.decompose(0); // variable 'a'
    assert_eq!(result.len(), 3);
    assert_eq!(result[0], Rc::new(Poly::Constant(1))); // constant term
    assert_eq!(result[1], Rc::new(Poly::Constant(2))); // coefficient of a
    assert_eq!(result[2], Rc::new(Poly::Constant(3))); // coefficient of a^2
}

#[test]
fn test_decompose_higher_variable() {
    let poly = Rc::new(Poly::new("1 + 2*b + 3*b^2").unwrap());
    let result = poly.decompose(0); // variable 'a' (lower than 'b')
    assert_eq!(result.len(), 1);
    assert_eq!(result[0], poly); // should return the whole polynomial
}

#[test]
fn test_decompose_lower_variable() {
    let poly = Rc::new(Poly::new("1 + 2*a + 3*a^2").unwrap());
    let result = poly.decompose(1); // variable 'b' (higher than 'a')
    assert_eq!(result.len(), 1);
    assert_eq!(result[0], poly); // should return the whole polynomial
}

#[test]
fn test_decompose_multivariate() {
    let poly = Rc::new(Poly::new("1 + 2*a + 3*b + 4*a*b").unwrap());
    let result = poly.decompose(0); // variable 'a'
    assert_eq!(result.len(), 2);
    // result[0] should be 1 + 3*b (constant term with respect to 'a')
    // result[1] should be 2 + 4*b (coefficient of 'a')
    assert_eq!(result[0], Rc::new(Poly::new("1 + 3*b").unwrap()));
    assert_eq!(result[1], Rc::new(Poly::new("2 + 4*b").unwrap()));
}

#[test]
fn test_decompose_complex_nested() {
    let poly = Rc::new(Poly::new("1 + 2*a + 3*a^2 + 4*b + 5*a*b + 6*a^2*b").unwrap());
    let result = poly.decompose(0); // variable 'a'
    assert_eq!(result.len(), 3);
    // result[0] should be 1 + 4*b (constant term with respect to 'a')
    // result[1] should be 2 + 5*b (coefficient of 'a')
    // result[2] should be 3 + 6*b (coefficient of 'a^2')
    assert_eq!(result[0], Rc::new(Poly::new("1 + 4*b").unwrap()));
    assert_eq!(result[1], Rc::new(Poly::new("2 + 5*b").unwrap()));
    assert_eq!(result[2], Rc::new(Poly::new("3 + 6*b").unwrap()));
}

#[test]
fn test_decompose_zero_polynomial() {
    let poly = Rc::new(Poly::Constant(0));
    let result = poly.decompose(0);
    assert_eq!(result.len(), 1);
    assert_eq!(result[0], Rc::new(Poly::Constant(0)));
}

#[test]
fn test_decompose_single_term() {
    let poly = Rc::new(Poly::new("5*a^3").unwrap());
    let result = poly.decompose(0);
    assert_eq!(result.len(), 4); // 0, 1, 2, 3 degrees
    assert_eq!(result[0], Rc::new(Poly::Constant(0))); // constant term
    assert_eq!(result[1], Rc::new(Poly::Constant(0))); // coefficient of a
    assert_eq!(result[2], Rc::new(Poly::Constant(0))); // coefficient of a^2
    assert_eq!(result[3], Rc::new(Poly::Constant(5))); // coefficient of a^3
}
