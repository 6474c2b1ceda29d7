use polyalgebra::modular_poly::ModularPoly;
use polyalgebra::poly::Poly;
use polyalgebra::poly_ops::VarSearchResult;
use std::collections::HashMap;
use std::rc::Rc;

#[test]
fn test_display_debug() {
    // Test constant
    let p = Poly::new("5").unwrap();
    assert_eq!(p.to_string(), "5");
    assert_eq!(format!("{:?}", p), "Constant(5)");

    // Test simple polynomial
    let p = Poly::new("1 + 2*a + 3*a^2").unwrap();
    assert_eq!(p.to_string(), "1 + 2*a + 3*a^2");
    assert_eq!(
        format!("{:?}", p),
        "Nested(0, [Constant(1), Constant(2), Constant(3)])"
    );

    // Test multivariate polynomial
    let p = Poly::new("1 + 2*a + 3*b + 4*a*b").unwrap();
    assert_eq!(p.to_string(), "1 + 3*b + 2*a + 4*b*a");
    assert_eq!(
        format!("{:?}", p),
        "Nested(0, [Nested(1, [Constant(1), Constant(3)]), Nested(1, [Constant(2), Constant(4)])])"
    );

    // Test nested polynomial with higher variable
    let p = Poly::new("1 + 2*b + 3*b^2").unwrap();
    assert_eq!(p.to_string(), "1 + 2*b + 3*b^2");
    assert_eq!(
        format!("{:?}", p),
        "Nested(1, [Constant(1), Constant(2), Constant(3)])"
    );

    // Test complex polynomial
    let p = Poly::new("a^2*b + 2*a*b^2 + 3*b^3").unwrap();
    assert_eq!(p.to_string(), "3*b^3 + 2*b^2*a + b*a^2");
    assert_eq!(
        format!("{:?}", p),
        "Nested(0, [Nested(1, [Constant(0), Constant(0), Constant(0), Constant(3)]), Nested(1, [Constant(0), Constant(0), Constant(2)]), Nested(1, [Constant(0), Constant(1)])])"
    );
}

#[test]
fn test_constant() {
    let p = Poly::new("5").unwrap();
    assert_eq!(p.to_string(), "5");

    let p = Poly::new("-5").unwrap();
    assert_eq!(p.to_string(), "-5");
}

#[test]
fn test_simple_polynomial() {
    // 2*a^2 + 3*b
    let p = Poly::new("2*a^2 + 3*b").unwrap();
    assert_eq!(p.to_string(), "3*b + 2*a^2");

    // -2*a^2 - 3*b
    let p = Poly::new("-2*a^2 - 3*b").unwrap();
    assert_eq!(p.to_string(), "-3*b - 2*a^2");
}

#[test]
fn test_multivariate_polynomial() {
    // 2*a^2*b + 1*b^3
    let p = Poly::new("2*a^2*b + b^3").unwrap();
    assert_eq!(p.to_string(), "b^3 + 2*b*a^2");

    // -2*a^2*b + 1*b^3
    let p = Poly::new("-2*a^2*b + b^3").unwrap();
    assert_eq!(p.to_string(), "b^3 - 2*b*a^2");

    // 2*a^2*b - 1*b^3
    let p = Poly::new("2*a^2*b - b^3").unwrap();
    assert_eq!(p.to_string(), "-b^3 + 2*b*a^2");
}

#[test]
fn poly_test_cleanup() {
    // Test removing trailing zeros
    let mut p = Poly::Nested(
        0,
        vec![
            Rc::new(Poly::Constant(1)),
            Rc::new(Poly::Constant(2)),
            Rc::new(Poly::Constant(0)),
            Rc::new(Poly::Constant(0)),
        ],
    );
    p.cleanup();
    assert_eq!(p.to_string(), "1 + 2*a");

    // Test removing nested polynomial with single constant
    let mut p = Poly::Nested(
        0,
        vec![
            Rc::new(Poly::Nested(1, vec![Rc::new(Poly::Constant(5))])),
            Rc::new(Poly::Constant(0)),
        ],
    );
    p.cleanup();
    assert_eq!(p.to_string(), "5");

    // Test removing nested polynomial with single constant and trailing zeros
    let mut p = Poly::Nested(
        0,
        vec![
            Rc::new(Poly::Nested(
                1,
                vec![
                    Rc::new(Poly::Constant(5)),
                    Rc::new(Poly::Constant(0)),
                    Rc::new(Poly::Constant(0)),
                ],
            )),
            Rc::new(Poly::Constant(0)),
        ],
    );
    p.cleanup();
    assert_eq!(p.to_string(), "5");

    // Test complex cleanup
    let mut p = Poly::Nested(
        0,
        vec![
            Rc::new(Poly::Nested(
                1,
                vec![
                    Rc::new(Poly::Constant(1)),
                    Rc::new(Poly::Constant(0)),
                    Rc::new(Poly::Constant(0)),
                ],
            )),
            Rc::new(Poly::Constant(0)),
            Rc::new(Poly::Constant(0)),
        ],
    );
    p.cleanup();
    assert_eq!(p.to_string(), "1");

    // Test cleanup with multiple levels
    let mut p = Poly::Nested(
        0,
        vec![
            Rc::new(Poly::Nested(
                1,
                vec![
                    Rc::new(Poly::Nested(
                        2,
                        vec![Rc::new(Poly::Constant(3)), Rc::new(Poly::Constant(0))],
                    )),
                    Rc::new(Poly::Constant(0)),
                ],
            )),
            Rc::new(Poly::Constant(0)),
        ],
    );
    p.cleanup();
    assert_eq!(p.to_string(), "3");

    // Test cleanup in the middle variable
    let mut p = Poly::Nested(
        0,
        vec![
            Rc::new(Poly::Nested(
                1,
                vec![
                    Rc::new(Poly::Nested(
                        2,
                        vec![Rc::new(Poly::Constant(0)), Rc::new(Poly::Constant(2))],
                    )),
                    Rc::new(Poly::Constant(0)),
                ],
            )),
            Rc::new(Poly::Constant(1)),
        ],
    );
    p.cleanup();
    assert_eq!(p.to_string(), "2*c + a");
}

#[test]
fn test_cleanup_removes_empty_branches() {
    let mut p = Poly::Nested(
        1,
        vec![
            Rc::new(Poly::Nested(2, vec![Rc::new(Poly::Constant(0))])),
            Rc::new(Poly::Constant(-2)),
        ],
    );
    p.cleanup();
    let poly1 = Poly::new("-2*b").unwrap();
    assert_eq!(format!("{:?}", p), format!("{:?}", poly1));
}

#[test]
fn test_eq() {
    // Test constant equality
    let p1 = Poly::new("5").unwrap();
    let p2 = Poly::new("5").unwrap();
    assert_eq!(p1, p2);

    let p1 = Poly::new("5").unwrap();
    let p2 = Poly::new("-5").unwrap();
    assert_ne!(p1, p2);

    // Test simple polynomial equality
    let p1 = Poly::new("1 + 2*a").unwrap();
    let p2 = Poly::new("1 + 2*a").unwrap();
    assert_eq!(p1, p2);

    // Test different polynomials
    let p1 = Poly::new("1 + 2*a").unwrap();
    let p2 = Poly::new("1 + 3*a").unwrap();
    assert_ne!(p1, p2);

    // Test nested polynomial equality
    let p1 = Poly::new("1 + 2*b + 3*a").unwrap();
    let p2 = Poly::new("1 + 2*b + 3*a").unwrap();
    assert_eq!(p1, p2);

    // Test different variable indices
    let p1 = Poly::new("1 + 2*a").unwrap();
    let p2 = Poly::new("1 + 2*b").unwrap();
    assert_ne!(p1, p2);

    // Test cleanup and equality
    let mut p1 = Poly::new("1 + 2*a + 0*a^2").unwrap();
    let p2 = Poly::new("1 + 2*a").unwrap();
    p1.cleanup();
    assert_eq!(p1, p2);
}

#[test]
fn test_parse_simple() {
    // Test constant
    assert_eq!((Poly::new("5").unwrap()).to_string(), "5");
    assert_eq!((Poly::new("-5").unwrap()).to_string(), "-5");

    // Test simple polynomial
    assert_eq!((Poly::new("a^2").unwrap()).to_string(), "a^2");
    assert_eq!(
        (Poly::new("2*a^2 + 3*b").unwrap()).to_string(),
        "3*b + 2*a^2"
    );
    assert_eq!(
        (Poly::new("-2*a^2 - 3*b").unwrap()).to_string(),
        "-3*b - 2*a^2"
    );

    // Test multivariate polynomial
    assert_eq!((Poly::new("a*b + a").unwrap()).to_string(), "a + b*a");
    assert_eq!((Poly::new("a*b + b").unwrap()).to_string(), "b + b*a");
}

#[test]
fn test_parse_complex() {
    assert_eq!(
        (Poly::new("2*a*b + 3*b^2").unwrap()).to_string(),
        "3*b^2 + 2*b*a"
    );
    assert_eq!(
        (Poly::new("2*a*b + 1*b^2").unwrap()).to_string(),
        "b^2 + 2*b*a"
    );
    assert_eq!((Poly::new("a*b + b^2").unwrap()).to_string(), "b^2 + b*a");
    assert_eq!((Poly::new("a*b + a^2").unwrap()).to_string(), "b*a + a^2");

    // Test variables with numbers
    assert_eq!((Poly::new("a1 + b2").unwrap()).to_string(), "b2 + a1");
    assert_eq!(
        (Poly::new("2*a1^2 + 3*b2").unwrap()).to_string(),
        "3*b2 + 2*a1^2"
    );

    // Test cleanup during parsing
    assert_eq!(
        (Poly::new("1 + 2*a + 0*a^2").unwrap()).to_string(),
        "1 + 2*a"
    );
    assert_eq!((Poly::new("5 + 0*b").unwrap()).to_string(), "5");
}

#[test]
fn test_get_degree() {
    // Test constant
    let p = Poly::new("5").unwrap();
    assert_eq!(p.get_degree(0), 0);
    assert_eq!(p.get_degree(1), 0);

    // Test simple polynomial
    let p = Poly::new("1 + 2*a + 3*a^2").unwrap();
    assert_eq!(p.get_degree(0), 2); // degree of a
    assert_eq!(p.get_degree(1), 0); // degree of b

    // Test multivariate polynomial
    let p = Poly::new("1 + 2*a + 3*b + 4*a*b + 5*b^2").unwrap();
    assert_eq!(p.get_degree(0), 1); // degree of a
    assert_eq!(p.get_degree(1), 2); // degree of b

    // Test nested polynomial with higher variable
    let p = Poly::new("1 + 2*b + 3*b^2").unwrap();
    assert_eq!(p.get_degree(0), 0); // degree of a
    assert_eq!(p.get_degree(1), 2); // degree of b

    // Test complex polynomial
    let p = Poly::new("a^2*b + 2*a*b^2 + 3*b^3").unwrap();
    assert_eq!(p.get_degree(0), 2); // degree of a
    assert_eq!(p.get_degree(1), 3); // degree of b

    // Test polynomial with multiple variables
    let p = Poly::new("a^2*b^3 + 2*a*b^2*c + 3*b*c^2").unwrap();
    assert_eq!(p.get_degree(0), 2); // degree of a
    assert_eq!(p.get_degree(1), 3); // degree of b
    assert_eq!(p.get_degree(2), 2); // degree of c
}

#[test]
fn test_poly_new() {
    // Test single-variable term with minus sign
    let poly = Poly::new("-a").unwrap();
    assert_eq!(poly.to_string(), "-a");

    // Test negative coefficients
    let poly = Poly::new("2*a*-2*b").unwrap();
    assert_eq!(poly.to_string(), "-4*b*a");

    // Test multiple terms of the same kind
    let poly = Poly::new("a*b + b*a").unwrap();
    assert_eq!(poly.to_string(), "2*b*a");

    // Test multiple constant factors in a single term
    let poly = Poly::new("a*b + a*b*-1").unwrap();
    assert_eq!(poly.to_string(), "0");

    // Test with a negative first factor
    let poly = Poly::new("a*b + -1*a*b").unwrap();
    assert_eq!(poly.to_string(), "0");

    // Verify cleanup was called by checking the string representation
    // If cleanup wasn't called, we might see terms like "0*a*b" or "1*a*b"
    let poly = Poly::new("0*a*b + 1*a*b + 2*a*b").unwrap();
    assert_eq!(poly.to_string(), "3*b*a");
}

#[test]
fn test_observe_coefficients() {
    // Test case 1: Simple constant polynomial
    let poly = Poly::new("5").unwrap();
    let mut observed_coeffs = Vec::new();
    poly.observe_coefficients(|x| observed_coeffs.push(x));
    assert_eq!(observed_coeffs, vec![5]);

    // Test case 2: Simple polynomial with multiple terms
    let poly = Poly::new("2*a + 3*b + 4*c").unwrap();
    let mut observed_coeffs = Vec::new();
    poly.observe_coefficients(|x| observed_coeffs.push(x));
    assert_eq!(observed_coeffs, vec![0, 4, 3, 2]);

    // Test case 3: Complex polynomial with nested structure
    let poly = Poly::new("2*a*b + 3*a^2 + 4*b^2").unwrap();
    let mut observed_coeffs = Vec::new();
    poly.observe_coefficients(|x| observed_coeffs.push(x));
    assert_eq!(observed_coeffs, vec![0, 0, 4, 0, 2, 3]);

    // Test case 4: Polynomial with negative coefficients
    let poly = Poly::new("2*a - 3*b + 4*c").unwrap();
    let mut observed_coeffs = Vec::new();
    poly.observe_coefficients(|x| observed_coeffs.push(x));
    assert_eq!(observed_coeffs, vec![0, 4, -3, 2]);

    // Test case 5: Polynomial with zero coefficients
    let poly = Poly::new("2*a + 0*b + 4*c").unwrap();
    let mut observed_coeffs = Vec::new();
    poly.observe_coefficients(|x| observed_coeffs.push(x));
    assert_eq!(observed_coeffs, vec![0, 4, 2]);

    // Test case 6: Constant polynomial
    let poly = Poly::new("42").unwrap();
    let mut observed_coeffs = Vec::new();
    poly.observe_coefficients(|x| observed_coeffs.push(x));
    assert_eq!(observed_coeffs, vec![42]);

    // Test case 7: Zero polynomial
    let poly = Poly::new("0").unwrap();
    let mut observed_coeffs = Vec::new();
    poly.observe_coefficients(|x| observed_coeffs.push(x));
    assert_eq!(observed_coeffs, vec![0]);

    // Test case 8: Verify polynomial is not mutated
    let poly = Poly::new("2*a + 3*b + 4*c").unwrap();
    let original = poly.to_string();
    poly.observe_coefficients(|_| {}); // Do nothing
    assert_eq!(poly.to_string(), original);
}

#[test]
fn test_observe_coefficients_find_largest() {
    // Test case 1: Find largest coefficient using observe_coefficients
    let poly = Poly::new("2*a + 15*b + 7*c").unwrap();
    let mut max_coeff = i64::MIN;
    poly.observe_coefficients(|x| {
        max_coeff = max_coeff.max(x);
    });
    assert_eq!(max_coeff, 15);

    // Test case 2: Find largest absolute coefficient
    let poly = Poly::new("2*a - 15*b + 7*c").unwrap();
    let mut max_abs_coeff = 0;
    poly.observe_coefficients(|x| {
        max_abs_coeff = max_abs_coeff.max(x.abs());
    });
    assert_eq!(max_abs_coeff, 15);

    // Test case 3: Complex polynomial with large coefficients
    let poly = Poly::new("100*a*b + 250*a^2 + 75*b^2").unwrap();
    let mut max_coeff = i64::MIN;
    poly.observe_coefficients(|x| {
        max_coeff = max_coeff.max(x);
    });
    assert_eq!(max_coeff, 250);

    // Test case 4: Polynomial with negative coefficients
    let poly = Poly::new("-5*a + 3*b - 8*c").unwrap();
    let mut max_coeff = i64::MIN;
    poly.observe_coefficients(|x| {
        max_coeff = max_coeff.max(x);
    });
    assert_eq!(max_coeff, 3);

    // Test case 5: Constant polynomial
    let poly = Poly::new("42").unwrap();
    let mut max_coeff = i64::MIN;
    poly.observe_coefficients(|x| {
        max_coeff = max_coeff.max(x);
    });
    assert_eq!(max_coeff, 42);

    // Test case 6: Zero polynomial
    let poly = Poly::new("0").unwrap();
    let mut max_coeff = i64::MIN;
    poly.observe_coefficients(|x| {
        max_coeff = max_coeff.max(x);
    });
    assert_eq!(max_coeff, 0);

    // Test case 7: All negative coefficients
    let poly = Poly::new("-10*a - 5*b - 20*c").unwrap();
    let mut max_coeff = i64::MIN;
    poly.observe_coefficients(|x| {
        max_coeff = max_coeff.max(x);
    });
    assert_eq!(max_coeff, 0);

    // Test case 8: Mixed positive, negative, and zero
    let poly = Poly::new("100*a - 50*b + 0*c - 75*d").unwrap();
    let mut max_coeff = i64::MIN;
    poly.observe_coefficients(|x| {
        max_coeff = max_coeff.max(x);
    });
    assert_eq!(max_coeff, 100);
}

#[test]
fn test_observe_coefficients_statistics() {
    // Test case 1: Count coefficients
    let poly = Poly::new("2*a + 3*b + 4*c + 5*d").unwrap();
    let mut count = 0;
    poly.observe_coefficients(|_| count += 1);
    assert_eq!(count, 5);

    // Test case 2: Sum of coefficients
    let poly = Poly::new("2*a + 3*b + 4*c + 5*d").unwrap();
    let mut sum = 0;
    poly.observe_coefficients(|x| sum += x);
    assert_eq!(sum, 14);

    // Test case 3: Count positive coefficients
    let poly = Poly::new("2*a - 3*b + 4*c - 5*d").unwrap();
    let mut positive_count = 0;
    poly.observe_coefficients(|x| {
        if x > 0 {
            positive_count += 1;
        }
    });
    assert_eq!(positive_count, 2);

    // Test case 4: Find minimum coefficient
    let poly = Poly::new("2*a - 3*b + 4*c - 5*d").unwrap();
    let mut min_coeff = i64::MAX;
    poly.observe_coefficients(|x| {
        min_coeff = min_coeff.min(x);
    });
    assert_eq!(min_coeff, -5);
}

#[test]
fn test_apply_to_coefficients() {
    // Test case 1: Simple constant polynomial - increment by 1
    let mut poly = Poly::new("5").unwrap();
    poly.apply_to_coefficients(|x| x + 1);
    assert_eq!(poly.to_string(), "6");

    // Test case 2: Simple polynomial with multiple terms - increment by 1
    let mut poly = Poly::new("2*a + 3*b + 4*c").unwrap();
    poly.apply_to_coefficients(|x| x + 1);
    assert_eq!(poly.to_string(), "1 + 5*c + 4*b + 3*a");

    // Test case 3: Complex polynomial with nested structure - increment by 1
    let mut poly = Poly::new("2*a*b + 3*a^2 + 4*b^2").unwrap();
    poly.apply_to_coefficients(|x| x + 1);
    assert_eq!(poly.to_string(), "1 + b + 5*b^2 + a + 3*b*a + 4*a^2");

    // Test case 4: Polynomial with negative coefficients - make absolute
    let mut poly = Poly::new("2*a - 3*b + 4*c").unwrap();
    poly.apply_to_coefficients(|x| x.abs());
    assert_eq!(poly.to_string(), "4*c + 3*b + 2*a");

    // Test case 5: Identity function (should not change anything)
    let mut poly = Poly::new("2*a + 3*b + 4*c").unwrap();
    let original = poly.to_string();
    poly.apply_to_coefficients(|x| x);
    assert_eq!(poly.to_string(), original);

    // Test case 6: Function that makes everything zero
    let mut poly = Poly::new("2*a + 3*b + 4*c").unwrap();
    poly.apply_to_coefficients(|_| 0);
    assert_eq!(poly.to_string(), "0");

    // Test case 7: Function that negates coefficients
    let mut poly = Poly::new("2*a + 3*b + 4*c").unwrap();
    poly.apply_to_coefficients(|x| -x);
    assert_eq!(poly.to_string(), "-4*c - 3*b - 2*a");

    // Test case 8: Function that doubles coefficients
    let mut poly = Poly::new("2*a + 3*b + 4*c").unwrap();
    poly.apply_to_coefficients(|x| x * 2);
    assert_eq!(poly.to_string(), "8*c + 6*b + 4*a");

    // Test case 9: Function that replaces negative coefficients with their absolute value
    let mut poly = Poly::new("2*a - 3*b + 4*c - 5*d").unwrap();
    poly.apply_to_coefficients(|x| if x < 0 { -x } else { x });
    assert_eq!(poly.to_string(), "5*d + 4*c + 3*b + 2*a");

    // Test case 10: Zero polynomial with increment
    let mut poly = Poly::new("0").unwrap();
    poly.apply_to_coefficients(|x| x + 1);
    assert_eq!(poly.to_string(), "1");
}

#[test]
fn test_reduce_coefficients_if_large() {
    // Test case 1: Coefficients below threshold (should not change)
    let mut poly = Poly::new("100*a + 200*b + 300*c").unwrap();
    let original = poly.to_string();
    poly.reduce_coefficients_if_large();
    assert_eq!(poly.to_string(), original);

    // Test case 2: Coefficients above threshold with common factor
    let mut poly = Poly::new("20000*a + 30000*b + 40000*c").unwrap();
    poly.reduce_coefficients_if_large();
    assert_eq!(poly.to_string(), "4*c + 3*b + 2*a");

    // Test case 3: Coefficients above threshold but no common factor (GCD = 1)
    let mut poly = Poly::new("10001*a + 10003*b").unwrap();
    let original = poly.to_string();
    poly.reduce_coefficients_if_large();
    assert_eq!(poly.to_string(), original);

    // Test case 4: Mixed positive and negative coefficients
    let mut poly = Poly::new("20000*a - 30000*b + 40000*c").unwrap();
    poly.reduce_coefficients_if_large();
    assert_eq!(poly.to_string(), "4*c - 3*b + 2*a");

    // Test case 5: Zero coefficients should be ignored in GCD calculation
    let mut poly = Poly::new("20000*a + 0*b + 40000*c").unwrap();
    poly.reduce_coefficients_if_large();
    assert_eq!(poly.to_string(), "2*c + a");

    // Test case 6: Complex polynomial with nested structure
    let mut poly = Poly::new("20000*a*b + 30000*a^2 + 40000*b^2").unwrap();
    poly.reduce_coefficients_if_large();
    assert_eq!(poly.to_string(), "4*b^2 + 2*b*a + 3*a^2");

    // Test case 7: Constant polynomial
    let mut poly = Poly::new("20000").unwrap();
    poly.reduce_coefficients_if_large();
    assert_eq!(poly.to_string(), "1");

    // Test case 8: Empty polynomial (should not panic)
    let mut poly = Poly::new("0").unwrap();
    poly.reduce_coefficients_if_large();
    assert_eq!(poly.to_string(), "0");

    // Test case 9: All coefficients are the same large number
    let mut poly = Poly::new("50000*a + 50000*b + 50000*c").unwrap();
    poly.reduce_coefficients_if_large();
    assert_eq!(poly.to_string(), "c + b + a");

    // Test case 10: Mixed coefficients with some below threshold
    let mut poly = Poly::new("100*a + 20000*b + 300*c").unwrap();
    poly.reduce_coefficients_if_large();
    // Should not change because the largest coefficient (20000) is exactly at threshold
    assert_eq!(poly.to_string(), "3*c + 200*b + a");
}

#[test]
fn test_retain_relevant_polys() {
    // Test case 1: polys "0", "x + y", "x - y" (should remain just "x + y" and "x - y")
    let polys = vec![
        Rc::new(Poly::new("0").unwrap()),
        Rc::new(Poly::new("x + y").unwrap()),
        Rc::new(Poly::new("x - y").unwrap()),
    ];
    let result = Poly::retain_relevant_polys(polys, 23, 24); // x=23, y=24
    assert_eq!(result.len(), 2);
    assert_eq!(result[0].to_string(), "y + x");
    assert_eq!(result[1].to_string(), "-y + x");

    // Test case 2: polys "a + a^2", "x - a", "y - a" (all polys should remain)
    let polys = vec![
        Rc::new(Poly::new("a + a^2").unwrap()),
        Rc::new(Poly::new("x - a").unwrap()),
        Rc::new(Poly::new("y - a").unwrap()),
    ];
    let result = Poly::retain_relevant_polys(polys, 23, 24); // x=23, y=24
    assert_eq!(result.len(), 3);
    assert_eq!(result[0].to_string(), "a + a^2");
    assert_eq!(result[1].to_string(), "x - a");
    assert_eq!(result[2].to_string(), "y - a");

    // Test case 3: polys "a^2 + b^2 - 1", "x - a", "y - x", "b - 1" (all polys should remain)
    let polys = vec![
        Rc::new(Poly::new("-1 + b^2 + a^2").unwrap()),
        Rc::new(Poly::new("x - a").unwrap()),
        Rc::new(Poly::new("y - x").unwrap()),
        Rc::new(Poly::new("-1 + b").unwrap()),
    ];
    let result = Poly::retain_relevant_polys(polys, 23, 24); // x=23, y=24
    assert_eq!(result.len(), 4);
    assert_eq!(result[0].to_string(), "-1 + b^2 + a^2");
    assert_eq!(result[1].to_string(), "x - a");
    assert_eq!(result[2].to_string(), "y - x");
    assert_eq!(result[3].to_string(), "-1 + b");

    // Test case 4: polys "a + b + c", "x + y", "x - y" (only "x + y" and "x - y" should remain)
    let polys = vec![
        Rc::new(Poly::new("a + b + c").unwrap()),
        Rc::new(Poly::new("x + y").unwrap()),
        Rc::new(Poly::new("x - y").unwrap()),
    ];
    let result = Poly::retain_relevant_polys(polys, 23, 24); // x=23, y=24
    assert_eq!(result.len(), 2);
    assert_eq!(result[0].to_string(), "y + x");
    assert_eq!(result[1].to_string(), "-y + x");
}

#[test]
fn test_retain_relevant_polys_edge_cases() {
    // Test case 1: Empty input
    let polys: Vec<Rc<Poly>> = vec![];
    let result = Poly::retain_relevant_polys(polys, 0, 1);
    assert_eq!(result.len(), 0);

    // Test case 2: Single polynomial with x and y
    let polys = vec![Rc::new(Poly::new("x + y").unwrap())];
    let result = Poly::retain_relevant_polys(polys, 23, 24);
    assert_eq!(result.len(), 1);
    assert_eq!(result[0].to_string(), "y + x");

    // Test case 3: Single polynomial without x or y
    let polys = vec![Rc::new(Poly::new("a + b").unwrap())];
    let result = Poly::retain_relevant_polys(polys, 23, 24);
    assert_eq!(result.len(), 0);

    // Test case 4: Multiple polynomials, none with x or y
    let polys = vec![
        Rc::new(Poly::new("a + b").unwrap()),
        Rc::new(Poly::new("c + d").unwrap()),
        Rc::new(Poly::new("e + f").unwrap()),
    ];
    let result = Poly::retain_relevant_polys(polys, 23, 24);
    assert_eq!(result.len(), 0);

    // Test case 5: Polynomials with only x (no y)
    let polys = vec![
        Rc::new(Poly::new("x + a").unwrap()),
        Rc::new(Poly::new("b + c").unwrap()),
    ];
    let result = Poly::retain_relevant_polys(polys, 23, 24);
    assert_eq!(result.len(), 1);
    assert_eq!(result[0].to_string(), "x + a");

    // Test case 6: Polynomials with only y (no x)
    let polys = vec![
        Rc::new(Poly::new("y + a").unwrap()),
        Rc::new(Poly::new("b + c").unwrap()),
    ];
    let result = Poly::retain_relevant_polys(polys, 23, 24);
    assert_eq!(result.len(), 1);
    assert_eq!(result[0].to_string(), "y + a");

    // Test case 7: Complex chain of dependencies
    let polys = vec![
        Rc::new(Poly::new("a + b").unwrap()),
        Rc::new(Poly::new("x - a").unwrap()),
        Rc::new(Poly::new("c + d").unwrap()),
        Rc::new(Poly::new("y - c").unwrap()),
        Rc::new(Poly::new("e + f").unwrap()),
    ];
    let result = Poly::retain_relevant_polys(polys, 23, 24);
    assert_eq!(result.len(), 4);
    assert_eq!(result[0].to_string(), "b + a");
    assert_eq!(result[1].to_string(), "x - a");
    assert_eq!(result[2].to_string(), "d + c");
    assert_eq!(result[3].to_string(), "y - c");
}

#[test]
fn test_substitute_modular_polys_single_variable() {

    // Test case 1: Simple substitution a -> x^2 + 3x (mod 7)
    let poly = Poly::new("a^2 + a").unwrap(); // a^2 + a
    let mut var_polys = HashMap::new();
    var_polys.insert(0, (ModularPoly::new(vec![0, 3, 1], 7), 1)); // x^2 + 3x, degree = 1

    let result = poly.substitute_modular_polys(&var_polys).unwrap();
    // (x^2 + 3x)^2 + (x^2 + 3x) = (x^4 + 6x^3 + 9x^2) + (x^2 + 3x) = x^4 + 6x^3 + 10x^2 + 3x
    // In Z/7Z: x^4 + 6x^3 + 3x^2 + 3x
    assert_eq!(result.coeffs, vec![0, 3, 3, 6, 1]);
    assert_eq!(result.p, 7);
}

#[test]
fn test_substitute_modular_polys_two_variables() {

    // Test case: a*b + 2*b + a^2 with a -> x^2 + 3x, b -> 5x + 3 (mod 7)
    let poly = Poly::new("a*b + 2*b + a^2").unwrap();
    let mut var_polys = HashMap::new();
    var_polys.insert(0, (ModularPoly::new(vec![0, 3, 1], 7), 1)); // a -> x^2 + 3x, degree = 1
    var_polys.insert(1, (ModularPoly::new(vec![3, 5], 7), 1)); // b -> 5x + 3, degree = 1

    let result = poly.substitute_modular_polys(&var_polys).unwrap();
    // Manual calculation:
    // a^2 = (x^2 + 3x)^2 = x^4 + 6x^3 + 9x^2 = x^4 + 6x^3 + 2x^2 (mod 7)
    // 2*b = 2*(5x + 3) = 10x + 6 = 3x + 6 (mod 7)
    // a*b = (x^2 + 3x)*(5x + 3) = 5x^3 + 3x^2 + 15x^2 + 9x = 5x^3 + 18x^2 + 9x = 5x^3 + 4x^2 + 2x (mod 7)
    // Total: x^4 + 6x^3 + 2x^2 + 3x + 6 + 5x^3 + 4x^2 + 2x = x^4 + 11x^3 + 6x^2 + 5x + 6
    // = x^4 + 4x^3 + 6x^2 + 5x + 6 (mod 7)
    assert_eq!(result.coeffs, vec![6, 5, 6, 4, 1]);
    assert_eq!(result.p, 7);
}

#[test]
fn test_substitute_modular_polys_constant() {

    // Test case: Constant polynomial
    let poly = Poly::new("5").unwrap();
    let mut var_polys = HashMap::new();
    var_polys.insert(0, (ModularPoly::new(vec![0, 1], 7), 1)); // x, degree = 1

    let result = poly.substitute_modular_polys(&var_polys).unwrap();
    assert_eq!(result.coeffs, vec![5]);
    assert_eq!(result.p, 7);
}

#[test]
fn test_substitute_modular_polys_complex_nested() {

    // Test case: Complex nested polynomial a^2*b + b^2 with substitutions
    let poly = Poly::new("a^2*b + b^2").unwrap();
    let mut var_polys = HashMap::new();
    var_polys.insert(0, (ModularPoly::new(vec![1, 2], 7), 1)); // a -> 2x + 1, degree = 1
    var_polys.insert(1, (ModularPoly::new(vec![0, 1], 7), 1)); // b -> x, degree = 1

    let result = poly.substitute_modular_polys(&var_polys).unwrap();
    // Manual calculation:
    // a^2 = (2x + 1)^2 = 4x^2 + 4x + 1
    // a^2*b = (4x^2 + 4x + 1)*x = 4x^3 + 4x^2 + x
    // b^2 = x^2
    // Total: 4x^3 + 4x^2 + x + x^2 = 4x^3 + 5x^2 + x = 4x^3 + 5x^2 + x (mod 7)
    assert_eq!(result.coeffs, vec![0, 1, 5, 4]);
    assert_eq!(result.p, 7);
}

#[test]
fn test_substitute_modular_polys_linear_polynomials() {

    // Test case: Linear polynomials that sum to constant
    // (p-10)x + 1 + 10x + 2 = px + 3 = 3 (mod p)
    let poly = Poly::new("a + b").unwrap();
    let mut var_polys = HashMap::new();
    var_polys.insert(0, (ModularPoly::new(vec![1, 3], 7), 1)); // a -> 3x + 1, degree = 1
    var_polys.insert(1, (ModularPoly::new(vec![2, 4], 7), 1)); // b -> 4x + 2, degree = 1

    let result = poly.substitute_modular_polys(&var_polys).unwrap();
    // (3x + 1) + (4x + 2) = 7x + 3 = 3 (mod 7)
    assert_eq!(result.coeffs, vec![3]);
    assert_eq!(result.p, 7);
}

#[test]
fn test_substitute_modular_polys_zero_polynomial() {

    // Test case: Zero polynomial
    let poly = Poly::new("0").unwrap();
    let mut var_polys = HashMap::new();
    var_polys.insert(0, (ModularPoly::new(vec![1, 2], 7), 1)); // degree = 1

    let result = poly.substitute_modular_polys(&var_polys).unwrap();
    assert_eq!(result.coeffs, vec![0]);
    assert_eq!(result.p, 7);
}

#[test]
fn test_substitute_modular_polys_high_degree() {

    // Test case: High degree polynomial
    let poly = Poly::new("a^3 + a^2 + a + 1").unwrap();
    let mut var_polys = HashMap::new();
    var_polys.insert(0, (ModularPoly::new(vec![0, 1], 7), 1)); // a -> x, degree = 1

    let result = poly.substitute_modular_polys(&var_polys).unwrap();
    // x^3 + x^2 + x + 1
    assert_eq!(result.coeffs, vec![1, 1, 1, 1]);
    assert_eq!(result.p, 7);
}

#[test]
fn test_get_min_degree_var_basic() {
    // Test case 1: Simple case with one variable
    let polys = vec![
        Rc::new(Poly::new("a^2 + b").unwrap()), // degree of a: 2
        Rc::new(Poly::new("a + c").unwrap()),   // degree of a: 1
        Rc::new(Poly::new("b + c").unwrap()),   // no a
    ];
    let result = Poly::get_min_degree_var(&polys, 1, 2); // x=b, y=c
    assert_eq!(
        result,
        Some(VarSearchResult {
            var: 0,
            min_degree: 1,
            poly_index: 1
        })
    ); // a has minimum degree 1

    // Test case 2: Multiple variables with different degrees
    let polys = vec![
        Rc::new(Poly::new("a^3 + b").unwrap()), // degree of a: 3
        Rc::new(Poly::new("a^2 + c").unwrap()), // degree of a: 2
        Rc::new(Poly::new("b^2 + c").unwrap()), // degree of b: 2
        Rc::new(Poly::new("b + d").unwrap()),   // degree of b: 1
    ];
    let result = Poly::get_min_degree_var(&polys, 2, 3); // x=c, y=d
    assert_eq!(
        result,
        Some(VarSearchResult {
            var: 1,
            min_degree: 1,
            poly_index: 0,
        })
    ); // b has minimum degree 1

    // Test case 3: Variable with degree 1 vs higher degree
    let polys = vec![
        Rc::new(Poly::new("a^2 + b").unwrap()), // degree of a: 2
        Rc::new(Poly::new("a + c").unwrap()),   // degree of a: 1
        Rc::new(Poly::new("b^3 + c").unwrap()), // degree of b: 3
    ];
    let result = Poly::get_min_degree_var(&polys, 2, 3); // x=c, y=d
    assert_eq!(
        result,
        Some(VarSearchResult {
            var: 0,
            min_degree: 1,
            poly_index: 1
        })
    ); // a has minimum degree 1
}

#[test]
fn test_get_min_degree_var_edge_cases() {
    // Test case 1: Empty polynomials
    let polys: Vec<Rc<Poly>> = vec![];
    let result = Poly::get_min_degree_var(&polys, 0, 1);
    assert_eq!(result, None);

    // Test case 2: Only x and y variables
    let polys = vec![
        Rc::new(Poly::new("x + y").unwrap()),
        Rc::new(Poly::new("x^2 + y^2").unwrap()),
    ];
    let result = Poly::get_min_degree_var(&polys, 23, 24); // x=23, y=24
    assert_eq!(result, None);

    // Test case 3: No variables except x and y
    let polys = vec![
        Rc::new(Poly::new("5").unwrap()),
        Rc::new(Poly::new("10").unwrap()),
    ];
    let result = Poly::get_min_degree_var(&polys, 0, 1);
    assert_eq!(result, None);

    // Test case 4: Single polynomial with one variable
    let polys = vec![Rc::new(Poly::new("a^2 + 1").unwrap())];
    let result = Poly::get_min_degree_var(&polys, 1, 2);
    assert_eq!(
        result,
        Some(VarSearchResult {
            var: 0,
            min_degree: 2,
            poly_index: 0
        })
    ); // a has degree 2
}

#[test]
fn test_get_min_degree_var_complex() {
    // Test case 1: Multiple variables with complex degrees
    let polys = vec![
        Rc::new(Poly::new("a^3 + b^2 + c").unwrap()), // a:3, b:2, c:1
        Rc::new(Poly::new("a^2 + b^3 + d").unwrap()), // a:2, b:3, d:1
        Rc::new(Poly::new("a + b + c^2").unwrap()),   // a:1, b:1, c:2
    ];
    let result = Poly::get_min_degree_var(&polys, 3, 4); // x=d, y=e
    assert_eq!(
        result,
        Some(VarSearchResult {
            var: 0,
            min_degree: 1,
            poly_index: 2
        })
    ); // a has minimum degree 1

    // Test case 2: Variables that appear in some polynomials but not others
    let polys = vec![
        Rc::new(Poly::new("a^2 + b").unwrap()), // a:2, b:1
        Rc::new(Poly::new("b^3 + c").unwrap()), // b:3, c:1
        Rc::new(Poly::new("c^2 + d").unwrap()), // c:2, d:1
    ];
    let result = Poly::get_min_degree_var(&polys, 3, 4); // x=d, y=e
    assert_eq!(
        result,
        Some(VarSearchResult {
            var: 1,
            min_degree: 1,
            poly_index: 0
        })
    ); // b has minimum degree 1

    // Test case 3: Variables with same minimum degree
    let polys = vec![
        Rc::new(Poly::new("a^2 + b^2").unwrap()), // a:2, b:2
        Rc::new(Poly::new("a^2 + c^2").unwrap()), // a:2, c:2
        Rc::new(Poly::new("b^2 + c^2").unwrap()), // b:2, c:2
    ];
    let result = Poly::get_min_degree_var(&polys, 3, 4); // x=d, y=e
                                                         // Should return the first variable found with minimum degree
    assert!(
        result
            == Some(VarSearchResult {
                var: 0,
                min_degree: 2,
                poly_index: 0
            })
            || result
                == Some(VarSearchResult {
                    var: 1,
                    min_degree: 2,
                    poly_index: 0
                })
            || result
                == Some(VarSearchResult {
                    var: 2,
                    min_degree: 2,
                    poly_index: 0
                })
    );
}

#[test]
fn test_get_min_degree_var_variable_ordering() {
    // Test that variables are processed in order and the first one with minimum degree is returned
    let polys = vec![
        Rc::new(Poly::new("a^2 + b^1").unwrap()), // a:2, b:1
        Rc::new(Poly::new("c^1 + d^2").unwrap()), // c:1, d:2
    ];
    let result = Poly::get_min_degree_var(&polys, 4, 5); // x=e, y=f
                                                         // Both b and c have degree 1, but b (index 1) should be returned first
    assert_eq!(
        result,
        Some(VarSearchResult {
            var: 1,
            min_degree: 1,
            poly_index: 0
        })
    ); // b has minimum degree 1
}


#[test]
fn test_new_checked_overflow() {
    // a numeral beyond i64 is no number at all, an error and no overflow
    assert!(Poly::new_checked("99999999999999999999*a").unwrap().is_err());
    assert!(Poly::new_checked("9223372036854775807*a + 9223372036854775807*b").is_none());
    assert!(Poly::new_checked("4294967295*a^4294967295*a").is_none());
    assert!(Poly::new_checked("3000000000*3000000000*3000000000").is_none());
    let p = Poly::new_checked("2*a - 3").unwrap().unwrap();
    assert_eq!(p.to_string(), Poly::new("2*a - 3").unwrap().to_string());
    assert!(Poly::new_checked("2*a - $").unwrap().is_err());
}

#[test]
fn test_from_poly_expression_overflow() {
    assert_eq!(
        Poly::from_poly_expression("3000000000*3000000000*3000000000").err(),
        Some("Coefficient overflow".to_string())
    );
    assert_eq!(
        Poly::from_poly_expression("(a + 1)*3000000000*3000000000*3000000000").err(),
        Some("Coefficient overflow".to_string())
    );
    assert_eq!(Poly::from_poly_expression("(a + 1)*3").unwrap().to_string(), Poly::new("3*a + 3").unwrap().to_string());
}
