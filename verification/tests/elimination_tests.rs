use polyalgebra::elimination::{Elimination, EliminationStep};
use polyalgebra::poly::Poly;
use std::rc::Rc;
use polyalgebra::modular_poly::ModularPoly;
use std::collections::HashMap;

#[test]
fn test_elimination_step() {
    let poly1 = Poly::new("a + a*c^2 - 1 + c^2").unwrap();
    let poly2 = Poly::new("b + b*c^2 - 2*c").unwrap();
    let v = 2; // c

    let step = EliminationStep::new(v, Rc::new(poly1), Rc::new(poly2));
    assert_eq!(step.degree_a, 2); // degree of c in poly1
    assert_eq!(step.degree_b, 2); // degree of c in poly2

    // First step
    let next_step = step.get_next_step().unwrap().unwrap();
    assert_eq!(next_step.degree_a, 2); // degree of c in poly_b
    assert_eq!(next_step.degree_b, 1); // degree of c in new poly_b

    assert_eq!(next_step.poly_a.to_string(), "-2*c + b + c^2*b");
    assert_eq!(next_step.poly_b.to_string(), "2*c - 2*b + 2*c*a");

    assert_eq!(next_step.p_factor_1a.to_string(), "0");
    assert_eq!(next_step.p_factor_2a.to_string(), "1");
    assert_eq!(next_step.p_factor_1b.to_string(), "b");
    assert_eq!(next_step.p_factor_2b.to_string(), "-1 - a");

    let step3 = next_step.get_next_step().unwrap().unwrap();
    assert_eq!(step3.degree_a, 1); // degree of c in poly_b
    assert_eq!(step3.degree_b, 1); // degree of c in new poly_b

    assert_eq!(step3.poly_a.to_string(), "2*c - 2*b + 2*c*a");
    assert_eq!(step3.poly_b.to_string(), "-2*b + 2*c*b^2 + 2*b*a");

    assert_eq!(step3.p_factor_1a.to_string(), "b");
    assert_eq!(step3.p_factor_2a.to_string(), "-1 - a");
    assert_eq!(step3.p_factor_1b.to_string(), "2*b - c*b^2");
    assert_eq!(step3.p_factor_2b.to_string(), "c*b + c*b*a");

    let step4 = step3.get_next_step().unwrap().unwrap();
    assert_eq!(step4.degree_a, 1); // degree of c in poly_b
    assert_eq!(step4.degree_b, 0); // degree of c in new poly_b

    assert_eq!(step4.poly_a.to_string(), "-2*b + 2*c*b^2 + 2*b*a");
    assert_eq!(step4.poly_b.to_string(), "4*b - 4*b^3 - 4*b*a^2");
    assert_eq!(
        format!(
            "{} {} {} {}",
            step4.p_factor_1a.to_string(),
            step4.p_factor_2a.to_string(),
            step4.p_factor_1b.to_string(),
            step4.p_factor_2b.to_string()
        ),
        "2*b - c*b^2 c*b + c*b*a -4*b + 2*c*b^2 + 2*b^3 - 4*b*a + 2*c*b^2*a -2*c*b - 2*b^2 - 4*c*b*a - 2*b^2*a - 2*c*b*a^2"
    );
    let mut p_a = step4.poly1.multiply(&step4.p_factor_1a);
    let p2_f2a = step4.poly2.multiply(&step4.p_factor_2a);
    p_a.add_poly_scaled(&p2_f2a, 1);
    let mut p_b = step4.poly1.multiply(&step4.p_factor_1b);
    let p2_f2b = step4.poly2.multiply(&step4.p_factor_2b);
    p_b.add_poly_scaled(&p2_f2b, 1);
    assert_eq!(
        format!("{} {}", p_a.to_string(), p_b.to_string()),
        "-2*b + 2*c*b^2 + 2*b*a 4*b - 4*b^3 - 4*b*a^2"
    );
}

#[test]
fn test_check_factor() {
    // Create initial polynomials
    let poly1 = Poly::new("a + a*c^2 - 1 + c^2").unwrap();
    let poly2 = Poly::new("b + b*c^2 - 2*c").unwrap();
    let initial_polys = vec![Rc::new(poly1), Rc::new(poly2)];

    // Create Elimination with x_var = 0 (a), y_var = 1 (b)
    let mut elimination = Elimination::new(&initial_polys, 0, 1);

    // Get the variable to eliminate (should be var = 2 (c))
    let var_search_result = elimination.get_var_to_eliminate().unwrap();
    assert_eq!(var_search_result.var, 2); // c
    assert_eq!(var_search_result.min_degree, 2);
    assert_eq!(var_search_result.poly_index, 0);

    // Eliminate variable c
    elimination.eliminate_var(var_search_result).unwrap();

    // Test check_factor for polynomial "b" - should return false
    let wrong_factor = Poly::new("a + 1").unwrap();
    assert_eq!(elimination.check_factor(&wrong_factor).unwrap(), false);

    // Test check_factor for polynomial "a^2 + b^2 - 1" - should return true
    let correct_factor = Poly::new("a^2 + b^2 - 1").unwrap();
    assert_eq!(elimination.check_factor(&correct_factor).unwrap(), true);
}

#[test]
fn test_express_var_solves_modulo_q() {
    // poly_a = b*a + 3, eliminated variable a (index 0); b is replaced by x.
    let poly1 = Poly::new("a*b + 3").unwrap();
    let poly2 = Poly::new("b").unwrap();
    let step = EliminationStep::new(0, Rc::new(poly1), Rc::new(poly2));
    let mut map: HashMap<u8, (ModularPoly, u8)> = HashMap::new();
    map.insert(1, (ModularPoly::new(vec![0, 1], 7), 1));
    let q = ModularPoly::new(vec![1, 0, 1], 7); // x^2 + 1
    let (z, d) = step.express_var_as_modular_poly(&map, &q).unwrap();
    assert_eq!(d, 1);
    assert_eq!(z.coeffs, vec![0, 3]); // a = -3 / x = 3x modulo x^2 + 1
    // x * z + 3 is a multiple of q
    let g = ModularPoly::new(vec![0, 1], 7);
    let h = ModularPoly::new(vec![3], 7);
    let value = g.mul(&z).add(&h);
    assert!(value.remainder(&q).unwrap().is_zero());
}

#[test]
fn test_express_var_without_inverse_fails() {
    // The factor x + 1 has no inverse modulo x^3 + 1 = (x + 1)(x^2 - x + 1).
    let poly1 = Poly::new("a*b + a + 3").unwrap();
    let poly2 = Poly::new("b").unwrap();
    let step = EliminationStep::new(0, Rc::new(poly1), Rc::new(poly2));
    let mut map: HashMap<u8, (ModularPoly, u8)> = HashMap::new();
    map.insert(1, (ModularPoly::new(vec![0, 1], 7), 1));
    let q = ModularPoly::new(vec![1, 0, 0, 1], 7);
    assert!(step.express_var_as_modular_poly(&map, &q).is_err());
}

#[test]
fn test_next_step_overflow() {
    // 4000000000^2 leaves an i64.
    let poly1 = Poly::new("4000000000*a + 4000000000").unwrap();
    let poly2 = Poly::new("4000000000*a + 1").unwrap();
    let step = EliminationStep::new(0, Rc::new(poly1), Rc::new(poly2));
    assert_eq!(step.get_next_step().err(), Some("Coefficient overflow".to_string()));
    // Smaller constants fit and give the next stage.
    let poly1 = Poly::new("3*a + 3").unwrap();
    let poly2 = Poly::new("3*a + 1").unwrap();
    let step = EliminationStep::new(0, Rc::new(poly1), Rc::new(poly2));
    let next = step.get_next_step().unwrap().unwrap();
    assert_eq!(next.degree_a, 1);
    assert_eq!(next.degree_b, 0);
}
