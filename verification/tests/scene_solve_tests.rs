use polyalgebra::scene_solve::keep_passed;
use polyalgebra::poly::Poly;
use polyalgebra::scene_factors::combine_factors;
use polyalgebra::scene_utils::SceneUtils;
use std::rc::Rc;

fn polys(texts: &[&str]) -> Vec<Rc<Poly>> {
    texts.iter().map(|t| Rc::new(Poly::new(t).unwrap())).collect()
}

fn texts(ps: &[Rc<Poly>]) -> Vec<String> {
    ps.iter().map(|p| p.to_string()).collect()
}

#[test]
fn univariate_polynomials() {
    assert!(Poly::new("2*a^2 - 1").unwrap().is_univariate());
    assert!(!Poly::new("a^2 - b").unwrap().is_univariate());
    assert!(!Poly::new("7").unwrap().is_univariate());
}

#[test]
fn linear_variables_are_substituted_in_order() {
    let system = polys(&["a^2 - 2*c", "b^2 - 3*d", "d - c"]);
    let reduced = SceneUtils::reduce_linear_variables(system, 0, 1).unwrap();
    assert_eq!(texts(&reduced), vec![Poly::new("2*b^2 - 3*a^2").unwrap().to_string()]);
}

#[test]
fn relevant_system_drops_unrelated_equations() {
    let system = polys(&["a - c", "d^2 - 2", "b + c"]);
    let kept = SceneUtils::relevant_system(system, 0, 1);
    assert_eq!(texts(&kept), texts(&polys(&["a - c", "b + c"])));
}

#[test]
fn curve_of_a_system_with_linear_variables() {
    let system = polys(&["a^2 - 2*c", "b^2 - 3*d", "d - c"]);
    let reduced = SceneUtils::reduce_linear_variables(system, 0, 1).unwrap();
    let relevant = SceneUtils::relevant_system(reduced, 0, 1);
    let (_elimination, equation) = SceneUtils::eliminate_system(relevant, 0, 1).unwrap();
    assert_eq!(equation.to_string(), "2*b^2 - 3*a^2");
    let (curve, factors) = combine_factors(vec![equation]).unwrap();
    assert_eq!(curve.to_string(), "2*b^2 - 3*a^2");
    assert_eq!(factors.len(), 1);
}

#[test]
fn univariate_variables_are_eliminated_first() {
    let system = polys(&["2*c^2 - 1", "a - c*b"]);
    let reduced = SceneUtils::eliminate_univariate_vars(system, 0, 1).unwrap();
    assert_eq!(reduced.len(), 1);
    assert!(!reduced[0].is_univariate());
    assert!(!reduced[0].has_var(2));
}

#[test]
fn elimination_of_a_shared_variable() {
    let system = polys(&["a - c", "b - c^2"]);
    let (elimination, equation) = SceneUtils::eliminate_system(system, 0, 1).unwrap();
    assert_eq!(elimination.polys.len(), 1);
    assert!(!equation.has_var(2));
    assert!(equation.has_var(0) && equation.has_var(1));
}

#[test]
fn univariate_equation_in_another_variable_drops_out() {
    let system = polys(&["a - b", "c^2 + c + 1"]);
    let (_elimination, equation) = SceneUtils::eliminate_system(system, 0, 1).unwrap();
    assert_eq!(equation.to_string(), Poly::new("a - b").unwrap().to_string());
}

#[test]
fn elimination_reports_too_many_equations() {
    let system = polys(&["a - b", "a + b"]);
    let result = SceneUtils::eliminate_system(system, 0, 1);
    assert_eq!(
        result.err().unwrap(),
        "Expected exactly one equation after elimination, got 2"
    );
}

#[test]
fn elimination_reports_a_lone_variable() {
    let system = polys(&["a - c*b", "a + b"]);
    let result = SceneUtils::eliminate_system(system, 0, 1);
    assert_eq!(
        result.err().unwrap(),
        "The variable to eliminate occurs in one equation only"
    );
}

#[test]
fn proportional_polynomials() {
    let p = Poly::new("2*a + 4*b").unwrap();
    let q = Poly::new("-a - 2*b").unwrap();
    let r = Poly::new("a + 3*b").unwrap();
    assert!(p.is_proportional(&q));
    assert!(q.is_proportional(&p));
    assert!(!p.is_proportional(&r));
    assert!(Poly::Constant(3).is_proportional(&Poly::Constant(-6)));
}

#[test]
fn combine_factors_drops_proportional_ones() {
    let factors = vec![
        Poly::new("a + b").unwrap(),
        Poly::new("2*a + 2*b").unwrap(),
        Poly::new("a - b").unwrap(),
    ];
    let (curve, kept) = combine_factors(factors).unwrap();
    assert_eq!(kept.len(), 2);
    assert_eq!(curve, Poly::new("a^2 - b^2").unwrap());
}

#[test]
fn combine_no_factors_gives_one() {
    let (curve, kept) = combine_factors(vec![]).unwrap();
    assert!(kept.is_empty());
    assert_eq!(curve, Poly::Constant(1));
}

#[test]
fn nonlinear_variables_take_out_no_equation() {
    let system = polys(&["a - c^2", "b - c^2"]);
    let reduced = SceneUtils::reduce_linear_variables(system, 0, 1).unwrap();
    assert_eq!(texts(&reduced), texts(&polys(&["a - c^2", "b - c^2"])));
}

#[test]
fn keep_passed_keeps_the_passing_factors_in_order() {
    let factors: Vec<Poly> = ["a + 1", "a - b", "b^2 - 2", "a*b"].iter().map(|t| Poly::new(t).unwrap()).collect();
    let kept = keep_passed(factors, vec![Ok(true), Ok(false), Ok(true), Ok(false)]).unwrap();
    let texts: Vec<String> = kept.iter().map(|p| p.to_string()).collect();
    assert_eq!(texts, vec![Poly::new("a + 1").unwrap().to_string(), Poly::new("b^2 - 2").unwrap().to_string()]);
}

#[test]
fn keep_passed_gives_the_first_failure() {
    let factors: Vec<Poly> = ["a + 1", "a - b", "b"].iter().map(|t| Poly::new(t).unwrap()).collect();
    let r = keep_passed(factors, vec![Ok(true), Err("first".to_string()), Err("second".to_string())]);
    assert_eq!(r.err(), Some("first".to_string()));
}
