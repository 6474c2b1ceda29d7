use polyalgebra::poly::Poly;
use polyalgebra::scene_utils::SceneUtils;
use polyalgebra::poly_draw::{bmp_image, Color, Rectangle};
use std::rc::Rc;

fn c(v: i64) -> Rc<Poly> {
    Rc::new(Poly::Constant(v))
}

#[test]
fn test_split_into_irreducible_systems_empty() {
    let polys: Vec<Rc<Poly>> = vec![];
    let result = SceneUtils::split_into_irreducible_systems(polys, vec![]);
    assert_eq!(result, vec![] as Vec<Vec<Rc<Poly>>>);
}

#[test]
fn test_split_into_irreducible_systems_factoring_failure() {
    let polys = vec![
        Rc::new(Poly::new("x^2 + 1").unwrap()),
        Rc::new(Poly::new("y^2 - 1").unwrap()),
    ];
    let factored: Vec<Result<Vec<Poly>, String>> =
        vec![Err("no factors".to_string()), Err("no factors".to_string())];
    let result = SceneUtils::split_into_irreducible_systems(polys, factored);
    assert!(!result.is_empty());
    for system in &result {
        assert_eq!(system.len(), 2);
    }
}

#[test]
fn split_combines_each_factor_of_each_polynomial() {
    let polys = vec![
        Rc::new(Poly::new("x^2 - 1").unwrap()),
        Rc::new(Poly::new("y^2 - 4").unwrap()),
    ];
    let factored: Vec<Result<Vec<Poly>, String>> = vec![
        Ok(vec![Poly::new("x - 1").unwrap(), Poly::new("x + 1").unwrap()]),
        Ok(vec![Poly::new("y - 2").unwrap(), Poly::new("y + 2").unwrap()]),
    ];
    let result = SceneUtils::split_into_irreducible_systems(polys, factored);
    let texts: Vec<String> = result
        .iter()
        .map(|s| s.iter().map(|p| p.to_string()).collect::<Vec<String>>().join(";"))
        .collect();
    assert_eq!(
        texts,
        vec![
            Poly::new("x - 1").unwrap().to_string() + ";" + &Poly::new("y - 2").unwrap().to_string(),
            Poly::new("x - 1").unwrap().to_string() + ";" + &Poly::new("y + 2").unwrap().to_string(),
            Poly::new("x + 1").unwrap().to_string() + ";" + &Poly::new("y - 2").unwrap().to_string(),
            Poly::new("x + 1").unwrap().to_string() + ";" + &Poly::new("y + 2").unwrap().to_string(),
        ]
    );
}

#[test]
fn test_express_in_basis() {
    let uni_coeffs = vec![-2, 3, 1];
    let poly = Rc::new(Poly::new("b*a + b^2").unwrap());
    let result = SceneUtils::express_in_basis(poly, &uni_coeffs, 0).unwrap();
    assert_eq!(result.len(), 2);
    assert_eq!(result[0], Rc::new(Poly::new("b^2").unwrap()));
    assert_eq!(result[1], Rc::new(Poly::new("b").unwrap()));

    let poly = Rc::new(Poly::new("b*a^2").unwrap());
    let result = SceneUtils::express_in_basis(poly, &uni_coeffs, 0).unwrap();
    assert_eq!(result.len(), 2);
    assert_eq!(result[0], Rc::new(Poly::new("2*b").unwrap()));
    assert_eq!(result[1], Rc::new(Poly::new("-3*b").unwrap()));

    let poly = Rc::new(Poly::new("b*a^3").unwrap());
    let result = SceneUtils::express_in_basis(poly, &uni_coeffs, 0).unwrap();
    assert_eq!(result.len(), 2);
    assert_eq!(result[0], Rc::new(Poly::new("-6*b").unwrap()));
    assert_eq!(result[1], Rc::new(Poly::new("11*b").unwrap()));
}

#[test]
fn test_remove_gaps() {
    let uni_coeffs = vec![-2, 3, 1];
    let projections = vec![
        Rc::new(Poly::new("b").unwrap()),
        Rc::new(Poly::new("c").unwrap()),
    ];
    let result = SceneUtils::remove_gaps(projections, &uni_coeffs);
    let poly_strs: Vec<String> = result.0.iter().map(|p| p.to_string()).collect();
    assert_eq!(poly_strs, vec!["b", "c"]);
    assert_eq!(result.1, uni_coeffs);

    let uni_coeffs = vec![-2, 0, 1];
    let projections = vec![
        Rc::new(Poly::new("b").unwrap()),
        Rc::new(Poly::new("0").unwrap()),
    ];
    let result = SceneUtils::remove_gaps(projections, &uni_coeffs);
    let poly_strs: Vec<String> = result.0.iter().map(|p| p.to_string()).collect();
    assert_eq!(poly_strs, vec!["b"]);
    assert_eq!(result.1, vec![-2, 1]);

    let uni_coeffs = vec![-2, 0, 3, 0, 1];
    let projections = vec![
        Rc::new(Poly::new("b").unwrap()),
        Rc::new(Poly::new("0").unwrap()),
        Rc::new(Poly::new("c").unwrap()),
        Rc::new(Poly::new("0").unwrap()),
    ];
    let result = SceneUtils::remove_gaps(projections, &uni_coeffs);
    let poly_strs: Vec<String> = result.0.iter().map(|p| p.to_string()).collect();
    assert_eq!(poly_strs, vec!["b", "c"]);
    assert_eq!(result.1, vec![-2, 3, 1]);
}

#[test]
fn remove_gaps_with_a_step_of_three() {
    let uni_coeffs = vec![5, 0, 0, 2];
    let projections = vec![
        Rc::new(Poly::new("b").unwrap()),
        Rc::new(Poly::new("0").unwrap()),
        Rc::new(Poly::new("0").unwrap()),
    ];
    let result = SceneUtils::remove_gaps(projections, &uni_coeffs);
    let poly_strs: Vec<String> = result.0.iter().map(|p| p.to_string()).collect();
    assert_eq!(poly_strs, vec!["b"]);
    assert_eq!(result.1, vec![5, 2]);
}

#[test]
fn test_reduce_using_projections() {
    let uni_coeffs = vec![-2, 3, 1];
    let projections = vec![c(5), c(7)];
    let result = SceneUtils::reduce_using_projections(projections, uni_coeffs).unwrap();
    assert!(matches!(*result, Poly::Constant(_)));
}

#[test]
fn test_get_i_matrix() {
    let uni_coeffs = vec![-2, 3, 1];
    let i_matrix = SceneUtils::get_i_matrix(&uni_coeffs);
    assert_eq!(i_matrix.len(), 1);
    assert_eq!(i_matrix[0].len(), 3);
    assert_eq!(i_matrix[0], vec![-2, 3, 1]);
}

#[test]
fn get_i_matrix_shifts_each_row() {
    let i_matrix = SceneUtils::get_i_matrix(&vec![1, 2, 3, 4]);
    assert_eq!(i_matrix, vec![vec![1, 2, 3, 4, 0], vec![0, 1, 2, 3, 4]]);
}

#[test]
fn test_get_p_matrix() {
    let projections = vec![c(5), c(7)];
    let p_matrix = SceneUtils::get_p_matrix(&projections);
    assert_eq!(p_matrix.len(), 2);
    assert_eq!(p_matrix[0].len(), 3);
    assert_eq!(p_matrix[1].len(), 3);
    assert_eq!(*p_matrix[0][0], Poly::Constant(5));
    assert_eq!(*p_matrix[0][1], Poly::Constant(7));
    assert_eq!(*p_matrix[0][2], Poly::Constant(0));
    assert_eq!(*p_matrix[1][0], Poly::Constant(0));
    assert_eq!(*p_matrix[1][1], Poly::Constant(5));
    assert_eq!(*p_matrix[1][2], Poly::Constant(7));
}

#[test]
fn test_gauss_elimination() {
    let mut i_matrix = vec![vec![-2, 3, 1]];
    let mut p_matrix = vec![vec![c(5), c(7), c(0)], vec![c(0), c(5), c(7)]];
    let reduced_p_matrix = SceneUtils::gauss_elimination(&mut i_matrix, &mut p_matrix).unwrap();
    assert_eq!(reduced_p_matrix.len(), 2);
    assert_eq!(reduced_p_matrix[0], vec![c(5), c(7)]);
    assert_eq!(reduced_p_matrix[1], vec![c(14), c(-16)]);
}

#[test]
fn gauss_elimination_without_pivot_gives_no_columns() {
    let mut i_matrix = vec![vec![0, 0, 0]];
    let mut p_matrix = vec![vec![c(5), c(7), c(0)], vec![c(0), c(5), c(7)]];
    let reduced = SceneUtils::gauss_elimination(&mut i_matrix, &mut p_matrix).unwrap();
    assert!(reduced.is_empty());
}

#[test]
fn test_reduce_by_common_gcd() {
    let mut polys = vec![
        Rc::new(Poly::new("6*x + 12").unwrap()),
        Rc::new(Poly::new("18*y + 24").unwrap()),
    ];
    SceneUtils::reduce_by_common_gcd(&mut polys);
    assert_eq!(polys.len(), 2);
    assert_eq!(*polys[0], Poly::new("x + 2").unwrap());
    assert_eq!(*polys[1], Poly::new("3*y + 4").unwrap());
}

#[test]
fn test_reduce_by_common_gcd_no_common_factor() {
    let mut polys = vec![
        Rc::new(Poly::new("x + 2").unwrap()),
        Rc::new(Poly::new("3*y + 4").unwrap()),
    ];
    let original_polys = polys.clone();
    SceneUtils::reduce_by_common_gcd(&mut polys);
    assert_eq!(polys.len(), 2);
    assert_eq!(*polys[0], *original_polys[0]);
    assert_eq!(*polys[1], *original_polys[1]);
}

#[test]
fn reduce_by_common_gcd_rounds_negative_constants_towards_zero() {
    let mut polys = vec![
        Rc::new(Poly::new("-4*x - 8").unwrap()),
        Rc::new(Poly::new("6").unwrap()),
    ];
    SceneUtils::reduce_by_common_gcd(&mut polys);
    assert_eq!(*polys[0], Poly::new("-2*x - 4").unwrap());
    assert_eq!(*polys[1], Poly::Constant(3));
}

#[test]
fn coefficient_gcd_of_a_polynomial() {
    assert_eq!(Poly::new("6*x + 12").unwrap().get_coefficient_gcd(), 6);
    assert_eq!(Poly::new("-4*x*y - 10").unwrap().get_coefficient_gcd(), 2);
    assert_eq!(Poly::Constant(0).get_coefficient_gcd(), 0);
}

#[test]
fn test_transpose_matrix() {
    let matrix = vec![vec![c(1), c(2), c(3)], vec![c(4), c(5), c(6)]];
    let transposed = SceneUtils::transpose_matrix(&matrix);
    assert_eq!(transposed.len(), 3);
    assert_eq!(transposed[0].len(), 2);
    assert_eq!(transposed[1].len(), 2);
    assert_eq!(transposed[2].len(), 2);
    assert_eq!(*transposed[0][0], Poly::Constant(1));
    assert_eq!(*transposed[0][1], Poly::Constant(4));
    assert_eq!(*transposed[1][0], Poly::Constant(2));
    assert_eq!(*transposed[1][1], Poly::Constant(5));
    assert_eq!(*transposed[2][0], Poly::Constant(3));
    assert_eq!(*transposed[2][1], Poly::Constant(6));
}

#[test]
fn test_compute_determinant_poly_1x1() {
    let matrix = vec![vec![c(5)]];
    let det = SceneUtils::compute_determinant_poly(&matrix).unwrap();
    assert_eq!(*det, Poly::Constant(5));
}

#[test]
fn test_compute_determinant_poly_2x2() {
    let matrix = vec![vec![c(1), c(2)], vec![c(3), c(4)]];
    let det = SceneUtils::compute_determinant_poly(&matrix).unwrap();
    assert_eq!(*det, Poly::Constant(-2));
}

#[test]
fn test_compute_determinant_poly_3x3() {
    let matrix = vec![
        vec![c(1), c(2), c(3)],
        vec![c(4), c(5), c(6)],
        vec![c(7), c(8), c(9)],
    ];
    let det = SceneUtils::compute_determinant_poly(&matrix).unwrap();
    assert_eq!(*det, Poly::Constant(0));
}

#[test]
fn determinant_of_polynomial_entries() {
    let matrix = vec![
        vec![Rc::new(Poly::new("x").unwrap()), c(1)],
        vec![c(2), Rc::new(Poly::new("x").unwrap())],
    ];
    let det = SceneUtils::compute_determinant_poly(&matrix).unwrap();
    assert_eq!(*det, Poly::new("x^2 - 2").unwrap());
}

#[test]
fn determinant_of_empty_matrix_is_zero() {
    let matrix: Vec<Vec<Rc<Poly>>> = vec![];
    let det = SceneUtils::compute_determinant_poly(&matrix).unwrap();
    assert_eq!(*det, Poly::Constant(0));
}

#[test]
fn test_compute_minor_poly() {
    let matrix = vec![
        vec![c(1), c(2), c(3)],
        vec![c(4), c(5), c(6)],
        vec![c(7), c(8), c(9)],
    ];
    let minor = SceneUtils::compute_minor_poly(&matrix, 0, 0);
    assert_eq!(minor.len(), 2);
    assert_eq!(minor[0].len(), 2);
    assert_eq!(minor[1].len(), 2);
    assert_eq!(*minor[0][0], Poly::Constant(5));
    assert_eq!(*minor[0][1], Poly::Constant(6));
    assert_eq!(*minor[1][0], Poly::Constant(8));
    assert_eq!(*minor[1][1], Poly::Constant(9));
}

#[test]
fn test_eliminate_univariate() {
    let uni_poly = Rc::new(Poly::new("2*a^2 - 1").unwrap());
    let poly = Rc::new(Poly::new("a^3*b + a^2*c - a").unwrap());
    let result = SceneUtils::eliminate_univariate(poly, uni_poly, 0).unwrap();
    assert_eq!(result.to_string(), "-4 + 2*c^2 + 4*b - b^2");

    let uni_poly = Rc::new(Poly::new("2*a^3 - 1").unwrap());
    let poly = Rc::new(Poly::new("a^2*b + c").unwrap());
    let result = SceneUtils::eliminate_univariate(poly, uni_poly, 0).unwrap();
    assert_eq!(result.to_string(), "4*c^3 + b^3");
}

#[test]
fn test_rectangle_subdivision() {
    let rect = Rectangle::new(0, 0, 4, 4);
    let subregions = rect.subdivide();
    assert_eq!(subregions[0], Rectangle::new(0, 0, 2, 2));
    assert_eq!(subregions[1], Rectangle::new(2, 0, 4, 2));
    assert_eq!(subregions[2], Rectangle::new(0, 2, 2, 4));
    assert_eq!(subregions[3], Rectangle::new(2, 2, 4, 4));
}

#[test]
fn rectangle_size_and_odd_subdivision() {
    assert_eq!(Rectangle::new(1, 2, 4, 7).size(), 15);
    let q = Rectangle::new(0, 0, 5, 3).subdivide();
    assert_eq!(q[0], Rectangle::new(0, 0, 2, 1));
    assert_eq!(q[3], Rectangle::new(2, 1, 5, 3));
    let c = Color::new(1, 2, 3);
    assert_eq!((c.r, c.g, c.b), (1, 2, 3));
}

#[test]
fn gauss_elimination_stops_at_a_minimal_entry_in_the_first_row() {
    let mut i_matrix = vec![vec![i64::MIN, 3, 1]];
    let mut p_matrix = vec![vec![c(5), c(7), c(0)], vec![c(0), c(5), c(7)]];
    assert!(SceneUtils::gauss_elimination(&mut i_matrix, &mut p_matrix).is_none());
}

#[test]
fn gauss_elimination_of_a_single_row_keeps_it() {
    let mut i_matrix: Vec<Vec<i64>> = Vec::new();
    let mut p_matrix = vec![vec![c(4)]];
    let reduced = SceneUtils::gauss_elimination(&mut i_matrix, &mut p_matrix).unwrap();
    assert_eq!(reduced, vec![vec![c(4)]]);
}

#[test]
fn reduce_using_a_single_projection_succeeds() {
    let result = SceneUtils::reduce_using_projections(vec![c(6)], vec![1, 1]);
    assert!(result.is_some());
}

#[test]
fn eliminating_a_variable_that_the_polynomial_lacks_succeeds() {
    let uni_poly = Rc::new(Poly::new("a^2 - 2").unwrap());
    let poly = Rc::new(Poly::new("b + 1").unwrap());
    assert!(SceneUtils::eliminate_univariate(poly, uni_poly, 0).is_some());
}

#[test]
fn express_in_basis_of_a_low_degree_polynomial_gives_its_coefficients() {
    let poly = Rc::new(Poly::new("a*b + 3").unwrap());
    let result = SceneUtils::express_in_basis(poly, &vec![1, 0, 1], 0).unwrap();
    assert_eq!(result.len(), 2);
    assert_eq!(result[0].to_string(), "3");
    assert_eq!(result[1].to_string(), "b");
}

#[test]
fn test_bmp_image_layout() {
    // Two by two pixels; (1, 0) is red, given twice (the last entry counts),
    // (0, 1) is green, the rest white; rows are written bottom up.
    let pixels = vec![
        (1, 0, Color::new(0, 0, 255)),
        (0, 1, Color::new(0, 200, 0)),
        (1, 0, Color::new(255, 0, 0)),
    ];
    let bytes = bmp_image(2, 2, &pixels);
    assert_eq!(bytes.len(), 54 + 12);
    assert_eq!(&bytes[0..2], &[0x42, 0x4D]);
    assert_eq!(&bytes[2..6], &[66, 0, 0, 0]); // 54 + 3 * 2 * 2
    assert_eq!(&bytes[10..14], &[0x36, 0, 0, 0]);
    assert_eq!(&bytes[18..22], &[2, 0, 0, 0]);
    assert_eq!(&bytes[22..26], &[2, 0, 0, 0]);
    assert_eq!(&bytes[26..30], &[1, 0, 0x18, 0]);
    assert_eq!(&bytes[38..42], &[0x13, 0x0B, 0, 0]);
    // row y = 1 first: (0, 1) green, (1, 1) white
    assert_eq!(&bytes[54..60], &[0, 200, 0, 255, 255, 255]);
    // then row y = 0: (0, 0) white, (1, 0) red in blue, green, red order
    assert_eq!(&bytes[60..66], &[255, 255, 255, 0, 0, 255]);
}

#[test]
fn test_bmp_image_size_field() {
    let bytes = bmp_image(300, 200, &Vec::new());
    let size = 54 + 3 * 300 * 200;
    assert_eq!(bytes.len(), size);
    assert_eq!(&bytes[2..6], &[(size % 256) as u8, ((size / 256) % 256) as u8, ((size / 65536) % 256) as u8, 0]);
    assert_eq!(&bytes[18..22], &[44, 1, 0, 0]);
    assert_eq!(&bytes[22..26], &[200, 0, 0, 0]);
    assert!(bytes[54..].iter().all(|b| *b == 255));
}
