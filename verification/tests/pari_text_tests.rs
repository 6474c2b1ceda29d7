use polyalgebra::pari_text::{check_factorization, parse_degrees, read_gcd_output, split_factor_output, same_poly};
use polyalgebra::poly::Poly;

fn lines(v: &[&str]) -> Vec<String> {
    v.iter().map(|s| s.to_string()).collect()
}

#[test]
fn factor_task_text() {
    let p = Poly::new("a^2 - b^2").unwrap();
    assert_eq!(
        p.factor_task(),
        format!("{{expr = Vec(factor({}));print(expr[1]);print(expr[2]);print(\"Done\")}}", p.text(true))
    );
}

#[test]
fn gcd_task_text() {
    let p = Poly::new("a + b").unwrap();
    let q = Poly::new("a - b").unwrap();
    assert_eq!(
        Poly::gcd_task(&p, &q),
        format!(
            "{{pp = {}; qq = {}; gg = gcd([pp, qq]); print(gg); print(pp / gg); print(qq / gg); print(\"Done\")}}",
            p.text(true),
            q.text(true)
        )
    );
}

#[test]
fn factor_output_is_split() {
    let (fs, ds) = split_factor_output(&lines(&[" [b + a, -b + a]~ ", "[1, 2]~"])).unwrap();
    assert_eq!(fs, vec!["b + a", "-b + a"]);
    assert_eq!(ds, vec!["1", "2"]);
}

#[test]
fn factor_output_errors() {
    assert_eq!(
        split_factor_output(&lines(&["[a]~"])).err().unwrap(),
        "Expected at least 2 lines of output from Pari/GP. Output: [\"[a]~\"]"
    );
    assert_eq!(
        split_factor_output(&lines(&["[a]", "[1]~"])).err().unwrap(),
        "Invalid factors line format: [a]"
    );
    assert_eq!(
        split_factor_output(&lines(&["[a]~", "1"])).err().unwrap(),
        "Invalid degrees line format: 1"
    );
    assert_eq!(
        split_factor_output(&lines(&["[a, b]~", "[1]~"])).err().unwrap(),
        "Mismatch between factors (2) and degrees (1)"
    );
}

#[test]
fn degrees_are_parsed_as_std_does() {
    assert_eq!(parse_degrees(&lines(&["1", "+2", "4294967295"])).unwrap(), vec![1, 2, 4294967295]);
    assert_eq!(
        parse_degrees(&lines(&["1", "x"])).err().unwrap(),
        format!("Failed to parse degree 'x': {}", "x".parse::<u32>().unwrap_err())
    );
    assert_eq!(
        parse_degrees(&lines(&["4294967296"])).err().unwrap(),
        format!("Failed to parse degree '4294967296': {}", "4294967296".parse::<u32>().unwrap_err())
    );
    assert_eq!(
        parse_degrees(&lines(&[""])).err().unwrap(),
        format!("Failed to parse degree '': {}", "".parse::<u32>().unwrap_err())
    );
    assert_eq!(
        parse_degrees(&lines(&["-"])).err().unwrap(),
        format!("Failed to parse degree '-': {}", "-".parse::<u32>().unwrap_err())
    );
}

#[test]
fn factorization_multiplies_back() {
    let p = Poly::new("a^3 - a").unwrap();
    let factors = vec![Poly::new("a").unwrap(), Poly::new("a + 1").unwrap(), Poly::new("a - 1").unwrap()];
    let kept = check_factorization(&p, &factors, &vec![1, 1, 1]).unwrap();
    assert_eq!(kept, factors);

    let q = Poly::new("-a^2 - 2*a - 1").unwrap();
    let factors = vec![Poly::new("a + 1").unwrap()];
    assert!(check_factorization(&q, &factors, &vec![2]).is_ok());
}

#[test]
fn factorization_that_does_not_multiply_back() {
    let p = Poly::new("a^2 - 1").unwrap();
    let factors = vec![Poly::new("a + 1").unwrap()];
    let err = check_factorization(&p, &factors, &vec![1]).err().unwrap();
    assert!(err.starts_with(&format!(
        "Factorization verification failed. Original: {}, Reconstructed: ",
        p.to_string()
    )));
}

#[test]
fn gcd_output_is_read() {
    let (g, a, b) = read_gcd_output(&lines(&[" a + 1 ", "a - 1", " b "])).unwrap();
    assert_eq!((g.as_str(), a.as_str(), b.as_str()), ("a + 1", "a - 1", "b"));
    assert!(read_gcd_output(&lines(&[" 1", "a", "b"])).is_none());
    assert!(read_gcd_output(&lines(&["a", "b"])).is_none());
}

#[test]
fn polynomials_compared_node_for_node() {
    assert!(same_poly(&Poly::new("a + b").unwrap(), &Poly::new("b + a").unwrap()));
    assert!(!same_poly(&Poly::new("a + b").unwrap(), &Poly::new("a - b").unwrap()));
}
