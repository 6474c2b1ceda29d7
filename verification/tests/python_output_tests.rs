use polyalgebra::python_output::read_python_output;

#[test]
fn equations_then_plots() {
    let out = "a^2 - 2*c\r\nb - d\n\nplotA a b\nnot a plot line here\nplotB  c\td\n\n";
    let (equations, plots) = read_python_output(out);
    assert_eq!(equations, vec!["a^2 - 2*c".to_string(), "b - d".to_string()]);
    assert_eq!(
        plots,
        vec![
            ("plotA".to_string(), "a".to_string(), "b".to_string()),
            ("plotB".to_string(), "c".to_string(), "d".to_string()),
        ]
    );
}

#[test]
fn output_without_blank_line_has_no_plots() {
    let (equations, plots) = read_python_output("x - 1\ny - 2");
    assert_eq!(equations, vec!["x - 1".to_string(), "y - 2".to_string()]);
    assert!(plots.is_empty());
    let (equations, plots) = read_python_output("");
    assert!(equations.is_empty());
    assert!(plots.is_empty());
}
