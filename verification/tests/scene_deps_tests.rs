use polyalgebra::scene_deps::dependent_objects;

fn strings(xs: &[&str]) -> Vec<String> {
    xs.iter().map(|x| x.to_string()).collect()
}

#[test]
fn dependents_are_collected_through_chains() {
    let names = strings(&["A", "B", "C", "D", "E"]);
    let deps = vec![
        strings(&[]),
        strings(&["A"]),
        strings(&["B"]),
        strings(&["E"]),
        strings(&[]),
    ];
    let r = dependent_objects(&names, &deps, "A");
    assert_eq!(r, strings(&["A", "B", "C"]));
}

#[test]
fn dependents_found_whatever_the_order() {
    let names = strings(&["C", "B", "A"]);
    let deps = vec![strings(&["B"]), strings(&["A"]), strings(&[])];
    let r = dependent_objects(&names, &deps, "A");
    assert_eq!(r, strings(&["A", "C", "B"]));
}

#[test]
fn object_without_dependents_stands_alone() {
    let names = strings(&["A", "B"]);
    let deps = vec![strings(&[]), strings(&["A"])];
    let r = dependent_objects(&names, &deps, "B");
    assert_eq!(r, strings(&["B"]));
}

#[test]
fn unknown_target_still_listed() {
    let names = strings(&["A"]);
    let deps = vec![strings(&["Z"])];
    let r = dependent_objects(&names, &deps, "Z");
    assert_eq!(r, strings(&["Z", "A"]));
}
