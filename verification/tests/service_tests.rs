use polyalgebra::service::actions;

#[test]
fn actions_in_the_order_of_the_toolbar() {
    let acts = actions();
    let names: Vec<&str> = acts.iter().map(|a| a.name.as_str()).collect();
    assert_eq!(
        names,
        vec![
            "FixedPoint", "FreePoint", "Midpoint", "IntersectionPoint", "SlidingPoint", "Projection", "Reflection",
            "ScaledVectorPoint", "ComputedPoint", "LineAB", "PpBisector", "PpToLine", "PlToLine", "Parameter",
            "DistanceInvariant", "AngleInvariant", "Invariant", "Locus",
        ]
    );
    assert_eq!(acts[0].allowed_names, ["A", "B", "C", "D", "E", "F", "G", "H", "I", "J", "K"]);
    assert_eq!(acts[1].allowed_names, ["X", "Y", "Z", "T", "U", "V", "W"]);
    assert_eq!(acts[13].allowed_names, ["t", "u", "v", "w"]);
    assert_eq!(acts[16].name, "Invariant");
    assert_eq!(acts[16].arguments[0].hint, "Enter the formula for the invariant, e.g., d(A, X)");
    assert_eq!(acts[14].object_types, ["TwoPointDistanceInvariant", "PointToLineDistanceInvariant"]);
    assert_eq!(acts[0].arguments[0].exclusive_object_types.len(), 5);
    assert_eq!(acts[9].allowed_names[0], "lineA");
    assert_eq!(acts[17].allowed_names[10], "locusK");
    assert_eq!(acts[7].arguments.len(), 3);
    assert!(acts[7].arguments[0].types.is_empty());
}
