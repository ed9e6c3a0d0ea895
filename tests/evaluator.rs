use runexp::evaluator::evaluate_params;

#[test]
fn test_combinations() {
    let params = vec![
        ("GPU".to_string(), "1,2,4".to_string()),
        ("BATCHSIZE".to_string(), "32,64".to_string()),
    ];
    let combos = evaluate_params(&params).unwrap();
    assert_eq!(combos.len(), 6); // 3 * 2
}

#[test]
fn test_ranges() {
    // Basic range
    let combos = evaluate_params(&[("N".to_string(), "1:4".to_string())]).unwrap();
    assert_eq!(combos.len(), 3);
    assert_eq!(combos[0].params.get("N").unwrap(), "1");
    assert_eq!(combos[2].params.get("N").unwrap(), "3");

    // Positive step
    let combos = evaluate_params(&[("N".to_string(), "1:10:2".to_string())]).unwrap();
    assert_eq!(combos.len(), 5);
    assert_eq!(combos[0].params.get("N").unwrap(), "1");
    assert_eq!(combos[4].params.get("N").unwrap(), "9");

    // Negative step
    let combos = evaluate_params(&[("N".to_string(), "10:1:-2".to_string())]).unwrap();
    assert_eq!(combos.len(), 5);
    assert_eq!(combos[0].params.get("N").unwrap(), "10");
    assert_eq!(combos[4].params.get("N").unwrap(), "2");
}

#[test]
fn test_expressions() {
    // Variable reference and implicit multiplication
    let params = vec![
        ("N".to_string(), "1,2".to_string()),
        ("GPU".to_string(), "n".to_string()),
        ("BATCHSIZE".to_string(), "32n".to_string()),
    ];
    let combos = evaluate_params(&params).unwrap();
    assert_eq!(combos.len(), 2);
    assert_eq!(combos[0].params.get("BATCHSIZE").unwrap(), "32");
    assert_eq!(combos[1].params.get("BATCHSIZE").unwrap(), "64");

    // Operator precedence: n+3*2 = 2+6 = 8
    let combos = evaluate_params(&[
        ("N".to_string(), "2".to_string()),
        ("VALUE".to_string(), "n+3*2".to_string()),
    ])
    .unwrap();
    assert_eq!(combos[0].params.get("VALUE").unwrap(), "8");

    // Operator precedence: n+n^2 = 2+4 = 6
    let combos = evaluate_params(&[
        ("N".to_string(), "2".to_string()),
        ("VALUE".to_string(), "n+n^2".to_string()),
    ])
    .unwrap();
    assert_eq!(combos[0].params.get("VALUE").unwrap(), "6");
}

#[test]
fn test_literal_strings() {
    // Pure literals
    let combos =
        evaluate_params(&[("ROUTING".to_string(), "source,dest,both".to_string())]).unwrap();
    assert_eq!(combos.len(), 3);
    assert_eq!(combos[0].params.get("ROUTING").unwrap(), "source");

    // Mixed literals and numbers
    let combos = evaluate_params(&[("MODE".to_string(), "train,test,1,2".to_string())]).unwrap();
    assert_eq!(combos.len(), 4);
    assert_eq!(combos[0].params.get("MODE").unwrap(), "train");
    assert_eq!(combos[2].params.get("MODE").unwrap(), "1");
}

#[test]
fn test_parameter_order_preserved() {
    let params = vec![
        ("GPU".to_string(), "1,2".to_string()),
        ("BATCHSIZE".to_string(), "32,64".to_string()),
        ("LR".to_string(), "0.01".to_string()),
    ];
    let combos = evaluate_params(&params).unwrap();

    assert_eq!(combos[0].param_order, vec!["GPU", "BATCHSIZE", "LR"]);
}

#[test]
fn test_forward_references() {
    let params = vec![
        ("BATCHSIZE".to_string(), "32n".to_string()), // Refers to N, defined later
        ("N".to_string(), "1,2".to_string()),
        ("GPU".to_string(), "n".to_string()), // Also refers to N
    ];
    let combos = evaluate_params(&params).unwrap();

    assert_eq!(combos.len(), 2);

    assert_eq!(combos[0].params.get("N").unwrap(), "1");
    assert_eq!(combos[0].params.get("BATCHSIZE").unwrap(), "32");
    assert_eq!(combos[0].params.get("GPU").unwrap(), "1");

    assert_eq!(combos[1].params.get("N").unwrap(), "2");
    assert_eq!(combos[1].params.get("BATCHSIZE").unwrap(), "64");
    assert_eq!(combos[1].params.get("GPU").unwrap(), "2");

    assert_eq!(combos[0].param_order, vec!["BATCHSIZE", "N", "GPU"]);
}

#[test]
fn test_circular_dependency_detection() {
    let params = vec![
        ("A".to_string(), "b".to_string()), // A depends on B
        ("B".to_string(), "a".to_string()), // B depends on A - circular!
    ];
    let result = evaluate_params(&params);

    assert!(result.is_err());
    assert!(result.unwrap_err().contains("Circular dependency"));
}

#[test]
fn test_loop_order() {
    let params = vec![
        ("GPU".to_string(), "1,2".to_string()),
        ("BATCHSIZE".to_string(), "32,64".to_string()),
    ];
    let combos = evaluate_params(&params).unwrap();

    assert_eq!(combos.len(), 4);

    assert_eq!(combos[0].params.get("GPU").unwrap(), "1");
    assert_eq!(combos[0].params.get("BATCHSIZE").unwrap(), "32");

    assert_eq!(combos[1].params.get("GPU").unwrap(), "1");
    assert_eq!(combos[1].params.get("BATCHSIZE").unwrap(), "64");

    assert_eq!(combos[2].params.get("GPU").unwrap(), "2");
    assert_eq!(combos[2].params.get("BATCHSIZE").unwrap(), "32");

    assert_eq!(combos[3].params.get("GPU").unwrap(), "2");
    assert_eq!(combos[3].params.get("BATCHSIZE").unwrap(), "64");
}

#[test]
fn test_complex_forward_dependency() {
    let params = vec![
        ("C".to_string(), "a+b".to_string()), // C depends on A and B
        ("B".to_string(), "2a".to_string()),  // B depends on A
        ("A".to_string(), "1,2".to_string()), // A has no dependencies
    ];
    let combos = evaluate_params(&params).unwrap();

    assert_eq!(combos.len(), 2);

    assert_eq!(combos[0].params.get("A").unwrap(), "1");
    assert_eq!(combos[0].params.get("B").unwrap(), "2");
    assert_eq!(combos[0].params.get("C").unwrap(), "3");

    assert_eq!(combos[1].params.get("A").unwrap(), "2");
    assert_eq!(combos[1].params.get("B").unwrap(), "4");
    assert_eq!(combos[1].params.get("C").unwrap(), "6");

    assert_eq!(combos[0].param_order, vec!["C", "B", "A"]);
}
