use runexp::evaluator::TextMap;
use runexp::executor::load_existing_results;
use runexp::metrics::parse_output;

#[test]
fn test_parse_output_formats() {
    let metrics: Vec<String> = vec![];
    let mut results = TextMap::new();

    // Basic colon-space format
    parse_output("accuracy: 0.95", &mut results, &metrics);
    assert_eq!(results.get("accuracy: "), Some(&"0.95".to_string()));

    // No space after colon
    parse_output("time:2.3ms", &mut results, &metrics);
    assert_eq!(results.get("time:"), Some(&"2.3".to_string()));

    // With units
    parse_output("latency: 4.5us", &mut results, &metrics);
    assert_eq!(results.get("latency: "), Some(&"4.5".to_string()));

    // Equals sign
    parse_output("result=42", &mut results, &metrics);
    assert_eq!(results.get("result="), Some(&"42".to_string()));

    // Space-separated
    parse_output("count(items) 99", &mut results, &metrics);
    assert_eq!(results.get("count(items) "), Some(&"99".to_string()));
}

#[test]
fn test_parse_output_special_cases() {
    let metrics: Vec<String> = vec![];

    // Carriage return (progress bar simulation) - keep last value
    let mut results = TextMap::new();
    parse_output("progress: 10\rprogress: 50\rprogress: 100", &mut results, &metrics);
    assert_eq!(results.get("progress: "), Some(&"100".to_string()));

    // Multiple values with same label - keep last
    let mut results = TextMap::new();
    parse_output("score: 10\nscore: 20\nscore: 30", &mut results, &metrics);
    assert_eq!(results.get("score: "), Some(&"30".to_string()));

    // Complex line with multiple numbers
    let mut results = TextMap::new();
    parse_output("simulated 73us in 2.8s, 6000 events resolved", &mut results, &metrics);
    assert_eq!(results.get("simulated "), Some(&"73".to_string()));
    assert_eq!(results.get("us in "), Some(&"2.8".to_string()));
    assert_eq!(results.get("s, "), Some(&"6000".to_string()));
}

#[test]
fn test_parse_output_labels_preserved() {
    let mut results = TextMap::new();
    let metrics: Vec<String> = vec![];

    parse_output(
        "Test-Accuracy: 0.95\ntrain_loss: 1.234\nF1-Score (macro): 0.88",
        &mut results,
        &metrics,
    );

    assert_eq!(results.get("Test-Accuracy: "), Some(&"0.95".to_string()));
    assert_eq!(results.get("train_loss: "), Some(&"1.234".to_string()));
    assert_eq!(results.get("F1-Score (macro): "), Some(&"0.88".to_string()));
}

#[test]
fn test_parse_output_metric_filtering() {
    let mut results = TextMap::new();
    let metrics = vec!["accuracy".to_string()];

    parse_output("accuracy: 0.95\nloss: 1.234", &mut results, &metrics);

    assert_eq!(results.get("accuracy: "), Some(&"0.95".to_string()));
    assert_eq!(results.get("loss: "), None);
}

// The result file's text is handed over as read; these mirror files written
// line by line.

#[test]
fn test_load_existing_results_compatible() {
    let contents = "BATCHSIZE,GPU,accuracy,stdout,stderr\n32,1,0.95,\"output\",\"error\"\n";
    let expected_params = vec!["BATCHSIZE".to_string(), "GPU".to_string()];
    let expected_metrics = vec!["accuracy".to_string()];

    let result =
        load_existing_results(contents, &expected_params, &expected_metrics, true, false, false);

    assert!(result.is_ok());
    let results = result.unwrap();
    assert_eq!(results.len(), 1);
    assert_eq!(results[0].params.get("BATCHSIZE"), Some(&"32".to_string()));
    assert_eq!(results[0].params.get("GPU"), Some(&"1".to_string()));
}

#[test]
fn test_load_existing_results_incompatible_params() {
    let contents = "BATCHSIZE,GPU,stdout,stderr\n32,1,\"output\",\"error\"\n";
    let expected_params = vec!["BATCHSIZE".to_string(), "GPU".to_string(), "LR".to_string()];
    let expected_metrics: Vec<String> = vec![];

    let result =
        load_existing_results(contents, &expected_params, &expected_metrics, true, false, false);

    assert!(result.is_err());
    assert!(result.unwrap_err().contains("Header mismatch"));
}

#[test]
fn test_load_existing_results_incompatible_metrics() {
    let contents = "BATCHSIZE,GPU,accuracy,stdout,stderr\n32,1,0.95,\"output\",\"error\"\n";
    let expected_params = vec!["BATCHSIZE".to_string(), "GPU".to_string()];
    let expected_metrics = vec!["loss".to_string()];

    let result =
        load_existing_results(contents, &expected_params, &expected_metrics, true, false, false);

    assert!(result.is_err());
    assert!(result.unwrap_err().contains("Header mismatch"));
}

#[test]
fn test_load_existing_results_preserve_output_mismatch() {
    let contents = "BATCHSIZE,GPU,accuracy,stdout,stderr\n32,1,0.95,\"output\",\"error\"\n";
    let expected_params = vec!["BATCHSIZE".to_string(), "GPU".to_string()];
    let expected_metrics = vec!["accuracy".to_string()];

    let result =
        load_existing_results(contents, &expected_params, &expected_metrics, false, false, false);

    assert!(result.is_err());
    assert!(result.unwrap_err().contains("Header mismatch"));
}

#[test]
fn test_load_existing_results_without_output_columns() {
    let contents = "BATCHSIZE,GPU,accuracy\n32,1,0.95\n";
    let expected_params = vec!["BATCHSIZE".to_string(), "GPU".to_string()];
    let expected_metrics = vec!["accuracy".to_string()];

    let result =
        load_existing_results(contents, &expected_params, &expected_metrics, false, false, false);

    assert!(result.is_ok());
    let results = result.unwrap();
    assert_eq!(results.len(), 1);
    assert_eq!(results[0].params.get("BATCHSIZE"), Some(&"32".to_string()));
    assert_eq!(results[0].params.get("GPU"), Some(&"1".to_string()));
    assert_eq!(results[0].metrics.get("accuracy"), Some(&"0.95".to_string()));
}
