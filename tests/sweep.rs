use runexp::csv::{build_csv_headers, escape_csv_field, parse_csv};
use runexp::daemon::{daemonize, should_continue, write_pid_file};
use runexp::evaluator::{evaluate_params, Combination, TextMap};
use runexp::executor::{
    evaluate_run, load_existing_results, missing_metrics, render_results, result_exists,
    ExperimentResult, Sweep,
};
use runexp::metrics::parse_output;
use runexp::parser::Options;

fn pairs(items: &[(&str, &str)]) -> Vec<(String, String)> {
    items.iter().map(|(a, b)| (a.to_string(), b.to_string())).collect()
}

fn values(combos: &[Combination], name: &str) -> Vec<String> {
    combos.iter().map(|c| c.params.get(name).unwrap().clone()).collect()
}

fn chars(s: &str) -> Vec<char> {
    s.chars().collect()
}

#[test]
fn count_is_product_of_value_counts() {
    let combos = evaluate_params(&pairs(&[("A", "1,2"), ("B", "x,y,z"), ("C", "0:4")])).unwrap();
    assert_eq!(combos.len(), 2 * 3 * 4);
}

#[test]
fn unit_range_is_half_open_and_ascending() {
    let combos = evaluate_params(&pairs(&[("N", "0:5")])).unwrap();
    assert_eq!(values(&combos, "N"), vec!["0", "1", "2", "3", "4"]);
}

#[test]
fn stepped_ranges_stop_before_the_end() {
    let up = evaluate_params(&pairs(&[("N", "0:10:3")])).unwrap();
    assert_eq!(values(&up, "N"), vec!["0", "3", "6", "9"]);
    let down = evaluate_params(&pairs(&[("N", "10:0:-3")])).unwrap();
    assert_eq!(values(&down, "N"), vec!["10", "7", "4", "1"]);
}

#[test]
fn two_part_range_counts_down_when_start_is_larger() {
    let combos = evaluate_params(&pairs(&[("N", "5:1")])).unwrap();
    assert_eq!(values(&combos, "N"), vec!["5", "4", "3", "2"]);
}

#[test]
fn range_errors() {
    let zero = evaluate_params(&pairs(&[("N", "1:10:0")])).unwrap_err();
    assert_eq!(zero, "Range step cannot be zero");
    let wrong_way = evaluate_params(&pairs(&[("N", "1:10:-1")])).unwrap_err();
    assert_eq!(wrong_way, "Invalid range 1:10:-1");
    let empty = evaluate_params(&pairs(&[("N", "3:3")])).unwrap_err();
    assert_eq!(empty, "Empty range 3:3");
    let bound = evaluate_params(&pairs(&[("N", "x:3")])).unwrap_err();
    assert_eq!(bound, "Range bound is not an integer expression: x");
}

#[test]
fn range_bounds_may_use_parameters() {
    let combos = evaluate_params(&pairs(&[("N", "2"), ("M", "n:2n+1")])).unwrap();
    assert_eq!(values(&combos, "M"), vec!["2", "3", "4"]);
}

#[test]
fn cycles_are_errors() {
    let three = evaluate_params(&pairs(&[("A", "b"), ("B", "c"), ("C", "a")])).unwrap_err();
    assert_eq!(three, "Circular dependency detected in parameter definitions");
    let itself = evaluate_params(&pairs(&[("A", "a+1")])).unwrap_err();
    assert!(itself.contains("Circular dependency"));
}

#[test]
fn exponent_groups_to_the_right() {
    let combos = evaluate_params(&pairs(&[("V", "2^3^2")])).unwrap();
    assert_eq!(values(&combos, "V"), vec!["512"]);
}

#[test]
fn non_numeric_expressions_stay_literal() {
    let combos = evaluate_params(&pairs(&[("V", "2^-1, 9223372036854775807+1 ,2-3")])).unwrap();
    assert_eq!(values(&combos, "V"), vec!["2^-1", "9223372036854775807+1", "2-3"]);
}

#[test]
fn parts_are_trimmed() {
    let combos = evaluate_params(&pairs(&[("V", " 1 ,\t2 ")])).unwrap();
    assert_eq!(values(&combos, "V"), vec!["1", "2"]);
}

#[test]
fn later_resolved_parameters_vary_fastest() {
    // B is declared first but depends on A, so A is evaluated first and varies slowest.
    let combos = evaluate_params(&pairs(&[("B", "a*10,a*100"), ("A", "1,2")])).unwrap();
    assert_eq!(values(&combos, "A"), vec!["1", "1", "2", "2"]);
    assert_eq!(values(&combos, "B"), vec!["10", "100", "20", "200"]);
}

#[test]
fn columns_follow_declaration_order() {
    let combos = evaluate_params(&pairs(&[("C", "a+b"), ("B", "2*a"), ("A", "1,2")])).unwrap();
    assert_eq!(values(&combos, "C"), vec!["3", "6"]);
    let options = Options { metrics: vec!["acc".to_string()], ..Options::default() };
    let headers = build_csv_headers(&combos[0].param_order, &options.metrics, false, false, false);
    assert_eq!(headers, vec!["C", "B", "A", "acc"]);
    let result = evaluate_run(&combos[0], true, Some(0), "acc 0.5".to_string(), String::new(), &options)
        .unwrap();
    let text = render_results(&[result], &combos[0].param_order, &options);
    assert_eq!(text, "C,B,A,acc\n3,2,1,0.5\n");
}

#[test]
fn simulated_line_labels() {
    let mut results = TextMap::new();
    parse_output("simulated 73us in 2.8s, 6000 events resolved", &mut results, &[]);
    assert_eq!(results.len(), 3);
    assert_eq!(results.get("simulated "), Some(&"73".to_string()));
    assert_eq!(results.get("us in "), Some(&"2.8".to_string()));
    assert_eq!(results.get("s, "), Some(&"6000".to_string()));
}

#[test]
fn progress_updates_keep_the_last_value() {
    let mut results = TextMap::new();
    parse_output("progress: 10\rprogress: 50\rprogress: 100", &mut results, &[]);
    assert_eq!(results.len(), 1);
    assert_eq!(results.get("progress: "), Some(&"100".to_string()));
}

#[test]
fn numbers_without_label_and_leading_dots() {
    let mut results = TextMap::new();
    parse_output("42\nratio .5", &mut results, &[]);
    assert_eq!(results.get("value"), Some(&"42".to_string()));
    assert_eq!(results.get("ratio "), Some(&".5".to_string()));
}

#[test]
fn metric_filter_ignores_case() {
    let mut results = TextMap::new();
    parse_output("Accuracy: 0.9\nloss: 2", &mut results, &["ACCURACY".to_string()]);
    assert_eq!(results.get("Accuracy: "), Some(&"0.9".to_string()));
    assert_eq!(results.get("loss: "), None);
    assert_eq!(missing_metrics(&results, &["accuracy".to_string(), "LOSS".to_string()]), vec!["LOSS"]);
}

#[test]
fn failed_runs_do_not_count() {
    let combos = evaluate_params(&pairs(&[("N", "1")])).unwrap();
    let options = Options { metrics: vec!["loss".to_string()], ..Options::default() };
    let exit = evaluate_run(&combos[0], false, Some(1), String::new(), String::new(), &options);
    assert_eq!(exit.unwrap_err(), "Command failed with exit code: Some(1)");
    let signal = evaluate_run(&combos[0], false, None, String::new(), String::new(), &options);
    assert_eq!(signal.unwrap_err(), "Command failed with exit code: None");
    let missing =
        evaluate_run(&combos[0], true, Some(0), "acc: 1".to_string(), String::new(), &options);
    assert_eq!(missing.unwrap_err(), "Missing metrics in output: loss");
}

#[test]
fn stderr_is_read_after_stdout() {
    let combos = evaluate_params(&pairs(&[("N", "1")])).unwrap();
    let options = Options { metrics: vec!["loss".to_string()], ..Options::default() };
    let both = evaluate_run(&combos[0], true, Some(0), "loss 1".to_string(), "loss 2".to_string(), &options)
        .unwrap();
    assert_eq!(both.metrics.get("loss "), Some(&"2".to_string()));
    assert_eq!(both.params.get("N"), Some(&"1".to_string()));
    let only_out = Options { stdout_only: true, ..options.clone() };
    let out = evaluate_run(&combos[0], true, Some(0), "loss 1".to_string(), "loss 2".to_string(), &only_out)
        .unwrap();
    assert_eq!(out.metrics.get("loss "), Some(&"1".to_string()));
}

#[test]
fn csv_fields_are_quoted_when_needed() {
    assert_eq!(escape_csv_field(&chars("plain")), chars("plain"));
    assert_eq!(escape_csv_field(&chars("a,b")), chars("\"a,b\""));
    assert_eq!(escape_csv_field(&chars("say \"hi\"")), chars("\"say \"\"hi\"\"\""));
    assert_eq!(escape_csv_field(&chars("two\nlines")), chars("\"two\nlines\""));
}

#[test]
fn csv_reader_handles_quotes_and_blank_lines() {
    let records = parse_csv("a,b\n\n\"x,1\",\"line\nbreak\"\r\n\"say \"\"hi\"\"\",\n");
    assert_eq!(
        records,
        vec![
            vec!["a".to_string(), "b".to_string()],
            vec!["x,1".to_string(), "line\nbreak".to_string()],
            vec!["say \"hi\"".to_string(), String::new()],
        ]
    );
}

#[test]
fn rendered_results_read_back() {
    let combos = evaluate_params(&pairs(&[("N", "1,2")])).unwrap();
    let options = Options {
        metrics: vec!["acc".to_string()],
        preserve_output: true,
        ..Options::default()
    };
    let mut results = Vec::new();
    for c in &combos {
        results.push(
            evaluate_run(c, true, Some(0), "acc 0.5, done".to_string(), "warn, \"x\"".to_string(), &options)
                .unwrap(),
        );
    }
    let text = render_results(&results, &combos[0].param_order, &options);
    assert_eq!(
        text,
        "N,acc,stdout,stderr\n1,0.5,\"acc 0.5, done\",\"warn, \"\"x\"\"\"\n2,0.5,\"acc 0.5, done\",\"warn, \"\"x\"\"\"\n"
    );
    let back = load_existing_results(&text, &combos[0].param_order, &options.metrics, true, false, false)
        .unwrap();
    assert_eq!(back.len(), 2);
    assert_eq!(back[1].params.get("N"), Some(&"2".to_string()));
    assert_eq!(back[1].stderr, "warn, \"x\"");
    assert_eq!(render_results(&back, &combos[0].param_order, &options), text);
    assert_eq!(render_results(&[], &combos[0].param_order, &options), "");
}

#[test]
fn load_errors_and_short_rows() {
    let names = vec!["N".to_string()];
    let none: Vec<String> = vec![];
    let empty = load_existing_results("\n\n", &names, &none, false, false, false);
    assert_eq!(empty.unwrap_err(), "Empty results file");
    let mismatch = load_existing_results("M\n1\n", &names, &none, false, false, false);
    assert_eq!(mismatch.unwrap_err(), "Header mismatch.\nExpected: N\nFound:    M");
    let short = load_existing_results("N\n1\n2,3\n4\n", &names, &none, false, false, false).unwrap();
    assert_eq!(short.len(), 2);
    assert_eq!(short[1].params.get("N"), Some(&"4".to_string()));
}

#[test]
fn resumed_sweep_runs_only_missing_combinations() {
    let combos = evaluate_params(&pairs(&[("N", "1:5")])).unwrap();
    let options = Options { metrics: vec!["acc".to_string()], ..Options::default() };
    let file = "N,acc\n3,0.3\n1,0.1\n";
    let existing =
        load_existing_results(file, &combos[0].param_order, &options.metrics, false, false, false).unwrap();
    assert!(result_exists(&existing, &combos[0]));
    assert!(!result_exists(&existing, &combos[1]));

    let mut sweep = Sweep::new(combos.clone(), existing);
    let mut ran = Vec::new();
    while let Some(i) = sweep.next_pending() {
        ran.push(i);
        let out = format!("acc 0.{}", i + 1);
        let result = evaluate_run(sweep.combination(i), true, Some(0), out, String::new(), &options).unwrap();
        sweep.record(result);
    }
    assert_eq!(ran, vec![1, 3]);
    assert_eq!(sweep.len(), 4);
    let text = render_results(sweep.results(), &combos[0].param_order, &options);
    assert_eq!(text, "N,acc\n3,0.3\n1,0.1\n2,0.2\n4,0.4\n");
}

#[test]
fn result_maps_compare_by_value() {
    let mut a = TextMap::new();
    a.push("X".to_string(), "1".to_string());
    a.push("Y".to_string(), "2".to_string());
    let mut b = TextMap::new();
    b.push("Y".to_string(), "2".to_string());
    b.push("X".to_string(), "1".to_string());
    assert!(a.same_values(&b));
    b.insert("X".to_string(), "5".to_string());
    assert_eq!(b.len(), 2);
    assert!(!a.same_values(&b));
    let result = ExperimentResult { params: a.copy(), metrics: TextMap::new(), stdout: String::new(), stderr: String::new() };
    assert_eq!(result.params.entry(1), (&"Y".to_string(), &"2".to_string()));
}

#[test]
fn defaults_and_background_stubs() {
    let options = Options::default();
    assert_eq!(options.output_file, "results.csv");
    assert!(!options.preserve_output && !options.stdout_only && !options.stderr_only);
    assert!(options.metrics.is_empty());
    assert!(daemonize().is_ok());
    assert!(write_pid_file("run.pid").is_ok());
    assert!(should_continue("run.pid"));
}

#[test]
fn metric_columns_take_a_label_containing_the_name() {
    let mut params = TextMap::new();
    params.push("A".to_string(), "1".to_string());
    params.push("B".to_string(), "2".to_string());
    params.push("C".to_string(), "3".to_string());
    let mut metrics = TextMap::new();
    metrics.push("Acc: ".to_string(), "0.9".to_string());
    let result = ExperimentResult { params, metrics, stdout: String::new(), stderr: String::new() };
    let options = Options { metrics: vec!["acc".to_string()], ..Options::default() };
    let names = vec!["C".to_string(), "B".to_string(), "A".to_string()];
    assert_eq!(render_results(&[result], &names, &options), "C,B,A,acc\n3,2,1,0.9\n");
}

#[test]
fn labels_keep_leading_text() {
    let mut results = TextMap::new();
    parse_output("  acc: 1\n\tloss 2", &mut results, &[]);
    assert_eq!(results.get("  acc: "), Some(&"1".to_string()));
    assert_eq!(results.get("\tloss "), Some(&"2".to_string()));
    assert_eq!(results.get("acc: "), None);
}

#[test]
fn successful_run_keeps_every_label() {
    let combos = evaluate_params(&pairs(&[("N", "1")])).unwrap();
    let options = Options { preserve_output: true, ..Options::default() };
    let result =
        evaluate_run(&combos[0], true, Some(0), "a: 1".to_string(), "b: 2".to_string(), &options).unwrap();
    assert_eq!(result.metrics.len(), 2);
    assert_eq!(result.metrics.get("a: "), Some(&"1".to_string()));
    assert_eq!(result.metrics.get("b: "), Some(&"2".to_string()));
    assert_eq!(result.stdout, "a: 1");
    assert_eq!(result.stderr, "b: 2");
}

#[test]
fn inserting_a_name_again_replaces_its_value() {
    let mut m = TextMap::new();
    m.insert("X".to_string(), "1".to_string());
    m.insert("Y".to_string(), "2".to_string());
    m.insert("X".to_string(), "3".to_string());
    assert_eq!(m.len(), 2);
    assert_eq!(m.entry(0), (&"X".to_string(), &"3".to_string()));
    let copy = m.clone();
    assert!(copy.same_values(&m));
}
