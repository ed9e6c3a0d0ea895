use runexp::parser::{parse_args, script_command};

fn args(items: &[&str]) -> Vec<String> {
    items.iter().map(|s| s.to_string()).collect()
}

#[test]
fn parameters_options_and_command() {
    let (params, command, options) = parse_args(&args(&[
        "--gpu", "1,2", "--batch-size=32", "-n", "4", "-x=5", "--metrics", "acc, loss",
        "--output=o.csv", "-p", "python", "train.py", "--gpu",
    ]))
    .unwrap();
    assert_eq!(
        params,
        vec![
            ("GPU".to_string(), "1,2".to_string()),
            ("BATCH_SIZE".to_string(), "32".to_string()),
            ("N".to_string(), "4".to_string()),
            ("X".to_string(), "5".to_string()),
        ]
    );
    assert_eq!(command, vec!["python", "train.py", "--gpu"]);
    assert_eq!(options.metrics, vec!["acc", "loss"]);
    assert_eq!(options.output_file, "o.csv");
    assert!(options.preserve_output);
    assert!(!options.stdout_only && !options.stderr_only);
}

#[test]
fn capture_and_output_forms() {
    let (_, command, options) =
        parse_args(&args(&["--stderr", "-m=a", "--output", "r.csv", "--preserve-output"])).unwrap();
    assert!(command.is_empty());
    assert!(options.stderr_only);
    assert_eq!(options.metrics, vec!["a"]);
    assert_eq!(options.output_file, "r.csv");
    assert!(options.preserve_output);
}

#[test]
fn refused_command_lines() {
    let both = parse_args(&args(&["--stdout", "--stderr", "cmd"])).unwrap_err();
    assert_eq!(both, "Cannot specify both --stdout and --stderr");
    assert_eq!(parse_args(&args(&["--metrics"])).unwrap_err(), "--metrics/-m requires an argument");
    assert_eq!(parse_args(&args(&["--output"])).unwrap_err(), "--output requires an argument");
    assert_eq!(parse_args(&args(&["-h"])).unwrap_err(), "HELP_REQUESTED");
    assert_eq!(parse_args(&args(&["--gpu"])).unwrap_err(), "Parameter --gpu requires a value");
    assert_eq!(parse_args(&args(&["-n"])).unwrap_err(), "Parameter -n requires a value");
    assert_eq!(parse_args(&args(&["-ab"])).unwrap_err(), "Unknown option: -ab");
    assert_eq!(parse_args(&args(&["-ab=1"])).unwrap_err(), "Unknown option: -ab=1");
}

#[test]
fn scripts_from_standard_input() {
    assert_eq!(
        script_command(" \n\t".to_string()).unwrap_err(),
        "No command specified and no input from stdin"
    );
    assert_eq!(script_command("echo $N\n".to_string()).unwrap(), vec!["bash", "-c", "echo $N\n"]);
}
