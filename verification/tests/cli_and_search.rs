use sooboost::categorical::{CategoricalEncoding, FeatureEncoding};
use sooboost::cli::{
    feature_list, next_value, parse_experiment_args, parse_mode, parse_task, parse_train_args, parse_u64,
    parse_usize, split_commas, write_record, CliError, Mode, Task,
};
use sooboost::search::{argmax_total, lower_bound, upper_bound};

fn b(x: f64) -> u64 {
    x.to_bits()
}

fn argv(items: &[&str]) -> Vec<String> {
    items.iter().map(|s| s.to_string()).collect()
}

fn floats(v: &[String]) -> Vec<bool> {
    v.iter().map(|a| a.parse::<f64>().is_ok()).collect()
}

#[test]
fn parse_task_known_and_unknown() {
    assert_eq!(parse_task("regression"), Some(Task::Regression));
    assert_eq!(parse_task("binary"), Some(Task::Binary));
    assert_eq!(parse_task("multiclass"), None);
    assert_eq!(parse_mode("generate"), Some(Mode::Generate));
    assert_eq!(parse_mode("impute"), Some(Mode::Impute));
    assert_eq!(parse_mode("Impute"), None);
}

#[test]
fn integers_parse_like_std() {
    for s in ["0", "42", "+7", "007", "18446744073709551615", "18446744073709551616", "", "+", "-1", "1a", " 1", "١"] {
        assert_eq!(parse_u64(s), s.parse::<u64>().ok(), "{s:?}");
        assert_eq!(parse_usize(s), s.parse::<usize>().ok(), "{s:?}");
    }
}

#[test]
fn split_keeps_empty_pieces() {
    assert_eq!(split_commas("f0,f1,f2"), vec!["f0", "f1", "f2"]);
    assert_eq!(split_commas(""), vec![""]);
    assert_eq!(split_commas("a,,b,"), vec!["a", "", "b", ""]);
    assert_eq!(split_commas("é,ü"), vec!["é", "ü"]);
    assert_eq!(feature_list("a,,b,"), vec!["a", "b"]);
    assert!(feature_list(",,").is_empty());
}

#[test]
fn train_args_parse_in_order() {
    let a = argv(&[
        "train", "--train", "tr.csv", "--test", "te.csv", "--features", "f0,f1", "--target", "y", "--task", "binary",
        "--output", "out.csv", "--n-estimators", "7", "--learning-rate", "0.05", "--seed", "9",
    ]);
    let parsed = parse_train_args(&a, &floats(&a)).expect("valid");
    assert_eq!(parsed.train, "tr.csv");
    assert_eq!(parsed.features, vec!["f0", "f1"]);
    assert_eq!(parsed.task, Task::Binary);
    assert_eq!(parsed.n_estimators, 7);
    assert_eq!(parsed.learning_rate_at, Some(16));
    assert_eq!(parsed.min_split_gain_at, None);
    assert_eq!(parsed.max_depth, 6);
    assert_eq!(parsed.max_bins, 255);
    assert_eq!(parsed.seed, 9);
}

#[test]
fn train_args_errors() {
    let e = |items: &[&str]| {
        let a = argv(items);
        parse_train_args(&a, &floats(&a)).unwrap_err()
    };
    assert_eq!(e(&[]), CliError::UnknownSubcommand(String::new()));
    assert_eq!(e(&["predict"]), CliError::UnknownSubcommand("predict".into()));
    assert_eq!(e(&["train", "--train"]), CliError::MissingValue("--train".into()));
    assert_eq!(e(&["train", "--task", "x"]), CliError::UnknownTask("x".into()));
    assert_eq!(e(&["train", "--max-depth", "x"]), CliError::NotAnInteger("--max-depth".into()));
    assert_eq!(e(&["train", "--learning-rate", "fast", "--bogus", "1"]), CliError::NotANumber("--learning-rate".into()));
    assert_eq!(e(&["train", "--bogus", "1"]), CliError::UnknownOption("--bogus".into()));
    assert_eq!(e(&["train"]), CliError::MissingOption("--train".into()));
    assert_eq!(e(&["train", "--train", "a"]), CliError::MissingOption("--test".into()));
    assert_eq!(
        e(&["train", "--train", "a", "--test", "b", "--features", "f", "--target", "t"]),
        CliError::MissingOption("--output".into())
    );
}

#[test]
fn experiment_args() {
    let a = argv(&["--mode", "impute", "--train", "t.csv", "--features", "a,,b", "--output", "o.csv", "--feature-index", "1"]);
    let p = parse_experiment_args(&a).expect("valid");
    assert_eq!(p.mode, Mode::Impute);
    assert_eq!(p.features, vec!["a", "b"]);
    assert_eq!(p.target, "target");
    assert_eq!(p.count, 256);
    assert_eq!(p.steps, 20);
    assert_eq!(p.imputation_samples, 4);
    assert_eq!(p.seed, 42);
    assert_eq!(p.feature_index, Some(1));
    assert_eq!(p.test, None);
    assert_eq!(parse_experiment_args(&argv(&["-h"])).unwrap_err(), CliError::HelpRequested);
    assert_eq!(parse_experiment_args(&argv(&["--mode", "x"])).unwrap_err(), CliError::UnknownMode("x".into()));
    assert_eq!(parse_experiment_args(&argv(&["--features", ","])).unwrap_err(), CliError::EmptyFeatures);
    assert_eq!(parse_experiment_args(&argv(&["--what", "x"])).unwrap_err(), CliError::UnknownOption("--what".into()));
    assert_eq!(parse_experiment_args(&argv(&["--mode"])).unwrap_err(), CliError::MissingValue("--mode".into()));
    assert_eq!(parse_experiment_args(&argv(&[])).unwrap_err(), CliError::MissingOption("--mode".into()));
    let zero = argv(&["--mode", "generate", "--train", "t", "--features", "a", "--output", "o", "--steps", "0"]);
    assert_eq!(parse_experiment_args(&zero).unwrap_err(), CliError::NonPositiveCounts);
    assert_eq!(next_value(&argv(&["a"]), 0, &"--x".to_string()), Ok("a".to_string()));
    assert_eq!(next_value(&argv(&["a"]), 1, &"--x".to_string()), Err(CliError::MissingValue("--x".into())));
}

#[test]
fn records_are_comma_joined_lines() {
    let mut out = String::new();
    write_record(&mut out, &argv(&["row_index", "actual", "imputed"]));
    write_record(&mut out, &argv(&["1"]));
    write_record(&mut out, &argv(&[]));
    assert_eq!(out, "row_index,actual,imputed\n1\n\n");
}

#[test]
fn bounds_bracket_equal_values() {
    let v: Vec<u64> = [1.0, 2.0, 2.0, 2.0, 5.0].iter().map(|x| b(*x)).collect();
    assert_eq!(lower_bound(&v, b(2.0)), 1);
    assert_eq!(upper_bound(&v, b(2.0)), 4);
    assert_eq!(lower_bound(&v, b(0.0)), 0);
    assert_eq!(upper_bound(&v, b(9.0)), 5);
    assert_eq!(lower_bound(&[], b(1.0)), 0);
}

#[test]
fn argmax_takes_the_first_largest() {
    assert_eq!(argmax_total(&[]), 0);
    assert_eq!(argmax_total(&[b(0.1), b(0.7), b(0.2)]), 1);
    assert_eq!(argmax_total(&[b(0.5), b(0.5), b(0.1)]), 0);
    assert_eq!(argmax_total(&[b(-1.0), b(-0.0), b(0.0)]), 2);
}

#[test]
fn categorical_column_encoding() {
    let e = FeatureEncoding::new(vec![(3, b(0.2))], b(0.5), b(1.0)).unwrap();
    let enc = CategoricalEncoding::from_parts(vec![e]);
    let out = enc.apply_to_column(0, &vec![false, true, false, false], &vec![Some(3), Some(3), Some(9), None]);
    assert_eq!(out, vec![Some(b(0.2)), None, Some(b(0.5)), None]);
}

#[test]
fn train_args_defaults_and_later_options_win() {
    let a = argv(&[
        "train", "--train", "a", "--test", "b", "--features", "x,,y", "--target", "t", "--output", "o",
        "--train", "c", "--min-split-gain", "0.5", "--max-bins", "16", "--min-samples-leaf", "2",
    ]);
    let p = parse_train_args(&a, &floats(&a)).expect("valid");
    assert_eq!(p.train, "c");
    assert_eq!(p.features, vec!["x", "", "y"]);
    assert_eq!(p.task, Task::Regression);
    assert_eq!(p.n_estimators, 100);
    assert_eq!(p.learning_rate_at, None);
    assert_eq!(p.min_split_gain_at, Some(14));
    assert_eq!(p.max_bins, 16);
    assert_eq!(p.min_samples_leaf, 2);
    assert_eq!(p.seed, 42);
    // an option's problem is reported before the missing required ones
    let bad = argv(&["train", "--seed", "-3"]);
    assert_eq!(parse_train_args(&bad, &floats(&bad)).unwrap_err(), CliError::NotAnInteger("--seed".into()));
    // the first problem in order wins
    let two = argv(&["train", "--bogus", "1", "--task", "x"]);
    assert_eq!(parse_train_args(&two, &floats(&two)).unwrap_err(), CliError::UnknownOption("--bogus".into()));
}

#[test]
fn experiment_args_read_in_order() {
    let a = argv(&[
        "--mode", "generate", "--train", "t", "--test", "u", "--features", "a", "--target", "y", "--output", "o",
        "--count", "5", "--seed", "7", "--steps", "3", "--imputation-samples", "2", "--mode", "impute",
    ]);
    let p = parse_experiment_args(&a).expect("valid");
    assert_eq!(p.mode, Mode::Impute);
    assert_eq!(p.test, Some("u".to_string()));
    assert_eq!(p.target, "y");
    assert_eq!((p.count, p.seed, p.steps, p.imputation_samples), (5, 7, 3, 2));
    // help stops before any later problem
    assert_eq!(parse_experiment_args(&argv(&["--help", "--bogus"])).unwrap_err(), CliError::HelpRequested);
    // an unknown flag is refused before its missing value
    assert_eq!(parse_experiment_args(&argv(&["--bogus"])).unwrap_err(), CliError::UnknownOption("--bogus".into()));
    assert_eq!(
        parse_experiment_args(&argv(&["--mode", "generate", "--count", "x"])).unwrap_err(),
        CliError::NotAnInteger("--count".into())
    );
    assert_eq!(
        parse_experiment_args(&argv(&["--mode", "generate", "--train", "t"])).unwrap_err(),
        CliError::MissingOption("--features".into())
    );
}
