use yuukei::cli::{command_label, parse_args, usage_text, CliMode, OutputMode};

#[test]
fn no_arguments_start_the_repl() {
    assert_eq!(parse_args(Vec::new()), Ok(CliMode::Repl));
}

#[test]
fn help_flags_are_the_only_accepted_flags() {
    assert_eq!(parse_args(vec!["-h".to_string()]), Ok(CliMode::Help));
    assert_eq!(parse_args(vec!["--help".to_string()]), Ok(CliMode::Help));
    assert!(parse_args(vec!["--say".to_string(), "hello".to_string()]).is_err());
}

#[test]
fn jsonl_output_is_only_enabled_by_its_exact_environment_value() {
    assert_eq!(OutputMode::Jsonl.name(), "jsonl");
    assert_eq!(OutputMode::Human.toggled(), OutputMode::Jsonl);
}

#[test]
fn output_mode_comes_only_from_the_exact_jsonl_value() {
    assert_eq!(OutputMode::from_env_value(Some("jsonl")), OutputMode::Jsonl);
    assert_eq!(OutputMode::from_env_value(Some("JSONL")), OutputMode::Human);
    assert_eq!(OutputMode::from_env_value(Some(" jsonl")), OutputMode::Human);
    assert_eq!(OutputMode::from_env_value(None), OutputMode::Human);
    assert_eq!(OutputMode::Human.name(), "human");
}

#[test]
fn toggling_the_output_mode_twice_restores_it() {
    assert_eq!(OutputMode::Human.toggled().toggled(), OutputMode::Human);
    assert_eq!(OutputMode::Jsonl.toggled().toggled(), OutputMode::Jsonl);
}

#[test]
fn unknown_arguments_name_the_first_offending_argument() {
    assert_eq!(
        parse_args(vec!["--say".to_string(), "hello".to_string()]),
        Err("unknown argument: --say".to_string())
    );
    assert_eq!(
        parse_args(vec!["-h".to_string(), "extra".to_string()]),
        Err("unknown argument: -h".to_string())
    );
}

#[test]
fn usage_lists_both_invocations() {
    assert_eq!(usage_text(), "Usage:\n  yuukei-cli-surface\n  yuukei-cli-surface --help");
}

#[test]
fn command_labels_show_text_or_id() {
    assert_eq!(
        command_label("dialogue.say", "c1", Some("yuu"), Some("こんにちは")),
        "dialogue.say / yuu / こんにちは"
    );
    assert_eq!(command_label("avatar.motion", "c2", None, None), "avatar.motion / c2 / target");
    assert_eq!(command_label("avatar.motion", "c3", Some("yuu"), Some("")), "avatar.motion / c3 / yuu");
}
