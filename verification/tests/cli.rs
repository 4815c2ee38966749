use autoeq::cli::{parse_command, parse_equalize_args, ArgsError, Command};

fn strings(v: &[&str]) -> Vec<String> {
    v.iter().map(|s| s.to_string()).collect()
}

#[test]
fn commands_are_recognised() {
    assert_eq!(parse_command(&strings(&["autoeq"])), Command::Usage);
    assert_eq!(parse_command(&strings(&["autoeq", "equalize", "x.csv"])), Command::Equalize);
    assert_eq!(parse_command(&strings(&["autoeq", "configs"])), Command::Configs);
    assert_eq!(parse_command(&strings(&["autoeq", "bench"])), Command::Bench);
    assert_eq!(parse_command(&strings(&["autoeq", "help"])), Command::Help);
    assert_eq!(parse_command(&strings(&["autoeq", "--help"])), Command::Help);
    assert_eq!(parse_command(&strings(&["autoeq", "-h"])), Command::Help);
    assert_eq!(parse_command(&strings(&["autoeq", "equalise"])), Command::Unknown);
}

#[test]
fn equalize_options_are_read() {
    let a = parse_equalize_args(&strings(&["m.csv"])).unwrap();
    assert_eq!(a.input, "m.csv");
    assert_eq!(a.target, None);
    assert_eq!(a.config, "8_PEAKING_WITH_SHELVES");
    assert_eq!(a.name, None);

    let a = parse_equalize_args(&strings(&[
        "m.csv", "--target", "t.csv", "--config", "QUDELIX_5K", "--name", "HD 600",
    ]))
    .unwrap();
    assert_eq!(a.target, Some("t.csv".to_string()));
    assert_eq!(a.config, "QUDELIX_5K");
    assert_eq!(a.name, Some("HD 600".to_string()));

    let a = parse_equalize_args(&strings(&["m.csv", "--config"])).unwrap();
    assert_eq!(a.config, "8_PEAKING_WITH_SHELVES");
}

#[test]
fn equalize_option_errors() {
    assert!(matches!(parse_equalize_args(&vec![]), Err(ArgsError::MissingInput)));
    match parse_equalize_args(&strings(&["m.csv", "--fast"])) {
        Err(ArgsError::UnknownOption(o)) => assert_eq!(o, "--fast"),
        other => panic!("{:?}", other),
    }
}
