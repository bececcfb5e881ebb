use web_server::control::{command_from_words, parse_command, parse_count, Command};

#[test]
fn parses_commands() {
    assert_eq!(parse_command("grow 5\n"), Command::Grow(5));
    assert_eq!(parse_command("  SHRINK   3 "), Command::Shrink(3));
    assert_eq!(parse_command("print"), Command::Print);
    assert_eq!(parse_command("Help"), Command::Help);
    assert_eq!(parse_command(""), Command::Unknown);
    assert_eq!(parse_command("dance 2"), Command::Unknown);
    assert_eq!(parse_command("grow"), Command::Grow(0));
    assert_eq!(parse_command("grow abc"), Command::Grow(0));
}

#[test]
fn command_from_folds_case() {
    assert_eq!(Command::from("GROW", 2), Command::Grow(2));
    assert_eq!(Command::from("grow2", 2), Command::Unknown);
}

#[test]
fn counts_parse_like_usize() {
    assert_eq!(parse_count("42"), 42);
    assert_eq!(parse_count("+7"), 7);
    assert_eq!(parse_count("+"), 0);
    assert_eq!(parse_count("-1"), 0);
    assert_eq!(parse_count("1x"), 0);
    assert_eq!(parse_count("18446744073709551615"), usize::MAX);
    assert_eq!(parse_count("18446744073709551616"), 0);
    assert_eq!(parse_count("99999999999999999999999"), 0);
}

#[test]
fn command_from_word_list() {
    let ws = vec!["Shrink".to_string(), "4".to_string(), "extra".to_string()];
    assert_eq!(command_from_words(&ws), Command::Shrink(4));
    assert_eq!(command_from_words(&vec!["help".to_string()]), Command::Help);
    assert_eq!(command_from_words(&Vec::new()), Command::Unknown);
}
