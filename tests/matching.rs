use clide::{choose_command, from_lines, parse_with, ArgError, Clide, ParseResult};

fn args(list: &[&str]) -> Vec<String> {
    list.iter().map(|s| s.to_string()).collect()
}

fn lines(list: &[&str]) -> Vec<String> {
    args(list)
}

fn values(result: &ParseResult, key: &str) -> Option<Vec<String>> {
    result.options.iter().find(|(k, _)| k == key).map(|(_, v)| v.clone())
}

fn error_of(usage: &[&str], argv: &[&str]) -> String {
    let parser = Clide::from_usage_lines(&lines(usage)).unwrap();
    match parser.parse(&args(argv)) {
        Err(ArgError(msg)) => msg,
        Ok(r) => panic!("expected an error, got {:?}", r),
    }
}

const SERVE: &str =
    "Usage: mytool [-v|--verbose] serve [--port=INT:8080] [--tls] [--root=PATH] <dir:PATH>";
const INIT: &str = "Usage: mytool init <path:PATH>";

#[test]
fn first_literal_selects_second_command() {
    let parser = Clide::from_usage_lines(&lines(&[SERVE, INIT])).unwrap();
    let result = parser.parse(&args(&["init", "/proj"])).unwrap();
    assert_eq!(result.command, "init");
    assert_eq!(result.positionals, vec![("path".to_string(), "/proj".to_string())]);
    assert!(result.options.is_empty());
}

#[test]
fn choose_command_falls_back_to_first() {
    let spec = from_lines(&lines(&[SERVE, INIT])).unwrap();
    assert_eq!(choose_command(&spec, &args(&["/x"])).name, "serve");
    assert_eq!(choose_command(&spec, &args(&[])).name, "serve");
    assert_eq!(choose_command(&spec, &args(&["init"])).name, "init");
}

#[test]
fn repeated_values_keep_order_and_duplicates() {
    let parser = Clide::from_usage_lines(&lines(&["Usage: build [--include=PATH+] <dir:PATH>"])).unwrap();
    let result = parser
        .parse(&args(&["--include", "a", "--include=b", "--include", "a", "proj"]))
        .unwrap();
    assert_eq!(values(&result, "--include").unwrap(), vec!["a", "b", "a"]);
}

#[test]
fn non_repeatable_option_also_accumulates() {
    let parser = Clide::from_usage_lines(&lines(&[SERVE])).unwrap();
    let result = parser.parse(&args(&["serve", "--port", "1", "--port", "2", "/d"])).unwrap();
    assert_eq!(values(&result, "--port").unwrap(), vec!["1", "2"]);
}

#[test]
fn flag_after_separator_is_a_leftover() {
    let parser = Clide::from_usage_lines(&lines(&[SERVE])).unwrap();
    let result = parser.parse(&args(&["serve", "--", "/d", "-v", "--tls"])).unwrap();
    assert_eq!(result.positionals, vec![("dir".to_string(), "/d".to_string())]);
    assert_eq!(result.leftovers, vec!["-v", "--tls"]);
    assert_eq!(values(&result, "-v").unwrap(), vec!["false"]);
    assert_eq!(values(&result, "--tls").unwrap(), vec!["false"]);
}

#[test]
fn separator_dash_token_fills_positional() {
    let parser = Clide::from_usage_lines(&lines(&["Usage: t <a:STR>"])).unwrap();
    let result = parser.parse(&args(&["--", "-x", "y"])).unwrap();
    assert_eq!(result.positionals, vec![("a".to_string(), "-x".to_string())]);
    assert_eq!(result.leftovers, vec!["y"]);
}

#[test]
fn separator_with_fewer_tokens_uses_defaults() {
    let parser = Clide::from_usage_lines(&lines(&["Usage: t <a:STR> <b:INT:7>"])).unwrap();
    let result = parser.parse(&args(&["--", "x"])).unwrap();
    assert_eq!(
        result.positionals,
        vec![("a".to_string(), "x".to_string()), ("b".to_string(), "7".to_string())]
    );
    assert!(result.leftovers.is_empty());
}

#[test]
fn separator_without_value_for_required_positional() {
    assert_eq!(error_of(&["Usage: t <a:STR>"], &["--"]), "Missing positional: a");
}

#[test]
fn unknown_option_message_names_it() {
    assert_eq!(error_of(&[SERVE], &["serve", "--bogus=3", "/d"]), "Unknown option: --bogus");
}

#[test]
fn missing_value_message() {
    assert_eq!(error_of(&[SERVE], &["serve", "/d", "--port"]), "Missing value for --port");
}

#[test]
fn unexpected_argument_message() {
    assert_eq!(error_of(&[SERVE], &["serve", "/d", "/e"]), "Unexpected argument: /e");
}

#[test]
fn int_values_are_checked() {
    assert_eq!(error_of(&[SERVE], &["serve", "--port", "80x", "/d"]), "Expected INT, got: 80x");
    assert_eq!(
        error_of(&[SERVE], &["serve", "--port=9223372036854775808", "/d"]),
        "Expected INT, got: 9223372036854775808"
    );
    let parser = Clide::from_usage_lines(&lines(&[SERVE])).unwrap();
    let result = parser.parse(&args(&["serve", "--port=+42", "/d"])).unwrap();
    assert_eq!(values(&result, "--port").unwrap(), vec!["+42"]);
    let result = parser.parse(&args(&["serve", "--port=-9223372036854775808", "/d"])).unwrap();
    assert_eq!(values(&result, "--port").unwrap(), vec!["-9223372036854775808"]);
}

#[test]
fn bool_values_are_lowercased() {
    let parser = Clide::from_usage_lines(&lines(&["Usage: t [--on=BOOL] [--off=BOOL:FALSE] <b:BOOL>"])).unwrap();
    let result = parser.parse(&args(&["--on", "TrUe", "TRUE"])).unwrap();
    assert_eq!(values(&result, "--on").unwrap(), vec!["true"]);
    assert_eq!(values(&result, "--off").unwrap(), vec!["false"]);
    assert_eq!(result.positionals, vec![("b".to_string(), "true".to_string())]);
    assert_eq!(
        error_of(&["Usage: t <b:BOOL>"], &["yes"]),
        "Expected BOOL (true|false), got: yes"
    );
}

#[test]
fn default_text_round_trips() {
    let parser = Clide::from_usage_lines(&lines(&[SERVE])).unwrap();
    let result = parser.parse(&args(&["serve", "/d"])).unwrap();
    assert_eq!(values(&result, "--port").unwrap(), vec!["8080"]);
    assert_eq!(values(&result, "--root"), None);
}

#[test]
fn optional_literal_is_a_marker() {
    let parser = Clide::from_usage_lines(&lines(&["Usage: t [fast] <a:STR>"])).unwrap();
    let result = parser.parse(&args(&["x", "fast"])).unwrap();
    assert_eq!(result.positionals, vec![("a".to_string(), "x".to_string())]);
    assert_eq!(result.command, "_");
}

#[test]
fn parse_with_matches_given_command() {
    let spec = from_lines(&lines(&[SERVE, INIT])).unwrap();
    let result = parse_with(&spec.commands[1], &args(&["init", "p"])).unwrap();
    assert_eq!(result.command, "init");
    assert_eq!(result.leftovers, Vec::<String>::new());
}
