use clide::{ArgError, Clide, ParseError, ParseResult};

fn serve_usage() -> Vec<String> {
    vec![
        "Usage: mytool [-v|--verbose] serve [--port=INT:8080] [--tls] [--root=PATH] <dir:PATH>".to_string(),
        "Usage: mytool init <path:PATH>".to_string(),
    ]
}

fn option_values(result: &ParseResult, key: &str) -> Option<Vec<String>> {
    result.options.iter().find(|(k, _)| k == key).map(|(_, v)| v.clone())
}

fn positional_value(result: &ParseResult, key: &str) -> Option<String> {
    result.positionals.iter().find(|(k, _)| k == key).map(|(_, v)| v.clone())
}

fn args(list: &[&str]) -> Vec<String> {
    list.iter().map(|s| s.to_string()).collect()
}

#[test]
fn test_basic_parsing() {
    let usage = serve_usage();
    let parser = Clide::from_usage_lines(&usage).unwrap();
    let result = parser
        .parse(&["serve".to_string(), "--port=9090".to_string(), "/tmp/app".to_string()])
        .unwrap();
    assert_eq!(result.command, "serve");
    assert!(result.options.iter().any(|(k, _)| k == "--port"));
}

#[test]
fn test_serve_parse() {
    let usage = serve_usage();
    let parser = Clide::from_usage_lines(&usage).unwrap();
    let result = parser
        .parse(&[
            "serve".to_string(),
            "--port".to_string(),
            "9090".to_string(),
            "--tls".to_string(),
            "--root".to_string(),
            "/srv/www".to_string(),
            "-v".to_string(),
            "/app".to_string(),
            "--".to_string(),
            "leftover".to_string(),
        ])
        .unwrap();

    assert_eq!(result.command, "serve");
    assert_eq!(option_values(&result, "--port").unwrap(), vec!["9090"]);
    assert_eq!(option_values(&result, "--tls").unwrap(), vec!["true"]);
    assert_eq!(positional_value(&result, "dir").unwrap(), "/app");
    assert_eq!(result.leftovers, vec!["leftover"]);
}

#[test]
fn test_serve_defaults() {
    let usage = serve_usage();
    let parser = Clide::from_usage_lines(&usage).unwrap();
    let result = parser.parse(&["serve".to_string(), "/workdir".to_string()]).unwrap();

    assert_eq!(option_values(&result, "--port").unwrap(), vec!["8080"]);
    assert_eq!(option_values(&result, "--tls").unwrap(), vec!["false"]);
    assert_eq!(option_values(&result, "--verbose").unwrap(), vec!["false"]);
}

#[test]
fn test_repeating_option() {
    let usage = vec!["Usage: build [--include=PATH+] <dir:PATH>".to_string()];
    let parser = Clide::from_usage_lines(&usage).unwrap();
    let result = parser
        .parse(&[
            "--include".to_string(),
            "src".to_string(),
            "--include".to_string(),
            "lib".to_string(),
            "project".to_string(),
        ])
        .unwrap();

    assert_eq!(result.command, "_");
    assert_eq!(option_values(&result, "--include").unwrap(), vec!["src", "lib"]);
}

#[test]
fn test_unknown_option() {
    let usage = serve_usage();
    let parser = Clide::from_usage_lines(&usage).unwrap();
    let result = parser.parse(&["serve".to_string(), "--bogus".to_string(), "/app".to_string()]);

    assert!(result.is_err());
    if let Err(ArgError(msg)) = result {
        assert!(msg.contains("Unknown option"));
    }
}

#[test]
fn test_spec_error() {
    let result = Clide::from_usage_lines(&["Usage: tool <unterminated".to_string()]);
    assert!(result.is_err());
    if let Err(ParseError(_)) = result {
        // the line is refused as a whole
    } else {
        panic!("Expected ParseError");
    }
}

#[test]
fn serve_scenario_reports_every_option() {
    let parser = Clide::from_usage_lines(&serve_usage()).unwrap();
    let result = parser.parse(&args(&["serve", "--port", "9090", "--tls", "/app"])).unwrap();
    assert_eq!(result.command, "serve");
    assert_eq!(option_values(&result, "--port").unwrap(), vec!["9090"]);
    assert_eq!(option_values(&result, "--tls").unwrap(), vec!["true"]);
    assert_eq!(option_values(&result, "--verbose").unwrap(), vec!["false"]);
    assert_eq!(option_values(&result, "--root"), None);
    assert_eq!(result.positionals, vec![("dir".to_string(), "/app".to_string())]);
}

#[test]
fn empty_argv_selects_first_command_and_misses_positional() {
    let parser = Clide::from_usage_lines(&serve_usage()).unwrap();
    let result = parser.parse(&[]);
    match result {
        Err(ArgError(msg)) => assert_eq!(msg, "Missing positional: dir"),
        Ok(_) => panic!("expected an error"),
    }
}

#[test]
fn build_scenario_without_include() {
    let usage = vec!["Usage: build [--include=PATH+] <dir:PATH>".to_string()];
    let parser = Clide::from_usage_lines(&usage).unwrap();
    let result = parser.parse(&args(&["project"])).unwrap();
    assert_eq!(result.command, "_");
    assert_eq!(result.positionals, vec![("dir".to_string(), "project".to_string())]);
    assert_eq!(option_values(&result, "--include"), None);
}

#[test]
fn test_help_output() {
    let usage = serve_usage();
    let docs = vec![
        ("serve".to_string(), "Start the HTTP server".to_string()),
        ("init".to_string(), "Initialize a project directory".to_string()),
        ("-v, --verbose".to_string(), "Verbose logging".to_string()),
        ("--port=INT:8080".to_string(), "TCP port".to_string()),
        ("--tls".to_string(), "Enable TLS".to_string()),
        ("--root=PATH".to_string(), "Document root".to_string()),
        ("<dir:PATH>".to_string(), "Application directory".to_string()),
        ("<path:PATH>".to_string(), "Project directory".to_string()),
    ];

    let help = Clide::help_with_docs(&usage, &docs).unwrap();
    assert!(help.contains("--port=INT:8080"));
    assert!(help.contains("-v"));
    assert!(help.contains("--verbose"));
    assert!(help.contains("serve"));
}
