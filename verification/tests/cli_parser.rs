use systems::cli_parser::{ArgConfig, ArgType, CliParser};

fn setup_parser() -> CliParser {
    let mut parser = CliParser::new();
    parser.add_arg(ArgConfig {
        key: "verbose".to_string(),
        short: Some('v'),
        long: Some("verbose".to_string()),
        arg_type: ArgType::Flag,
    });
    parser.add_arg(ArgConfig {
        key: "port".to_string(),
        short: Some('p'),
        long: Some("port".to_string()),
        arg_type: ArgType::Option,
    });
    parser.add_arg(ArgConfig {
        key: "host".to_string(),
        short: None,
        long: Some("host".to_string()),
        arg_type: ArgType::Option,
    });
    parser.add_arg(ArgConfig {
        key: "extract".to_string(),
        short: Some('x'),
        long: None,
        arg_type: ArgType::Flag,
    });
    parser
}

#[test]
fn test_long_options() {
    let parser = setup_parser();
    let args = vec!["--verbose", "--port", "8080", "--host=localhost"];
    let result = parser.parse(args).unwrap();
    assert!(result.has_flag("verbose"));
    assert_eq!(result.option("port").unwrap(), "8080");
    assert_eq!(result.option("host").unwrap(), "localhost");
}

#[test]
fn test_short_options() {
    let parser = setup_parser();
    let args = vec!["-xv", "-p", "80"];
    let result = parser.parse(args).unwrap();
    assert!(result.has_flag("extract"));
    assert!(result.has_flag("verbose"));
    assert_eq!(result.option("port").unwrap(), "80");
}

#[test]
fn test_short_option_attached_value() {
    let parser = setup_parser();
    let args = vec!["-vp8080"];
    let result = parser.parse(args).unwrap();
    assert!(result.has_flag("verbose"));
    assert_eq!(result.option("port").unwrap(), "8080");
}

#[test]
fn test_positional_args() {
    let parser = setup_parser();
    let args = vec!["--verbose", "file1.txt", "-p", "80", "file2.txt"];
    let result = parser.parse(args).unwrap();
    assert_eq!(result.positional, vec!["file1.txt", "file2.txt"]);
}

#[test]
fn test_double_dash_separator() {
    let parser = setup_parser();
    let args = vec!["-v", "--", "-p", "8080", "--verbose"];
    let result = parser.parse(args).unwrap();
    assert!(result.has_flag("verbose"));
    assert!(result.option("port").is_none());
    assert_eq!(result.positional, vec!["-p", "8080", "--verbose"]);
}

#[test]
fn cli_parser_test_errors() {
    let parser = setup_parser();
    assert!(parser.parse(vec!["--unknown"]).is_err());
    assert!(parser.parse(vec!["-u"]).is_err());
    assert!(parser.parse(vec!["--port"]).is_err());
    assert!(parser.parse(vec!["-p"]).is_err());
    assert!(parser.parse(vec!["--verbose=true"]).is_err());
}

#[test]
fn cli_error_messages_and_last_value_wins() {
    let parser = setup_parser();
    assert_eq!(parser.parse(vec!["--unknown"]).unwrap_err(), "Unknown option: --unknown");
    assert_eq!(parser.parse(vec!["-u"]).unwrap_err(), "Unknown short option: -u");
    assert_eq!(parser.parse(vec!["--port"]).unwrap_err(), "Option --port requires a value");
    assert_eq!(parser.parse(vec!["-p"]).unwrap_err(), "Option -p requires a value");
    assert_eq!(parser.parse(vec!["--verbose=true"]).unwrap_err(), "Flag --verbose does not take a value");
    let r = parser.parse(vec!["--port=1", "-p", "2", "-v", "-v", "-"]).unwrap();
    assert_eq!(r.option("port").unwrap(), "2");
    assert_eq!(r.flags.len(), 1);
    assert_eq!(r.positional, vec!["-"]);
}
