use systems::graphql::{Lexer, Parser, Token, Value};

#[test]
fn graphql_test_lexer() {
    let query = "{ user(id: 1) { name } }";
    let mut lexer = Lexer::new(query);
    assert_eq!(lexer.next_token(), Some(Token::BraceL));
    assert_eq!(lexer.next_token(), Some(Token::Name("user".to_string())));
    assert_eq!(lexer.next_token(), Some(Token::ParenL));
    assert_eq!(lexer.next_token(), Some(Token::Name("id".to_string())));
    assert_eq!(lexer.next_token(), Some(Token::Colon));
    assert_eq!(lexer.next_token(), Some(Token::Int(1)));
    assert_eq!(lexer.next_token(), Some(Token::ParenR));
    assert_eq!(lexer.next_token(), Some(Token::BraceL));
    assert_eq!(lexer.next_token(), Some(Token::Name("name".to_string())));
    assert_eq!(lexer.next_token(), Some(Token::BraceR));
    assert_eq!(lexer.next_token(), Some(Token::BraceR));
    assert_eq!(lexer.next_token(), None);
}

#[test]
fn test_lexer_invalid_chars() {
    let query = "{ @user ! }";
    let mut lexer = Lexer::new(query);
    assert_eq!(lexer.next_token(), Some(Token::BraceL));
    assert_eq!(lexer.next_token(), Some(Token::Name("user".to_string())));
    assert_eq!(lexer.next_token(), Some(Token::BraceR));
    assert_eq!(lexer.next_token(), None);
}

#[test]
fn test_parser() {
    let query = "{ user(id: 1) { name } }";
    let lexer = Lexer::new(query);
    let mut parser = Parser::new(lexer);
    let ast = parser.parse_selection_set().unwrap();

    assert_eq!(ast.len(), 1);
    assert_eq!(ast[0].name, "user");
    assert_eq!(ast[0].arguments.len(), 1);
    assert_eq!(ast[0].arguments[0].name, "id");
    assert!(matches!(ast[0].arguments[0].value, Value::Int(1)));
    assert_eq!(ast[0].selection_set.len(), 1);
    assert_eq!(ast[0].selection_set[0].name, "name");
}

#[test]
fn test_lexer_literals() {
    let mut lexer = Lexer::new("\"héllo, x\" -42 - 9223372036854775807 -9223372036854775808 99999999999999999999 _a1");
    assert_eq!(lexer.next_token(), Some(Token::String("héllo, x".to_string())));
    assert_eq!(lexer.next_token(), Some(Token::Int(-42)));
    assert_eq!(lexer.next_token(), Some(Token::Int(0)));
    assert_eq!(lexer.next_token(), Some(Token::Int(i64::MAX)));
    assert_eq!(lexer.next_token(), Some(Token::Int(i64::MIN)));
    assert_eq!(lexer.next_token(), Some(Token::Int(0)));
    assert_eq!(lexer.next_token(), Some(Token::Name("_a1".to_string())));
    assert_eq!(lexer.next_token(), None);
}

#[test]
fn test_unterminated_string_runs_to_end() {
    let mut lexer = Lexer::new("\"abc");
    assert_eq!(lexer.next_token(), Some(Token::String("abc".to_string())));
    assert_eq!(lexer.next_token(), None);
}

#[test]
fn test_parser_errors() {
    let cases = [
        ("user", "Expected { for selection set"),
        ("{ 1 }", "Expected field name"),
        ("{ a(1) }", "Expected argument name"),
        ("{ a(x 1) }", "Expected : after argument name"),
        ("{ a(x: { }) }", "Expected argument value"),
        ("{ a(x: 1 }", "Expected argument name"),
        ("{ a(x: 1", "Expected ) after arguments"),
        ("{ a", "Expected }"),
    ];
    for (query, message) in cases {
        let mut parser = Parser::new(Lexer::new(query));
        assert_eq!(parser.parse_selection_set().unwrap_err(), message, "query {query}");
    }
}

#[test]
fn test_parser_nested_and_string_arguments() {
    let mut parser = Parser::new(Lexer::new("{ a(s: \"x\", n: -3) { b { c } d } e }"));
    let ast = parser.parse_selection_set().unwrap();
    assert_eq!(ast.len(), 2);
    assert!(matches!(&ast[0].arguments[0].value, Value::String(s) if s == "x"));
    assert!(matches!(ast[0].arguments[1].value, Value::Int(-3)));
    assert_eq!(ast[0].selection_set.len(), 2);
    assert_eq!(ast[0].selection_set[0].selection_set[0].name, "c");
    assert_eq!(ast[1].name, "e");
}
