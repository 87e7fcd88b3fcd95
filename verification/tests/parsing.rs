use forth_interpreter::ast::Line;
use forth_interpreter::{ForthError, ForthParser, Literal};

#[test]
fn test_parse_comment() {
    ForthParser::parse_line("(hi)").unwrap();
    ForthParser::parse_line("(h\ni)").unwrap_err();
    ForthParser::parse_line("(hi").unwrap_err();
}

#[test]
fn test_parse_integer() {
    match ForthParser::parse_line("123").unwrap() {
        Line::Expression(e) => {
            assert_eq!(e.elements.len(), 1);
        }
        _ => assert!(false),
    }
    match ForthParser::parse_line("-123").unwrap() {
        Line::Expression(e) => match &e.elements[0] {
            forth_interpreter::ast::ExpressionElement::Literal(l) => {
                assert_eq!(l, &Literal::Integer(-123));
            }
            _ => assert!(false),
        },
        _ => assert!(false),
    }
    // A doubled sign is not an integer; it reads as a plain word.
    match ForthParser::parse_line("--123").unwrap() {
        Line::Expression(e) => match &e.elements[0] {
            forth_interpreter::ast::ExpressionElement::Ident(id) => {
                assert_eq!(id.name(), "--123");
            }
            _ => assert!(false),
        },
        _ => assert!(false),
    }
    match ForthParser::parse_line("hello").unwrap() {
        Line::Expression(e) => match &e.elements[0] {
            forth_interpreter::ast::ExpressionElement::Ident(id) => {
                assert_eq!(id.name(), "hello");
            }
            _ => assert!(false),
        },
        _ => assert!(false),
    }
}

#[test]
fn test_parse_string() {
    match ForthParser::parse_line("\"hello\"").unwrap() {
        Line::Expression(e) => match &e.elements[0] {
            forth_interpreter::ast::ExpressionElement::Literal(l) => {
                assert_eq!(l, &Literal::String(String::from("hello")));
            }
            _ => assert!(false),
        },
        _ => assert!(false),
    }
    // The empty string literal parses too.
    ForthParser::parse_line("\"\"").unwrap();
    // An unterminated string is a parse failure.
    assert_eq!(ForthParser::parse_line("\"hello").unwrap_err(), ForthError::ParseError);
}

#[test]
fn test_parse_word() {
    ForthParser::parse_line("hello").unwrap();
    ForthParser::parse_line("hello_world").unwrap();
    ForthParser::parse_line("second_stack_2").unwrap();
    ForthParser::parse_line("*").unwrap();

    // A chunk starting with a digit must read as an integer.
    assert_eq!(ForthParser::parse_line("8hello").unwrap_err(), ForthError::ParseError);
}

#[test]
fn test_parse_expression() {
    ForthParser::parse_line("1 2 3 * +").unwrap();
    ForthParser::parse_line("2 5 *").unwrap();
    ForthParser::parse_line("foo").unwrap();
    ForthParser::parse_line("1 2 3 dup").unwrap();
}
