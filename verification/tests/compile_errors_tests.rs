use jsonnet_bytecode::compile_errors::{
    check_end_of_input, current_span, invalid_expression_error, too_many_constants_error,
    unexpected_eof_error, unexpected_token_after_expression_error,
};
use jsonnet_bytecode::parser::Parser;
use jsonnet_bytecode::scanner::{Scanner, Token, TokenInfo};

#[test]
fn span_follows_the_cursor() {
    let mut scanner = Scanner::new("abc def", "src");
    let mut parser = Parser::new(&mut scanner);
    assert_eq!(current_span(&parser), 0..0);
    parser.advance().unwrap();
    assert_eq!(current_span(&parser), 0..3);
    parser.advance().unwrap();
    assert_eq!(current_span(&parser), 4..7);
}

#[test]
fn leftover_closing_brackets() {
    for (text, message) in [
        ("1 )", "Unexpected ')' - no matching opening parenthesis"),
        ("1 }", "Unexpected '}' - no matching opening brace"),
        ("1 ]", "Unexpected ']' - no matching opening bracket"),
        ("1 x", "Unexpected token Identifier(\"x\") after complete expression"),
    ] {
        let mut scanner = Scanner::new(text, "src");
        let mut parser = Parser::new(&mut scanner);
        parser.advance().unwrap();
        parser.advance().unwrap();
        let err = check_end_of_input(&parser).unwrap_err();
        assert_eq!(err.message, message);
        assert_eq!(err.span, 2..3);
        assert_eq!(err.source_id, "src");
    }
}

#[test]
fn end_of_input_is_accepted() {
    let mut scanner = Scanner::new("1", "src");
    let mut parser = Parser::new(&mut scanner);
    parser.advance().unwrap();
    parser.advance().unwrap();
    assert!(check_end_of_input(&parser).is_ok());
}

#[test]
fn error_texts() {
    let mut scanner = Scanner::new("", "src");
    let parser = Parser::new(&mut scanner);
    let star = TokenInfo { token: Token::Operator("*".to_string()), span: 5..6 };
    let e = invalid_expression_error(&parser, &star);
    assert_eq!(e.message, "Invalid expression starting with Operator(\"*\")");
    assert_eq!(e.span, 5..6);
    let e = unexpected_token_after_expression_error(&parser, &star);
    assert_eq!(e.message, "Unexpected token Operator(\"*\") after complete expression");
    let e = too_many_constants_error(&parser);
    assert_eq!(e.message, "Too many constants (maximum 65535)");
    assert_eq!(e.span, 0..0);
    let e = unexpected_eof_error(&parser, 7..9);
    assert_eq!(e.message, "Unexpected end of input");
    assert_eq!(e.span, 7..9);
    assert_eq!(e.source_id, "src");
}

#[test]
fn token_text_is_written_as_debug_writes_it() {
    let mut scanner = Scanner::new("", "src");
    let parser = Parser::new(&mut scanner);
    let text = "a\"b\\c\u{7f}\u{200b}é\n";
    let token = TokenInfo { token: Token::String(text.to_string()), span: 0..1 };
    let e = invalid_expression_error(&parser, &token);
    assert_eq!(e.message, format!("Invalid expression starting with String({:?})", text));
    assert_eq!(e.message, format!("Invalid expression starting with {:?}", token.token));
}
