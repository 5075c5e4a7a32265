use jsonnet_bytecode::parser::Parser;
use jsonnet_bytecode::scanner::{Scanner, Token};

fn is_number(t: &Token, v: f64) -> bool {
    matches!(t, Token::Number(text) if text.parse::<f64>().unwrap() == v)
}

fn number(text: &str) -> Token {
    Token::Number(text.to_string())
}

#[test]
fn test_parser_advance() {
    let mut scanner = Scanner::new("true false", "test");
    let mut parser = Parser::new(&mut scanner);

    assert!(parser.current_token().is_none());
    assert!(parser.previous_token().is_none());

    parser.advance().unwrap();
    assert!(matches!(parser.current_token().unwrap().token, Token::True));
    assert!(parser.previous_token().is_none());

    parser.advance().unwrap();
    assert!(matches!(parser.current_token().unwrap().token, Token::False));
    assert!(matches!(parser.previous_token().unwrap().token, Token::True));

    parser.advance().unwrap();
    assert!(parser.is_at_end());
    assert!(matches!(parser.previous_token().unwrap().token, Token::False));
}

#[test]
fn test_parser_consume_success() {
    let mut scanner = Scanner::new("true", "test");
    let mut parser = Parser::new(&mut scanner);

    parser.advance().unwrap();
    let token = parser.consume(Token::True, "Expected true").unwrap();
    assert!(matches!(token.token, Token::True));
}

#[test]
fn test_parser_consume_failure() {
    let mut scanner = Scanner::new("false", "test");
    let mut parser = Parser::new(&mut scanner);

    parser.advance().unwrap();
    let result = parser.consume(Token::True, "Expected true");
    assert!(result.is_err());
    assert!(parser.had_error());

    let error = result.unwrap_err();
    assert!(error.message.contains("Expected true"));
    assert!(error.message.contains("expected True"));
    assert!(error.message.contains("found False"));
}

#[test]
fn test_parser_scan_error_handling() {
    let mut scanner = Scanner::new("\"unterminated", "test");
    let mut parser = Parser::new(&mut scanner);

    let result = parser.advance();
    assert!(result.is_err());
    assert!(parser.had_error());
    assert!(parser.panic_mode());

    let error = result.unwrap_err();
    assert!(error.message.contains("Unterminated"));
}

#[test]
fn test_parser_walk_token_stream() {
    let mut scanner = Scanner::new("local x = 42; x + 1", "test");
    let mut parser = Parser::new(&mut scanner);

    let mut token_count = 0;
    while !parser.is_at_end() && !parser.had_error() {
        parser.advance().unwrap();
        if !parser.is_at_end() {
            token_count += 1;
        }
    }

    assert_eq!(token_count, 8);
    assert!(!parser.had_error());
}

#[test]
fn test_parser_multiple_tokens() {
    let mut scanner = Scanner::new("{\"key\": [1, 2, 3]}", "test");
    let mut parser = Parser::new(&mut scanner);

    parser.advance().unwrap();
    parser.consume(Token::LeftBrace, "Expected {").unwrap();
    parser.consume(Token::String("key".to_string()), "Expected string").unwrap();
    parser.consume(Token::Operator(":".to_string()), "Expected :").unwrap();
    parser.consume(Token::LeftBracket, "Expected [").unwrap();
    parser.consume(number("1"), "Expected 1").unwrap();
    parser.consume(Token::Comma, "Expected ,").unwrap();
    parser.consume(number("2"), "Expected 2").unwrap();
    parser.consume(Token::Comma, "Expected ,").unwrap();
    parser.consume(number("3"), "Expected 3").unwrap();
    parser.consume(Token::RightBracket, "Expected ]").unwrap();
    parser.consume(Token::RightBrace, "Expected }").unwrap();

    assert!(!parser.had_error());
}

#[test]
fn test_peek_ahead_basic() {
    let mut scanner = Scanner::new("true false null", "test");
    let mut parser = Parser::new(&mut scanner);

    parser.advance().unwrap();

    let token0 = parser.peek_ahead(0).unwrap();
    assert!(token0.is_some());
    assert!(matches!(token0.unwrap().token, Token::True));

    let token1 = parser.peek_ahead(1).unwrap();
    assert!(token1.is_some());
    assert!(matches!(token1.unwrap().token, Token::False));

    let token2 = parser.peek_ahead(2).unwrap();
    assert!(token2.is_some());
    assert!(matches!(token2.unwrap().token, Token::Null));

    assert!(matches!(parser.current_token().unwrap().token, Token::True));
}

#[test]
fn test_peek_ahead_past_eof() {
    let mut scanner = Scanner::new("true", "test");
    let mut parser = Parser::new(&mut scanner);

    parser.advance().unwrap();

    let token1 = parser.peek_ahead(1).unwrap();
    assert!(token1.is_some());
    assert!(matches!(token1.unwrap().token, Token::Eof));

    let token2 = parser.peek_ahead(2).unwrap();
    assert!(token2.is_none());
}

#[test]
fn test_peek_ahead_array_comprehension_pattern() {
    let mut scanner = Scanner::new("[x for x in [1, 2, 3]]", "test");
    let mut parser = Parser::new(&mut scanner);

    parser.advance().unwrap();
    parser.advance().unwrap();

    let token0 = parser.peek_ahead(0).unwrap();
    assert!(matches!(token0.unwrap().token, Token::Identifier(ref s) if s == "x"));

    let token1 = parser.peek_ahead(1).unwrap();
    assert!(matches!(token1.unwrap().token, Token::For));

    assert!(matches!(parser.current_token().unwrap().token, Token::Identifier(ref s) if s == "x"));
}

#[test]
fn test_checkpoint_and_restore() {
    let mut scanner = Scanner::new("true false null", "test");
    let mut parser = Parser::new(&mut scanner);

    parser.advance().unwrap();

    let checkpoint = parser.save_checkpoint();

    parser.advance().unwrap();
    parser.advance().unwrap();
    assert!(matches!(parser.current_token().unwrap().token, Token::Null));

    parser.restore_checkpoint(checkpoint);

    assert!(matches!(parser.current_token().unwrap().token, Token::True));
    assert!(parser.previous_token().is_none());
}

#[test]
fn test_checkpoint_preserves_error_state() {
    let mut scanner = Scanner::new("true false", "test");
    let mut parser = Parser::new(&mut scanner);

    parser.advance().unwrap();

    let checkpoint = parser.save_checkpoint();
    assert!(!parser.had_error());
    assert!(!parser.panic_mode());

    parser.had_error = true;
    parser.panic_mode = true;
    assert!(parser.had_error());
    assert!(parser.panic_mode());

    parser.restore_checkpoint(checkpoint);

    assert!(!parser.had_error());
    assert!(!parser.panic_mode());
}

#[test]
fn test_speculative_parsing_with_backtrack() {
    let mut scanner = Scanner::new("[1, 2, 3]", "test");
    let mut parser = Parser::new(&mut scanner);

    parser.advance().unwrap();
    parser.advance().unwrap();

    let checkpoint = parser.save_checkpoint();

    let next_token = parser.peek_ahead(1).unwrap();
    assert!(matches!(next_token.unwrap().token, Token::Comma));

    parser.restore_checkpoint(checkpoint);

    assert!(is_number(&parser.current_token().unwrap().token, 1.0));

    parser.advance().unwrap();
    assert!(matches!(parser.current_token().unwrap().token, Token::Comma));
}

#[test]
fn test_commit_clears_buffer() {
    let mut scanner = Scanner::new("true false null", "test");
    let mut parser = Parser::new(&mut scanner);

    parser.advance().unwrap();

    parser.peek_ahead(2).unwrap();
    assert!(!parser.token_buffer.is_empty());

    parser.commit();
    assert!(parser.token_buffer.is_empty());
    assert_eq!(parser.buffer_position, 0);
}

#[test]
fn test_peek_ahead_with_operators() {
    let mut scanner = Scanner::new("x + 1 == 2", "test");
    let mut parser = Parser::new(&mut scanner);

    parser.advance().unwrap();

    let token1 = parser.peek_ahead(1).unwrap();
    assert!(matches!(token1.unwrap().token, Token::Operator(ref op) if op == "+"));

    let token2 = parser.peek_ahead(2).unwrap();
    assert!(is_number(&token2.unwrap().token, 1.0));

    let token3 = parser.peek_ahead(3).unwrap();
    assert!(matches!(token3.unwrap().token, Token::Operator(ref op) if op == "=="));
}

#[test]
fn test_consume_mismatch_message_text() {
    let mut scanner = Scanner::new("\"a\\\"b\" x", "src.jsonnet");
    let mut parser = Parser::new(&mut scanner);
    parser.advance().unwrap();
    let err = parser.consume(Token::Identifier("y".to_string()), "Need name").unwrap_err();
    assert_eq!(err.message, "Need name: expected Identifier(\"y\"), found String(\"a\\\"b\")");
    assert_eq!(err.span, 0..6);
    assert_eq!(err.source_id, "src.jsonnet");
    assert_eq!(parser.source_id(), "src.jsonnet");
}

#[test]
fn test_consume_at_start_reports_end_of_input() {
    let mut scanner = Scanner::new("x", "t");
    let mut parser = Parser::new(&mut scanner);
    let err = parser.consume(Token::Comma, "Need comma").unwrap_err();
    assert_eq!(err.message, "Need comma: unexpected end of input");
    assert_eq!(err.span, 0..0);
    assert!(parser.had_error());
    assert!(!parser.panic_mode());
}

#[test]
fn test_peek_after_buffered_advance_looks_past_current() {
    let mut scanner = Scanner::new("a b c d", "t");
    let mut parser = Parser::new(&mut scanner);
    parser.advance().unwrap();
    assert!(matches!(parser.peek_ahead(3).unwrap().unwrap().token, Token::Identifier(ref s) if s == "d"));
    parser.advance().unwrap();
    assert!(matches!(parser.current_token().unwrap().token, Token::Identifier(ref s) if s == "b"));
    assert!(matches!(parser.peek_ahead(1).unwrap().unwrap().token, Token::Identifier(ref s) if s == "c"));
    assert!(matches!(parser.peek_ahead(2).unwrap().unwrap().token, Token::Identifier(ref s) if s == "d"));
    assert!(matches!(parser.peek_ahead(3).unwrap().unwrap().token, Token::Eof));
    assert!(parser.peek_ahead(4).unwrap().is_none());
    parser.reset_panic();
    assert!(!parser.panic_mode());
}

#[test]
fn test_scan_errors_after_the_first_are_swallowed() {
    let mut scanner = Scanner::new("` `", "t");
    let mut parser = Parser::new(&mut scanner);
    assert!(parser.advance().is_err());
    assert!(parser.panic_mode());
    assert!(parser.advance().is_ok());
    assert!(parser.current_token().is_none());
    // The scanner stays on the bad character, so the error repeats, silently.
    assert!(parser.advance().is_ok());
    assert!(!parser.is_at_end());
    assert!(parser.had_error());
}
