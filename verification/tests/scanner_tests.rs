use jsonnet_bytecode::scanner::{ScanError, Scanner, Token};

fn scan_single_token(input: &str) -> Result<Token, ScanError> {
    let mut scanner = Scanner::new(input, "test");
    let token_info = scanner.scan_next()?;
    Ok(token_info.token)
}

fn number_value(t: &Token) -> f64 {
    match t {
        Token::Number(text) => text.parse::<f64>().unwrap(),
        other => panic!("expected a number, got {:?}", other),
    }
}

#[test]
fn test_keywords() {
    assert_eq!(scan_single_token("assert").unwrap(), Token::Assert);
    assert_eq!(scan_single_token("false").unwrap(), Token::False);
    assert_eq!(scan_single_token("true").unwrap(), Token::True);
    assert_eq!(scan_single_token("null").unwrap(), Token::Null);
    assert_eq!(scan_single_token("self").unwrap(), Token::Self_);
    assert_eq!(scan_single_token("super").unwrap(), Token::Super);
}

#[test]
fn test_identifiers() {
    assert_eq!(scan_single_token("foo").unwrap(), Token::Identifier("foo".to_string()));
    assert_eq!(scan_single_token("_bar").unwrap(), Token::Identifier("_bar".to_string()));
    assert_eq!(scan_single_token("baz123").unwrap(), Token::Identifier("baz123".to_string()));
}

#[test]
fn test_numbers() {
    assert_eq!(number_value(&scan_single_token("123").unwrap()), 123.0);
    assert_eq!(number_value(&scan_single_token("123.45").unwrap()), 123.45);
    assert_eq!(number_value(&scan_single_token("1e10").unwrap()), 1e10);
    assert_eq!(number_value(&scan_single_token("1.5e-3").unwrap()), 1.5e-3);
}

#[test]
fn test_strings() {
    assert_eq!(scan_single_token("\"hello\"").unwrap(), Token::String("hello".to_string()));
    assert_eq!(scan_single_token("'world'").unwrap(), Token::String("world".to_string()));
    assert_eq!(scan_single_token("@\"verbatim\"").unwrap(), Token::String("verbatim".to_string()));
}

#[test]
fn test_unicode() {
    let mut scanner = Scanner::new("\"🚀\"", "test");
    let tokens = scanner.scan_all().unwrap();
    assert_eq!(tokens.len(), 2);
    if let Token::String(s) = &tokens[0].token {
        assert_eq!(s, "🚀");
    } else {
        panic!("Expected string token");
    }
}

#[test]
fn test_symbols() {
    assert_eq!(scan_single_token("{").unwrap(), Token::LeftBrace);
    assert_eq!(scan_single_token("}").unwrap(), Token::RightBrace);
    assert_eq!(scan_single_token("[").unwrap(), Token::LeftBracket);
    assert_eq!(scan_single_token("]").unwrap(), Token::RightBracket);
    assert_eq!(scan_single_token(",").unwrap(), Token::Comma);
    assert_eq!(scan_single_token(".").unwrap(), Token::Dot);
}

#[test]
fn test_operators() {
    assert_eq!(scan_single_token("+").unwrap(), Token::Operator("+".to_string()));
    assert_eq!(scan_single_token("==").unwrap(), Token::Operator("==".to_string()));
    assert_eq!(scan_single_token("<=").unwrap(), Token::Operator("<=".to_string()));
    assert_eq!(scan_single_token("&&").unwrap(), Token::Operator("&&".to_string()));
}

#[test]
fn test_error_reporting() {
    let mut scanner = Scanner::new("\"unterminated", "test.jsonnet");
    let error = scanner.scan_next().unwrap_err();
    assert_eq!(error.source_id, "test.jsonnet");

    let source_ids = error.source_ids();
    assert!(!source_ids.is_empty());
}

#[test]
fn test_forbidden_operator_sequences() {
    let mut scanner = Scanner::new("//", "test");
    scanner.skip_whitespace_and_comments().unwrap();
    assert!(scanner.is_at_end());
}

#[test]
fn test_trailing_semicolon_error() {
    let mut scanner = Scanner::new("true;", "test");
    let result = scanner.scan_all();
    assert!(result.is_err());

    let errors = result.unwrap_err();
    assert_eq!(errors.len(), 1);
    assert!(errors[0].message.contains("Trailing semicolon"));
}

#[test]
fn test_valid_semicolon_in_middle() {
    let mut scanner = Scanner::new("local x = 1; x", "test");
    let result = scanner.scan_all();
    assert!(result.is_ok());
}

fn scan_all_ok(input: &str) -> Vec<Token> {
    let mut scanner = Scanner::new(input, "test");
    scanner.scan_all().unwrap().into_iter().map(|t| t.token).collect()
}

fn scan_all_err(input: &str) -> Vec<ScanError> {
    let mut scanner = Scanner::new(input, "test");
    scanner.scan_all().unwrap_err()
}

#[test]
fn test_text_block_basic() {
    let input = "|||\n  hello\n  world\n|||";
    let tokens = scan_all_ok(input);
    assert!(matches!(&tokens[0], Token::String(s) if s == "hello\nworld\n"));
}

#[test]
fn test_text_block_strip_newline() {
    let input = "|||-\n  hello\n|||";
    let tokens = scan_all_ok(input);
    assert!(matches!(&tokens[0], Token::String(s) if s == "hello"));
}

#[test]
fn test_text_block_missing_newline_error() {
    let mut scanner = Scanner::new("|||   no-newline", "test");
    let result = scanner.scan_next();
    assert!(result.is_err());
}

#[test]
fn test_text_block_unterminated_error() {
    let mut scanner = Scanner::new("|||\n  hello\n", "test");
    let result = scanner.scan_next();
    assert!(result.is_err());
}

#[test]
fn test_text_block_mismatched_indent_error() {
    let input = "|||\n  good\n bad\n|||";
    let mut scanner = Scanner::new(input, "test");
    let result = scanner.scan_next();
    assert!(result.is_err());
}

#[test]
fn test_verbatim_string_double_quote_escape() {
    let tokens = scan_all_ok(r#"@"foo""bar""#);
    assert!(matches!(&tokens[0], Token::String(s) if s == r#"foo"bar"#));
}

#[test]
fn test_verbatim_string_single_quote_escape() {
    let tokens = scan_all_ok("@'it''s'");
    assert!(matches!(&tokens[0], Token::String(s) if s == "it's"));
}

#[test]
fn test_unicode_escape_basic() {
    let tokens = scan_all_ok(r#""\u0041""#);
    assert!(matches!(&tokens[0], Token::String(s) if s == "A"));
}

#[test]
fn test_unicode_surrogate_pair() {
    let tokens = scan_all_ok(r#""\uD83D\uDE00""#);
    assert!(matches!(&tokens[0], Token::String(s) if s == "\u{1F600}"));
}

#[test]
fn test_unicode_unpaired_high_surrogate_error() {
    let mut scanner = Scanner::new(r#""\uD83D""#, "test");
    let result = scanner.scan_next();
    assert!(result.is_err());
}

#[test]
fn test_unicode_invalid_low_surrogate_error() {
    let mut scanner = Scanner::new(r#""\uD83D\u0041""#, "test");
    let result = scanner.scan_next();
    assert!(result.is_err());
}

#[test]
fn test_block_comment_unterminated() {
    let errors = scan_all_err("/* unterminated");
    assert!(!errors.is_empty());
    assert!(errors[0].message.contains("Unterminated"));
}

#[test]
fn test_is_incomplete_input_true() {
    let err = ScanError::new(0..1, "Unexpected end of input".to_string(), "test".to_string());
    assert!(err.is_incomplete_input());

    let err2 = ScanError::new(0..1, "Unterminated string".to_string(), "test".to_string());
    assert!(err2.is_incomplete_input());
}

#[test]
fn test_is_incomplete_input_false() {
    let err = ScanError::new(0..1, "Unexpected character 'x'".to_string(), "test".to_string());
    assert!(!err.is_incomplete_input());
}

#[test]
fn test_into_report_with_cause() {
    let cause = ScanError::new(0..3, "root cause".to_string(), "test".to_string());
    let mut outer = ScanError::new(5..8, "outer error".to_string(), "test".to_string());
    outer.cause = Some(Box::new(cause));

    let source_ids = outer.source_ids();
    assert_eq!(source_ids.len(), 1);
    assert_eq!(outer.chain().len(), 2);
}

#[test]
fn test_save_and_restore_position() {
    let mut scanner = Scanner::new("foo bar", "test");
    scanner.scan_next().unwrap();
    let checkpoint = scanner.save_position();
    scanner.scan_next().unwrap();
    scanner.restore_position(checkpoint);
    let result = scanner.scan_next().unwrap();
    assert!(matches!(result.token, Token::Identifier(s) if s == "bar"));
}

#[test]
fn test_collected_strings_after_scan() {
    let mut scanner = Scanner::new(r#""hello" "world""#, "test");
    scanner.scan_all().unwrap();
    assert_eq!(scanner.collected_strings().len(), 2);
}

#[test]
fn test_invalid_escape_sequence() {
    let mut scanner = Scanner::new(r#""\q""#, "test");
    let result = scanner.scan_next();
    assert!(result.is_err());
    let err = result.unwrap_err();
    assert!(err.message.contains("Invalid escape"));
}

#[test]
fn test_number_invalid_exponent() {
    let errors = scan_all_err("1e");
    assert!(!errors.is_empty());
}

#[test]
fn test_spans_are_byte_offsets() {
    let mut scanner = Scanner::new("é + x", "t");
    let toks = scanner.scan_all().unwrap();
    assert_eq!(toks[0].token, Token::Identifier("é".to_string()).clone());
    assert_eq!(toks[0].span, 0..2);
    assert_eq!(toks[1].span, 3..4);
    assert_eq!(toks[2].span, 5..6);
    assert_eq!(toks[3].token, Token::Eof);
    assert_eq!(toks[3].span, 6..6);
}

#[test]
fn test_cause_chain_sources_are_distinct() {
    let inner = ScanError::new(0..1, "inner".to_string(), "a".to_string());
    let mut mid = ScanError::new(0..1, "mid".to_string(), "b".to_string());
    mid.cause = Some(Box::new(inner));
    let mut outer = ScanError::new(0..1, "outer".to_string(), "a".to_string());
    outer.cause = Some(Box::new(mid));
    assert_eq!(outer.chain().len(), 3);
    assert_eq!(outer.source_ids(), vec!["a".to_string(), "b".to_string()]);
}
