use jsonnet_bytecode::chunk::Value;
use jsonnet_bytecode::format_spec::{
    parse_format, Count, Directive, FormatError, FormatVals, Piece,
};

fn text(s: &str) -> Vec<Piece> {
    s.chars().map(Piece::Char).collect()
}

fn directive(
    key: Option<&str>,
    flags: &str,
    width: Count,
    precision: Option<Count>,
    conv: char,
) -> Piece {
    Piece::Directive(Directive {
        key: key.map(|k| k.to_string()),
        flags: flags.to_string(),
        width,
        precision,
        conv,
    })
}

#[test]
fn plain_text_and_percent_escapes() {
    assert_eq!(parse_format("hello"), (text("hello"), None));
    assert_eq!(parse_format(""), (vec![], None));
    assert_eq!(parse_format("100%%"), (text("100%"), None));
}

#[test]
fn directives_with_all_parts() {
    assert_eq!(
        parse_format("%d"),
        (vec![directive(None, "", Count::Fixed(0), None, 'd')], None)
    );
    assert_eq!(
        parse_format("x=%-08.3f!"),
        (
            {
                let mut v = text("x=");
                v.push(directive(None, "-0", Count::Fixed(8), Some(Count::Fixed(3)), 'f'));
                v.push(Piece::Char('!'));
                v
            },
            None
        )
    );
    assert_eq!(
        parse_format("%(name)+5s"),
        (vec![directive(Some("name"), "+", Count::Fixed(5), None, 's')], None)
    );
    assert_eq!(
        parse_format("%*.*x"),
        (
            vec![directive(None, "", Count::FromArg, Some(Count::FromArg), 'x')],
            None
        )
    );
    assert_eq!(
        parse_format("%.s"),
        (vec![directive(None, "", Count::Fixed(0), Some(Count::Fixed(0)), 's')], None)
    );
    assert_eq!(
        parse_format("%lld"),
        (vec![directive(None, "", Count::Fixed(0), None, 'd')], None)
    );
    assert_eq!(
        parse_format("%5%"),
        (vec![directive(None, "", Count::Fixed(5), None, '%')], None)
    );
    assert_eq!(
        parse_format("%()d"),
        (vec![directive(Some(""), "", Count::Fixed(0), None, 'd')], None)
    );
}

#[test]
fn malformed_formats_stop_at_the_error() {
    assert_eq!(parse_format("ab%"), (text("ab"), Some(FormatError::TrailingPercent)));
    assert_eq!(parse_format("a%(key"), (text("a"), Some(FormatError::UnclosedKey)));
    assert_eq!(parse_format("a%5"), (text("a"), Some(FormatError::Incomplete)));
    assert_eq!(parse_format("%d%5.2l"), (
        vec![directive(None, "", Count::Fixed(0), None, 'd')],
        Some(FormatError::Incomplete)
    ));
    assert_eq!(
        FormatError::TrailingPercent.message(),
        "std.format: trailing '%' in format string"
    );
    assert_eq!(
        FormatError::UnclosedKey.message(),
        "std.format: unclosed '(' in format specifier"
    );
    assert_eq!(FormatError::Incomplete.message(), "std.format: incomplete format specifier");
}

#[test]
fn positional_values() {
    let arr = FormatVals::Array(vec![Value::Null, Value::Boolean(true)]);
    assert_eq!(arr.get_positional(1, &(3..4), "t").unwrap(), Value::Boolean(true));
    let err = arr.get_positional(2, &(3..4), "t").unwrap_err();
    assert_eq!(err.message, "std.format: index 2 out of range (array has 2 elements)");
    assert_eq!(err.span, 3..4);
    assert_eq!(err.source_id, "t");

    let single = FormatVals::Single(Value::Boolean(false));
    assert_eq!(single.get_positional(0, &(0..1), "t").unwrap(), Value::Boolean(false));
    assert_eq!(
        single.get_positional(1, &(0..1), "t").unwrap_err().message,
        "std.format: index 1 out of range (single value)"
    );

    let obj = FormatVals::Object(vec![("a".to_string(), Value::Null)]);
    assert_eq!(
        obj.get_positional(0, &(0..1), "t").unwrap_err().message,
        "std.format: positional index used with object values"
    );
}

#[test]
fn named_values() {
    let obj = FormatVals::Object(vec![
        ("a".to_string(), Value::Null),
        ("b".to_string(), Value::Boolean(true)),
        ("b".to_string(), Value::Boolean(false)),
    ]);
    assert_eq!(obj.get_named("b", &(0..1), "t").unwrap(), Value::Boolean(true));
    assert_eq!(
        obj.get_named("c", &(0..1), "t").unwrap_err().message,
        "std.format: key 'c' not found in object"
    );
    let arr = FormatVals::Array(vec![]);
    assert_eq!(
        arr.get_named("a", &(0..1), "t").unwrap_err().message,
        "std.format: named arg used but values is not an object"
    );
}
