//! The errors that compiling reports about the token stream: where they
//! point and what they say.

use vstd::prelude::*;
use std::ops::Range;
use crate::lexical::TokenView;
use crate::parser::Parser;
use crate::parser::push_token_debug;
use crate::parser::token_debug;
use crate::scanner::ScanError;
use crate::scanner::TokenInfo;
use crate::scanner::error_is;
use crate::text::push_str;

verus! {

/// Where an error about the current position points: the current token,
/// else the previous one, else the start of the input.
pub open spec fn span_of_position(
    current: Option<(TokenView, usize, usize)>,
    previous: Option<(TokenView, usize, usize)>,
) -> (int, int) {
    match current {
        Some(c) => (c.1 as int, c.2 as int),
        None => match previous {
            Some(p) => (p.1 as int, p.2 as int),
            None => (0, 0),
        },
    }
}

/// The span of the current token, else of the previous one, else `0..0`.
pub fn current_span(parser: &Parser) -> (r: Range<usize>)
    ensures
        (r.start as int, r.end as int) == span_of_position(parser@.current, parser@.previous),
{
    match parser.current_token() {
        Some(t) => t.span.start..t.span.end,
        None => match parser.previous_token() {
            Some(t) => t.span.start..t.span.end,
            None => 0..0,
        },
    }
}

/// An error at `span` in the parser's source.
pub(crate) fn error_at(parser: &Parser, span: Range<usize>, message: String) -> (e: ScanError)
    ensures
        error_is(e, span.start as int, span.end as int, message@, parser.scan().source()),
{
    ScanError::new(span, message, String::from_str(parser.source_id()))
}

/// The error for input that ends where more is needed.
pub fn unexpected_eof_error(parser: &Parser, span: Range<usize>) -> (e: ScanError)
    ensures
        error_is(
            e,
            span.start as int,
            span.end as int,
            "Unexpected end of input"@,
            parser.scan().source(),
        ),
{
    error_at(parser, span, String::from_str("Unexpected end of input"))
}

/// The error for a chunk that would need more constants than a `u16` can
/// index; it points at no token.
pub fn too_many_constants_error(parser: &Parser) -> (e: ScanError)
    ensures
        error_is(e, 0, 0, "Too many constants (maximum 65535)"@, parser.scan().source()),
{
    error_at(parser, 0..0, String::from_str("Too many constants (maximum 65535)"))
}

/// The error for a token that cannot start an expression.
pub fn invalid_expression_error(parser: &Parser, token: &TokenInfo) -> (e: ScanError)
    ensures
        error_is(
            e,
            token.span.start as int,
            token.span.end as int,
            "Invalid expression starting with "@ + token_debug(token.token@),
            parser.scan().source(),
        ),
{
    let mut message = String::new();
    push_str(&mut message, "Invalid expression starting with ");
    push_token_debug(&mut message, &token.token);
    error_at(parser, token.span.start..token.span.end, message)
}

/// What is said of a token left over after a complete expression: a
/// closing bracket of any kind has no opening one, anything else is
/// unexpected there.
pub open spec fn leftover_message(t: TokenView) -> Seq<char> {
    match t {
        TokenView::RightParen => "Unexpected ')' - no matching opening parenthesis"@,
        TokenView::RightBrace => "Unexpected '}' - no matching opening brace"@,
        TokenView::RightBracket => "Unexpected ']' - no matching opening bracket"@,
        _ => "Unexpected token "@ + token_debug(t) + " after complete expression"@,
    }
}

/// The error for a token left over after a complete expression.
pub fn unexpected_token_after_expression_error(parser: &Parser, token: &TokenInfo) -> (e: ScanError)
    ensures
        error_is(
            e,
            token.span.start as int,
            token.span.end as int,
            leftover_message(token.token@),
            parser.scan().source(),
        ),
{
    let mut message = String::new();
    match &token.token {
        crate::scanner::Token::RightParen => {
            push_str(&mut message, "Unexpected ')' - no matching opening parenthesis");
        },
        crate::scanner::Token::RightBrace => {
            push_str(&mut message, "Unexpected '}' - no matching opening brace");
        },
        crate::scanner::Token::RightBracket => {
            push_str(&mut message, "Unexpected ']' - no matching opening bracket");
        },
        _ => {
            push_str(&mut message, "Unexpected token ");
            push_token_debug(&mut message, &token.token);
            push_str(&mut message, " after complete expression");
        },
    }
    proof {
        assert(message@ =~= leftover_message(token.token@));
    }
    error_at(parser, token.span.start..token.span.end, message)
}

/// Checks that the whole input was used: a current token other than the end
/// of the input is an error.
pub fn check_end_of_input(parser: &Parser) -> (r: Result<(), ScanError>)
    ensures
        match parser@.current {
            Some(c) => if c.0 is Eof {
                r is Ok
            } else {
                r matches Err(e) && error_is(
                    e,
                    c.1 as int,
                    c.2 as int,
                    leftover_message(c.0),
                    parser.scan().source(),
                )
            },
            None => r is Ok,
        },
{
    if !parser.is_at_end() {
        if let Some(current) = parser.current_token() {
            return Err(unexpected_token_after_expression_error(parser, current));
        }
    }
    Ok(())
}

} // verus!
