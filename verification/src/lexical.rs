//! The lexical grammar of Jsonnet source text, as spec functions over the
//! character sequence of the input.  Indices are character indices; spans
//! and error locations are byte offsets (see `byte_pos`).

use vstd::prelude::*;
use crate::text::{byte_pos, char_width, contains_seq, occurs_at, unicode_alphabetic, unicode_numeric, unicode_whitespace, utf8_len};
use vstd::utf8::is_scalar;
use crate::int_format::digit_value;

verus! {

/// The abstract value of a token.
pub enum TokenView {
    Identifier(Seq<char>),
    Number(Seq<char>),
    Str(Seq<char>),
    Assert,
    Else,
    Error,
    False,
    For,
    Function,
    If,
    Import,
    ImportStr,
    ImportBin,
    In,
    Local,
    Null,
    TailStrict,
    Then,
    Self_,
    Super,
    True,
    LeftBrace,
    RightBrace,
    LeftBracket,
    RightBracket,
    Comma,
    Dot,
    LeftParen,
    RightParen,
    Semicolon,
    Operator(Seq<char>),
    Eof,
}

/// The outcome of lexing one token.
///
/// `Tok` covers the characters `start..end`; `Fail` carries the byte span and
/// message of the error and the index the scanner stops at.  In both cases
/// `reached` is the furthest index consumed, which differs from the final index
/// only after a text block, whose scan rewinds to just past its closing `|||`.
pub enum Lexed {
    Tok { token: TokenView, start: int, end: int, reached: int },
    Fail { from: int, to: int, message: Seq<char>, next: int, reached: int },
}

/// The character at index `i`, or NUL past the end.
pub open spec fn at(s: Seq<char>, i: int) -> char {
    if 0 <= i < s.len() {
        s[i]
    } else {
        '\0'
    }
}

pub open spec fn is_digit(c: char) -> bool {
    '0' <= c <= '9'
}

/// Characters that may make up an operator.
pub open spec fn is_op_char(c: char) -> bool {
    c == '!' || c == '$' || c == ':' || c == '~' || c == '+' || c == '-' || c == '&' || c == '|'
        || c == '^' || c == '=' || c == '<' || c == '>' || c == '*' || c == '/' || c == '%'
}

/// Characters that end an operator when they would be its second or later character.
pub open spec fn is_op_final_only(c: char) -> bool {
    c == '+' || c == '-' || c == '~' || c == '!' || c == '$'
}

pub open spec fn is_ident_start(c: char) -> bool {
    unicode_alphabetic(c) || c == '_'
}

pub open spec fn is_ident_char(c: char) -> bool {
    unicode_alphabetic(c) || unicode_numeric(c) || c == '_'
}

/// Index just past the run of identifier characters that starts at `k`.
pub open spec fn ident_end(s: Seq<char>, k: int) -> int
    decreases s.len() - k,
{
    if 0 <= k < s.len() && is_ident_char(s[k]) {
        ident_end(s, k + 1)
    } else {
        k
    }
}

/// Index just past the run of decimal digits that starts at `k`.
pub open spec fn digits_end(s: Seq<char>, k: int) -> int
    decreases s.len() - k,
{
    if 0 <= k < s.len() && is_digit(s[k]) {
        digits_end(s, k + 1)
    } else {
        k
    }
}

/// Index of the first newline at or after `k`, or the end of the input.
pub open spec fn line_end(s: Seq<char>, k: int) -> int
    decreases s.len() - k,
{
    if 0 <= k < s.len() && s[k] != '\n' {
        line_end(s, k + 1)
    } else {
        k
    }
}

/// The newline search stays within the input and never moves backwards.
pub proof fn lemma_line_end_bounds(s: Seq<char>, k: int)
    requires
        0 <= k <= s.len(),
    ensures
        k <= line_end(s, k) <= s.len(),
        line_end(s, k) < s.len() ==> s[line_end(s, k)] == '\n',
        forall|m: int| k <= m < line_end(s, k) ==> s[m] != '\n',
    decreases s.len() - k,
{
    if k < s.len() && s[k] != '\n' {
        lemma_line_end_bounds(s, k + 1);
    }
}

/// A run of digits stays within the input.
pub proof fn lemma_digits_end_bounds(s: Seq<char>, k: int)
    requires
        0 <= k <= s.len(),
    ensures
        k <= digits_end(s, k) <= s.len(),
    decreases s.len() - k,
{
    if k < s.len() && is_digit(s[k]) {
        lemma_digits_end_bounds(s, k + 1);
    }
}

/// A run of identifier characters stays within the input.
pub proof fn lemma_ident_end_bounds(s: Seq<char>, k: int)
    requires
        0 <= k <= s.len(),
    ensures
        k <= ident_end(s, k) <= s.len(),
    decreases s.len() - k,
{
    if k < s.len() && is_ident_char(s[k]) {
        lemma_ident_end_bounds(s, k + 1);
    }
}

/// A run of blanks stays within the input.
pub proof fn lemma_blanks_end_bounds(s: Seq<char>, k: int)
    requires
        0 <= k <= s.len(),
    ensures
        k <= blanks_end(s, k) <= s.len(),
    decreases s.len() - k,
{
    if k < s.len() && (s[k] == ' ' || s[k] == '\t') {
        lemma_blanks_end_bounds(s, k + 1);
    }
}

/// An operator stays within the input.
pub proof fn lemma_op_end_bounds(s: Seq<char>, start: int, k: int)
    requires
        0 <= start <= k <= s.len(),
    ensures
        k <= op_end(s, start, k) <= s.len(),
    decreases s.len() - k,
{
    if k < s.len() && op_continues(s, start, k) {
        lemma_op_end_bounds(s, start, k + 1);
    }
}

/// A closed block comment ends within the input, after its opening.
pub proof fn lemma_block_end_bounds(s: Seq<char>, k: int)
    requires
        0 <= k,
    ensures
        block_end(s, k) matches Some(e) ==> k + 2 <= e <= s.len(),
    decreases s.len() - k,
{
    if k < s.len() && !(s[k] == '*' && at(s, k + 1) == '/') {
        lemma_block_end_bounds(s, k + 1);
    }
}

/// Index just past the `*/` that closes a block comment whose body starts at `k`.
pub open spec fn block_end(s: Seq<char>, k: int) -> Option<int>
    decreases s.len() - k,
{
    if k < 0 || k >= s.len() {
        None
    } else if s[k] == '*' && at(s, k + 1) == '/' {
        Some(k + 2)
    } else {
        block_end(s, k + 1)
    }
}

/// Skips whitespace and comments from `i`: the index of the next token, or
/// the start of a block comment that is never closed.
pub open spec fn skip_trivia(s: Seq<char>, i: int) -> Result<int, int>
    decreases s.len() - i,
{
    if i < 0 || i >= s.len() {
        Ok(i)
    } else {
        let c = s[i];
        if c == ' ' || c == '\t' || c == '\r' || c == '\n' {
            skip_trivia(s, i + 1)
        } else if c == '#' || (c == '/' && at(s, i + 1) == '/') {
            proof {
                lemma_line_end_bounds(s, i + 1);
            }
            skip_trivia(s, line_end(s, i + 1))
        } else if c == '/' && at(s, i + 1) == '*' {
            proof {
                lemma_block_end_bounds(s, i + 2);
            }
            match block_end(s, i + 2) {
                Some(e) => skip_trivia(s, e),
                None => Err(i),
            }
        } else {
            Ok(i)
        }
    }
}

/// Skipping whitespace and comments moves forward and stops before a token.
pub proof fn lemma_skip_trivia_stops(s: Seq<char>, i: int)
    requires
        0 <= i <= s.len(),
    ensures
        skip_trivia(s, i) matches Ok(j) ==> {
            &&& i <= j <= s.len()
            &&& j < s.len() ==> {
                &&& s[j] != ' ' && s[j] != '\t' && s[j] != '\r' && s[j] != '\n' && s[j] != '#'
                &&& !(s[j] == '/' && (at(s, j + 1) == '/' || at(s, j + 1) == '*'))
            }
        },
        skip_trivia(s, i) matches Err(k) ==> i <= k < s.len(),
    decreases s.len() - i,
{
    if i < s.len() {
        let c = s[i];
        if c == ' ' || c == '\t' || c == '\r' || c == '\n' {
            lemma_skip_trivia_stops(s, i + 1);
        } else if c == '#' || (c == '/' && at(s, i + 1) == '/') {
            lemma_line_end_bounds(s, i + 1);
            lemma_skip_trivia_stops(s, line_end(s, i + 1));
        } else if c == '/' && at(s, i + 1) == '*' {
            lemma_block_end_bounds(s, i + 2);
            match block_end(s, i + 2) {
                Some(e) => lemma_skip_trivia_stops(s, e),
                None => {},
            }
        }
    }
}

/// The token that a word of identifier characters stands for.
pub open spec fn keyword_or_ident(w: Seq<char>) -> TokenView {
    if w == "assert"@ {
        TokenView::Assert
    } else if w == "else"@ {
        TokenView::Else
    } else if w == "error"@ {
        TokenView::Error
    } else if w == "false"@ {
        TokenView::False
    } else if w == "for"@ {
        TokenView::For
    } else if w == "function"@ {
        TokenView::Function
    } else if w == "if"@ {
        TokenView::If
    } else if w == "import"@ {
        TokenView::Import
    } else if w == "importstr"@ {
        TokenView::ImportStr
    } else if w == "importbin"@ {
        TokenView::ImportBin
    } else if w == "in"@ {
        TokenView::In
    } else if w == "local"@ {
        TokenView::Local
    } else if w == "null"@ {
        TokenView::Null
    } else if w == "tailstrict"@ {
        TokenView::TailStrict
    } else if w == "then"@ {
        TokenView::Then
    } else if w == "self"@ {
        TokenView::Self_
    } else if w == "super"@ {
        TokenView::Super
    } else if w == "true"@ {
        TokenView::True
    } else {
        TokenView::Identifier(w)
    }
}

/// Whether the operator that started at `start` and has reached `k` takes `s[k]`.
pub open spec fn op_continues(s: Seq<char>, start: int, k: int) -> bool {
    let c = s[k];
    &&& is_op_char(c)
    &&& !(c == '|' && at(s, k + 1) == '|' && at(s, k + 2) == '|')
    &&& !(c == '/' && (at(s, k + 1) == '/' || at(s, k + 1) == '*'))
    &&& !contains_seq(s.subrange(start, k + 1), "//"@)
    &&& !contains_seq(s.subrange(start, k + 1), "/*"@)
    &&& !contains_seq(s.subrange(start, k + 1), "|||"@)
    &&& !(k > start && is_op_final_only(c))
    &&& !(k == start + 1 && s[start] == '+' && c == ':')
}

/// Index just past the operator that starts at `start`, having reached `k`.
pub open spec fn op_end(s: Seq<char>, start: int, k: int) -> int
    decreases s.len() - k,
{
    if 0 <= start <= k < s.len() && op_continues(s, start, k) {
        op_end(s, start, k + 1)
    } else {
        k
    }
}

/// Scans a number literal whose first digit is at `j`.
pub open spec fn lex_number(s: Seq<char>, j: int) -> Lexed {
    let a = digits_end(s, j);
    let b = if at(s, a) == '.' && is_digit(at(s, a + 1)) {
        digits_end(s, a + 1)
    } else {
        a
    };
    if at(s, b) == 'e' || at(s, b) == 'E' {
        let c = if at(s, b + 1) == '+' || at(s, b + 1) == '-' {
            b + 2
        } else {
            b + 1
        };
        if !is_digit(at(s, c)) {
            Lexed::Fail {
                from: byte_pos(s, j) as int,
                to: byte_pos(s, c) as int,
                message: "Invalid number: expected digits after exponent"@,
                next: c,
                reached: c,
            }
        } else {
            let d = digits_end(s, c);
            Lexed::Tok { token: TokenView::Number(s.subrange(j, d)), start: j, end: d, reached: d }
        }
    } else {
        Lexed::Tok { token: TokenView::Number(s.subrange(j, b)), start: j, end: b, reached: b }
    }
}

/// The value of a hexadecimal digit.
pub open spec fn hex_value(c: char) -> Option<u32> {
    if '0' <= c <= '9' {
        Some((c as u32 - '0' as u32) as u32)
    } else if 'a' <= c <= 'f' {
        Some((c as u32 - 'a' as u32 + 10) as u32)
    } else if 'A' <= c <= 'F' {
        Some((c as u32 - 'A' as u32 + 10) as u32)
    } else {
        None
    }
}

/// The value of a run of hexadecimal digits (no sign), if all are digits.
pub open spec fn hex_digits_value(d: Seq<char>) -> Option<int>
    decreases d.len(),
{
    if d.len() == 0 {
        Some(0)
    } else {
        match (hex_digits_value(d.drop_last()), hex_value(d.last())) {
            (Some(v), Some(x)) => Some(v * 16 + x),
            _ => None,
        }
    }
}

/// `u32::from_str_radix(d, 16)` on four characters: an optional leading `+`
/// followed by hexadecimal digits.
pub open spec fn parse_hex4(d: Seq<char>) -> Option<u32> {
    let digits = if d.len() > 0 && d[0] == '+' {
        d.drop_first()
    } else {
        d
    };
    if digits.len() == 0 {
        None
    } else {
        match hex_digits_value(digits) {
            Some(v) => Some(v as u32),
            None => None,
        }
    }
}

/// The four characters read from `k` on, NUL past the end.
pub open spec fn quad(s: Seq<char>, k: int) -> Seq<char> {
    seq![at(s, k), at(s, k + 1), at(s, k + 2), at(s, k + 3)]
}

/// `k + n`, but no further than the end of the input.
pub open spec fn clamp_add(s: Seq<char>, k: int, n: int) -> int {
    if k + n <= s.len() {
        k + n
    } else {
        s.len() as int
    }
}

/// The result of decoding one escape sequence: the characters it stands for
/// and the index after it, or an error.
pub enum Escaped {
    Chars { chars: Seq<char>, next: int },
    Bad { from: int, to: int, message: Seq<char>, next: int },
}

/// Decodes a `\u` escape whose hex digits start at `h`.
pub open spec fn unicode_escape(s: Seq<char>, h: int) -> Escaped {
    let d = quad(s, h);
    let h4 = clamp_add(s, h, 4);
    let from = byte_pos(s, h) - 2;
    match parse_hex4(d) {
        None => Escaped::Bad {
            from,
            to: byte_pos(s, h4) as int,
            message: "Invalid unicode escape sequence: \\u"@ + d,
            next: h4,
        },
        Some(cp) => if 0xD800 <= cp <= 0xDBFF {
            if at(s, h4) == '\\' && at(s, h4 + 1) == 'u' {
                let l = h4 + 2;
                let d2 = quad(s, l);
                let l4 = clamp_add(s, l, 4);
                match parse_hex4(d2) {
                    None => Escaped::Bad {
                        from,
                        to: byte_pos(s, l4) as int,
                        message: "Invalid unicode escape after surrogate: \\u"@ + d2,
                        next: l4,
                    },
                    Some(low) => if 0xDC00 <= low <= 0xDFFF {
                        let full = (0x10000 + (cp - 0xD800) * 1024 + (low - 0xDC00)) as u32;
                        if is_scalar(full) {
                            Escaped::Chars { chars: seq![full as char], next: l4 }
                        } else {
                            Escaped::Bad {
                                from,
                                to: byte_pos(s, l4) as int,
                                message: "Invalid surrogate pair: \\u"@ + d + "\\u"@ + d2,
                                next: l4,
                            }
                        }
                    } else {
                        Escaped::Bad {
                            from,
                            to: byte_pos(s, l4) as int,
                            message: "Expected low surrogate after \\u"@ + d + ", got \\u"@ + d2,
                            next: l4,
                        }
                    },
                }
            } else {
                Escaped::Bad {
                    from,
                    to: byte_pos(s, h4) as int,
                    message: "High surrogate \\u"@ + d + " not followed by low surrogate"@,
                    next: h4,
                }
            }
        } else if is_scalar(cp) {
            Escaped::Chars { chars: seq![cp as char], next: h4 }
        } else {
            Escaped::Bad {
                from,
                to: byte_pos(s, h4) as int,
                message: "Invalid unicode escape sequence: \\u"@ + d,
                next: h4,
            }
        },
    }
}

/// Decodes the escape sequence whose escaped character is at `k` (just after the backslash).
pub open spec fn escape(s: Seq<char>, k: int) -> Escaped {
    let e = at(s, k);
    let k1 = clamp_add(s, k, 1);
    if e == '"' || e == '\'' || e == '\\' || e == '/' {
        Escaped::Chars { chars: seq![e], next: k1 }
    } else if e == 'b' {
        Escaped::Chars { chars: seq!['\u{8}'], next: k1 }
    } else if e == 'f' {
        Escaped::Chars { chars: seq!['\u{c}'], next: k1 }
    } else if e == 'n' {
        Escaped::Chars { chars: seq!['\n'], next: k1 }
    } else if e == 'r' {
        Escaped::Chars { chars: seq!['\r'], next: k1 }
    } else if e == 't' {
        Escaped::Chars { chars: seq!['\t'], next: k1 }
    } else if e == 'u' {
        unicode_escape(s, k1)
    } else {
        Escaped::Bad {
            from: byte_pos(s, k1) - 2,
            to: byte_pos(s, k1) as int,
            message: "Invalid escape sequence: \\"@.push(e),
            next: k1,
        }
    }
}

/// The code point that a one-letter escape stands for, as JSON defines them
/// (with `\'` for the single-quoted strings): `n` line feed, `r` carriage
/// return, `t` tab, `b` backspace, `f` form feed, and the quotes, backslash
/// and slash for themselves. Keyed and valued by code points.
pub open spec fn json_escape_code(e: char) -> Option<u32> {
    let c = e as u32;
    if c == 110 {
        Some(10)
    } else if c == 114 {
        Some(13)
    } else if c == 116 {
        Some(9)
    } else if c == 98 {
        Some(8)
    } else if c == 102 {
        Some(12)
    } else if c == 34 || c == 39 || c == 92 || c == 47 {
        Some(c)
    } else {
        None
    }
}

/// A one-letter escape decodes to the one character JSON gives it, and
/// decoding goes on right after the letter.
pub proof fn law_escape_letters(s: Seq<char>, k: int)
    requires
        0 <= k < s.len(),
        json_escape_code(s[k]) is Some,
    ensures
        escape(s, k) == (Escaped::Chars {
            chars: seq![json_escape_code(s[k])->Some_0 as char],
            next: k + 1,
        }),
{
}

/// In a string literal that is not verbatim, a backslash and an escape
/// letter add the one character the letter stands for to the string, and
/// the literal goes on after the letter.
pub proof fn law_string_escape_letters(
    s: Seq<char>,
    j: int,
    quote: char,
    k: int,
    acc: Seq<char>,
)
    requires
        quote == '"' || quote == '\'',
        0 <= k,
        k + 1 < s.len(),
        s[k] == '\\',
        json_escape_code(s[k + 1]) is Some,
    ensures
        lex_string(s, j, quote, false, k, acc) == lex_string(
            s,
            j,
            quote,
            false,
            k + 2,
            acc.push(json_escape_code(s[k + 1])->Some_0 as char),
        ),
{
    lemma_lex_string_escape(s, j, quote, k, acc);
    law_escape_letters(s, k + 1);
    assert(acc + seq![json_escape_code(s[k + 1])->Some_0 as char] =~= acc.push(
        json_escape_code(s[k + 1])->Some_0 as char,
    ));
}

/// Whether a character is a hexadecimal digit, by its code point.
pub open spec fn is_hex_digit_char(c: char) -> bool {
    let x = c as u32;
    (48 <= x <= 57) || (97 <= x <= 102) || (65 <= x <= 70)
}

/// The number that the four hexadecimal digits from `k` on spell.
pub open spec fn hex4_at(s: Seq<char>, k: int) -> int {
    (4096 * digit_value(s[k]) + 256 * digit_value(s[k + 1]) + 16 * digit_value(s[k + 2])
        + digit_value(s[k + 3])) as int
}

/// `\u` and four hexadecimal digits that spell a code point outside the
/// surrogates decode to the character with that code point, and decoding
/// goes on after the four digits.
pub proof fn law_unicode_escape(s: Seq<char>, k: int)
    requires
        0 <= k,
        k + 4 < s.len(),
        s[k] as u32 == 117,
        is_hex_digit_char(s[k + 1]),
        is_hex_digit_char(s[k + 2]),
        is_hex_digit_char(s[k + 3]),
        is_hex_digit_char(s[k + 4]),
        !(0xD800 <= hex4_at(s, k + 1) <= 0xDFFF),
    ensures
        escape(s, k) == (Escaped::Chars { chars: seq![hex4_at(s, k + 1) as char], next: k + 5 }),
{
    let d = quad(s, k + 1);
    assert(d =~= seq![s[k + 1], s[k + 2], s[k + 3], s[k + 4]]);
    assert forall|i: int| 0 <= i < 4 implies hex_value(#[trigger] d[i]) == Some(
        digit_value(d[i]) as u32,
    ) by {
        assert(is_hex_digit_char(d[i]));
    }
    reveal_with_fuel(hex_digits_value, 5);
    let d3 = d.drop_last();
    let d2 = d3.drop_last();
    let d1 = d2.drop_last();
    let d0 = d1.drop_last();
    assert(d0 =~= Seq::<char>::empty());
    assert(d1.last() == d[0] && d2.last() == d[1] && d3.last() == d[2] && d.last() == d[3]);
    assert(hex_value(d[0]) == Some(digit_value(d[0]) as u32));
    assert(hex_value(d[1]) == Some(digit_value(d[1]) as u32));
    assert(hex_value(d[2]) == Some(digit_value(d[2]) as u32));
    assert(hex_value(d[3]) == Some(digit_value(d[3]) as u32));
    assert(hex_digits_value(d1) == Some(digit_value(d[0]) as int));
    assert(hex_digits_value(d2) == Some((digit_value(d[0]) * 16 + digit_value(d[1])) as int));
    assert(hex_digits_value(d3) == Some(
        ((digit_value(d[0]) * 16 + digit_value(d[1])) * 16 + digit_value(d[2])) as int,
    ));
    assert(hex_digits_value(d) == Some(hex4_at(s, k + 1)));
    assert(0 <= hex4_at(s, k + 1) < 0x10000);
    assert(d[0] != '+');
    assert(is_scalar(hex4_at(s, k + 1) as u32));
}

/// The index after an escape sequence stays within the input and does not move back.
pub proof fn lemma_escape_next(s: Seq<char>, k: int)
    requires
        0 <= k <= s.len(),
    ensures
        match escape(s, k) {
            Escaped::Chars { next, .. } => k <= next <= s.len(),
            Escaped::Bad { next, .. } => k <= next <= s.len(),
        },
{
}

/// One escape step of a string literal.
pub proof fn lemma_lex_string_escape(s: Seq<char>, j: int, quote: char, k: int, acc: Seq<char>)
    requires
        0 <= k < s.len(),
        s[k] == '\\',
        quote != '\\',
    ensures
        lex_string(s, j, quote, false, k, acc) == match escape(s, k + 1) {
            Escaped::Chars { chars, next } => lex_string(s, j, quote, false, next, acc + chars),
            Escaped::Bad { from, to, message, next } => Lexed::Fail {
                from,
                to,
                message,
                next,
                reached: next,
            },
        },
{
    reveal(lex_string);
}

/// A doubled quote in a verbatim string stands for one quote.
pub proof fn lemma_lex_string_doubled(s: Seq<char>, j: int, quote: char, k: int, acc: Seq<char>)
    requires
        0 <= k,
        k + 1 < s.len(),
        s[k] == quote,
        s[k + 1] == quote,
    ensures
        lex_string(s, j, quote, true, k, acc) == lex_string(s, j, quote, true, k + 2, acc.push(quote)),
{
    reveal(lex_string);
}

/// A quote that is not doubled ends the string.
pub proof fn lemma_lex_string_close(
    s: Seq<char>,
    j: int,
    quote: char,
    verbatim: bool,
    k: int,
    acc: Seq<char>,
)
    requires
        0 <= k < s.len(),
        s[k] == quote,
        !(verbatim && at(s, k + 1) == quote),
    ensures
        lex_string(s, j, quote, verbatim, k, acc) == (Lexed::Tok {
            token: TokenView::Str(acc),
            start: j,
            end: k + 1,
            reached: k + 1,
        }),
{
    reveal(lex_string);
}

/// Any other character is taken as it is.
pub proof fn lemma_lex_string_plain(
    s: Seq<char>,
    j: int,
    quote: char,
    verbatim: bool,
    k: int,
    acc: Seq<char>,
)
    requires
        0 <= k < s.len(),
        s[k] != quote,
        verbatim || s[k] != '\\',
    ensures
        lex_string(s, j, quote, verbatim, k, acc) == lex_string(
            s,
            j,
            quote,
            verbatim,
            k + 1,
            acc.push(s[k]),
        ),
{
    reveal(lex_string);
}

/// A string still open at the end of the input is unterminated.
pub proof fn lemma_lex_string_end(
    s: Seq<char>,
    j: int,
    quote: char,
    verbatim: bool,
    k: int,
    acc: Seq<char>,
)
    requires
        k >= s.len(),
    ensures
        lex_string(s, j, quote, verbatim, k, acc) == (Lexed::Fail {
            from: byte_pos(s, j) as int,
            to: utf8_len(s) as int,
            message: "Unterminated string literal starting with "@.push(quote),
            next: s.len() as int,
            reached: s.len() as int,
        }),
{
    reveal(lex_string);
}

/// Scans the rest of a string literal that began at `start`, with the body read
/// up to index `k` and decoded into `acc`.
#[verifier::opaque]
pub open spec fn lex_string(
    s: Seq<char>,
    start: int,
    quote: char,
    verbatim: bool,
    k: int,
    acc: Seq<char>,
) -> Lexed
    decreases s.len() - k,
{
    if k < 0 || k >= s.len() {
        Lexed::Fail {
            from: byte_pos(s, start) as int,
            to: utf8_len(s) as int,
            message: "Unterminated string literal starting with "@.push(quote),
            next: s.len() as int,
            reached: s.len() as int,
        }
    } else if s[k] == quote {
        if verbatim && k + 1 < s.len() && s[k + 1] == quote {
            lex_string(s, start, quote, verbatim, k + 2, acc.push(quote))
        } else {
            Lexed::Tok { token: TokenView::Str(acc), start, end: k + 1, reached: k + 1 }
        }
    } else if verbatim || s[k] != '\\' {
        lex_string(s, start, quote, verbatim, k + 1, acc.push(s[k]))
    } else {
        proof {
            lemma_escape_next(s, k + 1);
        }
        match escape(s, k + 1) {
            Escaped::Chars { chars, next } => lex_string(s, start, quote, verbatim, next, acc + chars),
            Escaped::Bad { from, to, message, next } => Lexed::Fail {
                from,
                to,
                message,
                next,
                reached: next,
            },
        }
    }
}

/// Index just past the spaces and tabs that start at `k`.
pub open spec fn blanks_end(s: Seq<char>, k: int) -> int
    decreases s.len() - k,
{
    if 0 <= k < s.len() && (s[k] == ' ' || s[k] == '\t') {
        blanks_end(s, k + 1)
    } else {
        k
    }
}

/// Number of leading whitespace characters of a line.
pub open spec fn ws_prefix(line: Seq<char>) -> int
    decreases line.len(),
{
    if line.len() > 0 && unicode_whitespace(line[0]) {
        1 + ws_prefix(line.drop_first())
    } else {
        0
    }
}

/// A line made of whitespace only.
pub open spec fn is_blank(line: Seq<char>) -> bool {
    forall|i: int| 0 <= i < line.len() ==> unicode_whitespace(#[trigger] line[i])
}

/// The indentation of a text block: the leading whitespace of its first
/// non-blank line, or nothing.
pub open spec fn block_indent(lines: Seq<Seq<char>>) -> Seq<char>
    decreases lines.len(),
{
    if lines.len() == 0 {
        seq![]
    } else if !is_blank(lines[0]) {
        lines[0].take(ws_prefix(lines[0]))
    } else {
        block_indent(lines.drop_first())
    }
}

/// The lines of a text block with the indentation removed; `None` if a
/// non-blank line does not start with the indentation.
pub open spec fn dedent(lines: Seq<Seq<char>>, indent: Seq<char>) -> Option<Seq<Seq<char>>>
    decreases lines.len(),
{
    if lines.len() == 0 {
        Some(seq![])
    } else {
        match dedent(lines.drop_last(), indent) {
            None => None,
            Some(done) => {
                let l = lines.last();
                if is_blank(l) {
                    Some(done.push(seq![]))
                } else if indent.len() <= l.len() && l.take(indent.len() as int) == indent {
                    Some(done.push(l.skip(indent.len() as int)))
                } else {
                    None
                }
            },
        }
    }
}

/// The lines joined with newlines.
pub open spec fn join_lines(lines: Seq<Seq<char>>) -> Seq<char>
    decreases lines.len(),
{
    if lines.len() == 0 {
        seq![]
    } else if lines.len() == 1 {
        lines[0]
    } else {
        join_lines(lines.drop_last()).push('\n') + lines.last()
    }
}

/// The text of a block: the joined lines with a final newline, which `|||-` strips.
pub open spec fn block_text(lines: Seq<Seq<char>>, strip: bool) -> Seq<char> {
    let joined = join_lines(lines);
    let with_nl = if joined.len() > 0 {
        joined.push('\n')
    } else {
        joined
    };
    if strip && with_nl.len() > 0 && with_nl.last() == '\n' {
        with_nl.drop_last()
    } else {
        with_nl
    }
}

/// Lower-case hexadecimal digits of a number, without leading zeros.
pub open spec fn hex_lower(v: nat) -> Seq<char>
    decreases v,
{
    let d = v % 16;
    let c = if d < 10 {
        ('0' as u32 + d) as char
    } else {
        ('a' as u32 + d - 10) as char
    };
    if v < 16 {
        seq![c]
    } else {
        hex_lower(v / 16).push(c)
    }
}

/// `char::escape_default` of one character.
pub open spec fn escape_char(c: char) -> Seq<char> {
    if c == '\t' {
        seq!['\\', 't']
    } else if c == '\r' {
        seq!['\\', 'r']
    } else if c == '\n' {
        seq!['\\', 'n']
    } else if c == '\\' || c == '\'' || c == '"' {
        seq!['\\', c]
    } else if ' ' <= c <= '~' {
        seq![c]
    } else {
        seq!['\\', 'u', '{'] + hex_lower(c as u32 as nat) + seq!['}']
    }
}

/// `str::escape_default`: each character escaped in turn.
pub open spec fn escape_default(s: Seq<char>) -> Seq<char>
    decreases s.len(),
{
    if s.len() == 0 {
        seq![]
    } else {
        escape_default(s.drop_last()) + escape_char(s.last())
    }
}

/// Finishes a text block that began at `j` once its closing line is found:
/// `close` is the index just past the closing `|||`, `reached` the index after
/// that line.
pub open spec fn finish_text_block(
    s: Seq<char>,
    j: int,
    strip: bool,
    raw: Seq<Seq<char>>,
    close: int,
    reached: int,
) -> Lexed {
    let indent = block_indent(raw);
    match dedent(raw, indent) {
        Some(lines) => Lexed::Tok {
            token: TokenView::Str(block_text(lines, strip)),
            start: j,
            end: close,
            reached,
        },
        None => Lexed::Fail {
            from: byte_pos(s, j) as int,
            to: byte_pos(s, close) as int,
            message: "Text block line doesn't start with expected indentation: '"@ + escape_default(
                indent,
            ) + "'"@,
            next: close,
            reached,
        },
    }
}

/// One line of a text block: either its closing line or a content line.
pub proof fn lemma_text_lines_step(s: Seq<char>, j: int, strip: bool, k: int, raw: Seq<Seq<char>>)
    requires
        0 <= k < s.len(),
    ensures
        ({
            let e = line_end(s, k);
            let line = s.subrange(k, e);
            let next_k = if e < s.len() {
                e + 1
            } else {
                e
            };
            let w = ws_prefix(line);
            text_lines(s, j, strip, k, raw) == if occurs_at(line, "|||"@, w) {
                finish_text_block(s, j, strip, raw, k + w + 3, next_k)
            } else {
                text_lines(s, j, strip, next_k, raw.push(line))
            }
        }),
{
    reveal(text_lines);
}

/// A text block still open at the end of the input is unterminated.
pub proof fn lemma_text_lines_end(s: Seq<char>, j: int, strip: bool, k: int, raw: Seq<Seq<char>>)
    requires
        k >= s.len(),
    ensures
        text_lines(s, j, strip, k, raw) == (Lexed::Fail {
            from: byte_pos(s, j) as int,
            to: utf8_len(s) as int,
            message: "Unterminated text block"@,
            next: s.len() as int,
            reached: s.len() as int,
        }),
{
    reveal(text_lines);
}

/// Reads the lines of a text block that began at `j`, from index `k` on, with
/// the content lines read so far in `raw`.
#[verifier::opaque]
pub open spec fn text_lines(s: Seq<char>, j: int, strip: bool, k: int, raw: Seq<Seq<char>>) -> Lexed
    decreases s.len() - k,
{
    if k < 0 || k >= s.len() {
        Lexed::Fail {
            from: byte_pos(s, j) as int,
            to: utf8_len(s) as int,
            message: "Unterminated text block"@,
            next: s.len() as int,
            reached: s.len() as int,
        }
    } else {
        let e = line_end(s, k);
        proof {
            lemma_line_end_bounds(s, k);
        }
        let line = s.subrange(k, e);
        let next_k = if e < s.len() {
            e + 1
        } else {
            e
        };
        let w = ws_prefix(line);
        if occurs_at(line, "|||"@, w) {
            finish_text_block(s, j, strip, raw, k + w + 3, next_k)
        } else {
            text_lines(s, j, strip, next_k, raw.push(line))
        }
    }
}

/// Scans a text block whose opening `|||` is at `j`.
pub open spec fn lex_text_block(s: Seq<char>, j: int) -> Lexed {
    let strip = at(s, j + 3) == '-';
    let k1 = if strip {
        j + 4
    } else {
        j + 3
    };
    let h = blanks_end(s, k1);
    if at(s, h) != '\n' {
        Lexed::Fail {
            from: byte_pos(s, j) as int,
            to: byte_pos(s, h) as int,
            message: "Text block must have newline after |||"@,
            next: h,
            reached: h,
        }
    } else {
        text_lines(s, j, strip, h + 1, seq![])
    }
}

/// Scans an identifier or keyword that starts at `j`.
pub open spec fn lex_identifier(s: Seq<char>, j: int) -> Lexed {
    let e = ident_end(s, j);
    Lexed::Tok { token: keyword_or_ident(s.subrange(j, e)), start: j, end: e, reached: e }
}

/// Scans an operator that starts at `j`.
pub open spec fn lex_operator(s: Seq<char>, j: int) -> Lexed {
    let e = op_end(s, j, j);
    Lexed::Tok { token: TokenView::Operator(s.subrange(j, e)), start: j, end: e, reached: e }
}

/// A token made of the single character at `j`.
pub open spec fn single(t: TokenView, j: int) -> Lexed {
    Lexed::Tok { token: t, start: j, end: j + 1, reached: j + 1 }
}

/// Lexes the token that starts at `j`, where no whitespace or comment starts.
pub open spec fn lex_at(s: Seq<char>, j: int) -> Lexed {
    if j < 0 || j >= s.len() {
        Lexed::Tok { token: TokenView::Eof, start: j, end: j, reached: j }
    } else {
        let c = s[j];
        if c == '{' {
            single(TokenView::LeftBrace, j)
        } else if c == '}' {
            single(TokenView::RightBrace, j)
        } else if c == '[' {
            single(TokenView::LeftBracket, j)
        } else if c == ']' {
            single(TokenView::RightBracket, j)
        } else if c == ',' {
            single(TokenView::Comma, j)
        } else if c == '.' {
            single(TokenView::Dot, j)
        } else if c == '(' {
            single(TokenView::LeftParen, j)
        } else if c == ')' {
            single(TokenView::RightParen, j)
        } else if c == ';' {
            single(TokenView::Semicolon, j)
        } else if c == '"' || c == '\'' {
            lex_string(s, j, c, false, j + 1, seq![])
        } else if c == '@' && (at(s, j + 1) == '"' || at(s, j + 1) == '\'') {
            lex_string(s, j, at(s, j + 1), true, j + 2, seq![])
        } else if c == '|' && at(s, j + 1) == '|' && at(s, j + 2) == '|' {
            lex_text_block(s, j)
        } else if is_digit(c) {
            lex_number(s, j)
        } else if is_ident_start(c) {
            lex_identifier(s, j)
        } else if is_op_char(c) {
            lex_operator(s, j)
        } else {
            Lexed::Fail {
                from: byte_pos(s, j) as int,
                to: (byte_pos(s, j) + char_width(c)) as int,
                message: "Unexpected character '"@.push(c).push('\''),
                next: j,
                reached: j,
            }
        }
    }
}

/// Lexes the next token from index `i`: skips whitespace and comments, then
/// reads one token.
pub open spec fn lex_next(s: Seq<char>, i: int) -> Lexed {
    match skip_trivia(s, i) {
        Err(k) => Lexed::Fail {
            from: byte_pos(s, k) as int,
            to: utf8_len(s) as int,
            message: "Unterminated block comment"@,
            next: s.len() as int,
            reached: s.len() as int,
        },
        Ok(j) => lex_at(s, j),
    }
}

/// Line and column after reading one character.
pub open spec fn lc_step(lc: (int, int), c: char) -> (int, int) {
    if c == '\n' {
        (if lc.0 + 1 <= usize::MAX {
            lc.0 + 1
        } else {
            usize::MAX as int
        }, 1)
    } else {
        (lc.0, if lc.1 + 1 <= usize::MAX {
            lc.1 + 1
        } else {
            usize::MAX as int
        })
    }
}

/// Line and column after reading the characters `a..b`.
pub open spec fn lc_advance(s: Seq<char>, a: int, b: int, lc: (int, int)) -> (int, int)
    decreases b - a,
{
    if b <= a {
        lc
    } else {
        lc_step(lc_advance(s, a, b - 1, lc), s[b - 1])
    }
}

} // verus!

verus! {

/// A scanned token: its value and byte span.
pub struct ScannedToken {
    pub token: TokenView,
    pub from: int,
    pub to: int,
}

/// A scanning error: its byte span and message.
pub struct ScannedError {
    pub from: int,
    pub to: int,
    pub message: Seq<char>,
}

/// The tokens, errors and final line and column of scanning a whole input.
pub struct Scan {
    pub tokens: Seq<ScannedToken>,
    pub errors: Seq<ScannedError>,
    pub lc: (int, int),
}

/// Scans from index `i` to the end of the input, with line and column `lc`:
/// every token up to and including the end-of-input token, and every error;
/// after an error the scanner skips one character.  The scanner always moves
/// forward, so the guards on the recursive calls always hold.
pub open spec fn scan_from(s: Seq<char>, i: int, lc: (int, int)) -> Scan
    decreases s.len() - i,
{
    if i < 0 || i > s.len() {
        Scan { tokens: seq![], errors: seq![], lc }
    } else {
        match lex_next(s, i) {
            Lexed::Tok { token, start, end, reached } => {
                let t = ScannedToken {
                    token,
                    from: byte_pos(s, start) as int,
                    to: byte_pos(s, end) as int,
                };
                let lc1 = lc_advance(s, i, reached, lc);
                if token is Eof || !(i < end <= s.len()) {
                    Scan { tokens: seq![t], errors: seq![], lc: lc1 }
                } else {
                    let rest = scan_from(s, end, lc1);
                    Scan { tokens: seq![t] + rest.tokens, errors: rest.errors, lc: rest.lc }
                }
            },
            Lexed::Fail { from, to, message, next, reached } => {
                let lc1 = lc_advance(s, i, reached, lc);
                let n2 = clamp_add(s, next, 1);
                let lc2 = lc_advance(s, next, n2, lc1);
                let e = ScannedError { from, to, message };
                if !(i < n2 <= s.len()) {
                    Scan { tokens: seq![], errors: seq![e], lc: lc2 }
                } else {
                    let rest = scan_from(s, n2, lc2);
                    Scan { tokens: rest.tokens, errors: seq![e] + rest.errors, lc: rest.lc }
                }
            },
        }
    }
}

/// The error for a semicolon that ends the input, if the tokens end so.
pub open spec fn trailing_semicolon(tokens: Seq<ScannedToken>) -> Seq<ScannedError> {
    if tokens.len() >= 2 && tokens[tokens.len() - 2].token is Semicolon {
        seq![
            ScannedError {
                from: tokens[tokens.len() - 2].from,
                to: tokens[tokens.len() - 2].to,
                message: "Trailing semicolon at end of file is not valid in Jsonnet"@,
            },
        ]
    } else {
        seq![]
    }
}

/// The string values among the tokens, in order.
pub open spec fn token_strings(tokens: Seq<ScannedToken>) -> Seq<Seq<char>>
    decreases tokens.len(),
{
    if tokens.len() == 0 {
        seq![]
    } else {
        token_strings(tokens.drop_last()) + match tokens.last().token {
            TokenView::Str(v) => seq![v],
            _ => seq![],
        }
    }
}

} // verus!
