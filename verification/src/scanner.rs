//! The Jsonnet scanner: turns source text into tokens with byte spans.

use vstd::prelude::*;
use std::ops::Range;
use crate::lexical::{
    at, block_end, clamp_add, digits_end, ident_end, is_digit, is_ident_char, is_ident_start, is_op_char,
    is_op_final_only, keyword_or_ident, lc_advance, lc_step, lemma_block_end_bounds,
    lemma_digits_end_bounds, lemma_ident_end_bounds, lemma_line_end_bounds, lemma_op_end_bounds, lemma_escape_next, lex_identifier, lex_next, lex_at, single, lemma_skip_trivia_stops, scan_from, trailing_semicolon, token_strings, Scan, ScannedToken, ScannedError, lex_number, lex_operator, lex_string, lemma_lex_string_escape, lemma_lex_string_doubled, lemma_lex_string_close, lemma_lex_string_plain, lemma_lex_string_end, lemma_text_lines_step, lemma_text_lines_end, lemma_blanks_end_bounds, lex_text_block, text_lines, finish_text_block, blanks_end, ws_prefix, block_indent, dedent, block_text, escape_default, escape, unicode_escape, Escaped, quad, parse_hex4, hex_value, hex_digits_value, line_end, op_continues, op_end, skip_trivia, Lexed,
    TokenView,
};
use crate::text_block::{
    block_indent_of, block_text_of, dedent_lines, lines_view, push_escaped, ws_prefix_len,
};
use crate::text::{
    byte_pos, char_width, chars_of, contains_chars, contains_seq, is_alphabetic, is_alphanumeric,
    len_utf8, to_lowercase, unicode_lowercase, lemma_byte_pos_mono, append_chars, char_from_u32, matches_at, occurs_at, lemma_byte_pos_step, push_char, string_of, unicode_alphabetic,
    unicode_numeric, utf8_len,
};

verus! {

/// A lexical token.  A number keeps the text it was written with.
#[derive(Debug, PartialEq)]
pub enum Token {
    Identifier(String),
    Number(String),
    String(String),
    Assert,
    Else,
    Error,
    False,
    For,
    Function,
    If,
    Import,
    ImportStr,
    ImportBin,
    In,
    Local,
    Null,
    TailStrict,
    Then,
    Self_,
    Super,
    True,
    LeftBrace,
    RightBrace,
    LeftBracket,
    RightBracket,
    Comma,
    Dot,
    LeftParen,
    RightParen,
    Semicolon,
    Operator(String),
    Eof,
}

impl View for Token {
    type V = TokenView;

    open spec fn view(&self) -> TokenView {
        match self {
            Token::Identifier(s) => TokenView::Identifier(s@),
            Token::Number(s) => TokenView::Number(s@),
            Token::String(s) => TokenView::Str(s@),
            Token::Assert => TokenView::Assert,
            Token::Else => TokenView::Else,
            Token::Error => TokenView::Error,
            Token::False => TokenView::False,
            Token::For => TokenView::For,
            Token::Function => TokenView::Function,
            Token::If => TokenView::If,
            Token::Import => TokenView::Import,
            Token::ImportStr => TokenView::ImportStr,
            Token::ImportBin => TokenView::ImportBin,
            Token::In => TokenView::In,
            Token::Local => TokenView::Local,
            Token::Null => TokenView::Null,
            Token::TailStrict => TokenView::TailStrict,
            Token::Then => TokenView::Then,
            Token::Self_ => TokenView::Self_,
            Token::Super => TokenView::Super,
            Token::True => TokenView::True,
            Token::LeftBrace => TokenView::LeftBrace,
            Token::RightBrace => TokenView::RightBrace,
            Token::LeftBracket => TokenView::LeftBracket,
            Token::RightBracket => TokenView::RightBracket,
            Token::Comma => TokenView::Comma,
            Token::Dot => TokenView::Dot,
            Token::LeftParen => TokenView::LeftParen,
            Token::RightParen => TokenView::RightParen,
            Token::Semicolon => TokenView::Semicolon,
            Token::Operator(s) => TokenView::Operator(s@),
            Token::Eof => TokenView::Eof,
        }
    }
}

/// A token with the byte span of the text it was read from.
#[derive(Debug)]
pub struct TokenInfo {
    pub token: Token,
    pub span: Range<usize>,
}

impl Clone for Token {
    fn clone(&self) -> (r: Self)
        ensures
            r == *self,
    {
        match self {
            Token::Identifier(s) => Token::Identifier(s.clone()),
            Token::Number(s) => Token::Number(s.clone()),
            Token::String(s) => Token::String(s.clone()),
            Token::Assert => Token::Assert,
            Token::Else => Token::Else,
            Token::Error => Token::Error,
            Token::False => Token::False,
            Token::For => Token::For,
            Token::Function => Token::Function,
            Token::If => Token::If,
            Token::Import => Token::Import,
            Token::ImportStr => Token::ImportStr,
            Token::ImportBin => Token::ImportBin,
            Token::In => Token::In,
            Token::Local => Token::Local,
            Token::Null => Token::Null,
            Token::TailStrict => Token::TailStrict,
            Token::Then => Token::Then,
            Token::Self_ => Token::Self_,
            Token::Super => Token::Super,
            Token::True => Token::True,
            Token::LeftBrace => Token::LeftBrace,
            Token::RightBrace => Token::RightBrace,
            Token::LeftBracket => Token::LeftBracket,
            Token::RightBracket => Token::RightBracket,
            Token::Comma => Token::Comma,
            Token::Dot => Token::Dot,
            Token::LeftParen => Token::LeftParen,
            Token::RightParen => Token::RightParen,
            Token::Semicolon => Token::Semicolon,
            Token::Operator(s) => Token::Operator(s.clone()),
            Token::Eof => Token::Eof,
        }
    }
}

impl Clone for TokenInfo {
    fn clone(&self) -> (r: Self)
        ensures
            r == *self,
    {
        TokenInfo {
            token: self.token.clone(),
            span: Range { start: self.span.start, end: self.span.end },
        }
    }
}

/// A saved scanner position.
#[derive(Debug, Clone)]
pub struct ScannerCheckpoint {
    pub position: usize,
    pub line: usize,
    pub column: usize,
}

/// A scanning (or later compilation) error, possibly caused by another one.
#[derive(Debug)]
pub struct ScanError {
    pub span: Range<usize>,
    pub message: String,
    pub source_id: String,
    pub cause: Option<Box<ScanError>>,
}

/// The token information `t` holds `token` over the bytes `from..to`.
pub open spec fn token_info_is(t: TokenInfo, token: TokenView, from: int, to: int) -> bool {
    &&& t.token@ == token
    &&& t.span.start == from
    &&& t.span.end == to
}

/// The error `e` is the one described, with no cause.
pub open spec fn error_is(e: ScanError, from: int, to: int, message: Seq<char>, source: Seq<char>) -> bool {
    &&& e.span.start == from
    &&& e.span.end == to
    &&& e.message@ == message
    &&& e.source_id@ == source
    &&& e.cause is None
}

/// A text without NUL characters.  The scanner reads NUL as "end of input"
/// and never moves past one, so scanning a text that holds one does not end.
pub open spec fn nul_free(s: Seq<char>) -> bool {
    forall|i: int| 0 <= i < s.len() ==> s[i] != '\0'
}

/// The strings collected for the given token: its value if it is a string.
pub open spec fn strings_of(t: TokenView) -> Seq<Seq<char>> {
    match t {
        TokenView::Str(v) => seq![v],
        _ => seq![],
    }
}

pub struct Scanner<'a> {
    chars: Vec<char>,
    index: usize,
    position: usize,
    line: usize,
    column: usize,
    pub source_id: &'a str,
    collected_strings: Vec<String>,
}

impl<'a> Scanner<'a> {
    /// The characters of the input.
    pub closed spec fn text(&self) -> Seq<char> {
        self.chars@
    }

    /// The name of the input.
    pub closed spec fn source(&self) -> Seq<char> {
        self.source_id@
    }

    /// The index of the next character to read.
    pub closed spec fn index(&self) -> int {
        self.index as int
    }

    /// The current line and column.
    pub closed spec fn lc(&self) -> (int, int) {
        (self.line as int, self.column as int)
    }

    /// The values of the string tokens scanned so far.
    pub closed spec fn collected(&self) -> Seq<Seq<char>> {
        self.collected_strings@.map_values(|s: String| s@)
    }

    /// The internal invariant: the byte position matches the index.
    pub closed spec fn wf(&self) -> bool {
        &&& self.index <= self.chars@.len()
        &&& self.position == byte_pos(self.chars@, self.index as int)
        &&& utf8_len(self.chars@) <= usize::MAX
    }

    /// Ready to scan: well formed over a text without NUL characters.
    pub open spec fn ready(&self) -> bool {
        self.wf() && nul_free(self.text())
    }

    /// The byte offset of the next character to read.
    pub open spec fn pos(&self) -> int {
        byte_pos(self.text(), self.index()) as int
    }

    pub fn new(input: &'a str, source_id: &'a str) -> (res: Self)
        ensures
            res.wf(),
            res.text() == input@,
            res.index() == 0,
            res.lc() == (1int, 1int),
            res.collected() == Seq::<Seq<char>>::empty(),
            res.source() == source_id@,
    {
        let chars = chars_of(input);
        let res = Self {
            chars,
            index: 0,
            position: 0,
            line: 1,
            column: 1,
            source_id,
            collected_strings: Vec::new(),
        };
        proof {
            assert(res.chars@.take(0) =~= Seq::<char>::empty());
            assert(res.collected() =~= Seq::<Seq<char>>::empty());
        }
        res
    }

    /// Get reference to all collected strings from scanning
    pub fn collected_strings(&self) -> (res: &Vec<String>)
        ensures
            res@.map_values(|s: String| s@) == self.collected(),
    {
        &self.collected_strings
    }

    /// Save scanner position for backtracking
    pub fn save_position(&self) -> (res: ScannerCheckpoint)
        requires
            self.wf(),
        ensures
            res.position == self.pos(),
            (res.line as int, res.column as int) == self.lc(),
    {
        ScannerCheckpoint { position: self.position, line: self.line, column: self.column }
    }

    /// Whether a checkpoint names a character boundary of the input.
    pub open spec fn at_boundary(&self, position: int) -> bool {
        exists|k: int| 0 <= k <= self.text().len() && byte_pos(self.text(), k) == position
    }

    /// Restore scanner to a previously saved position
    pub fn restore_position(&mut self, checkpoint: ScannerCheckpoint)
        requires
            old(self).wf(),
            old(self).at_boundary(checkpoint.position as int),
        ensures
            final(self).wf(),
            final(self).text() == old(self).text(),
            final(self).pos() == checkpoint.position,
            final(self).lc() == (checkpoint.line as int, checkpoint.column as int),
            final(self).collected() == old(self).collected(),
            final(self).source() == old(self).source(),
    {
        let ghost s = self.chars@;
        let ghost target = choose|k: int| 0 <= k <= s.len() && byte_pos(s, k) == checkpoint.position;
        let mut k: usize = 0;
        let mut p: usize = 0;
        while p < checkpoint.position && k < self.chars.len()
            invariant
                s == self.chars@,
                0 <= target <= s.len(),
                byte_pos(s, target) == checkpoint.position,
                k <= s.len(),
                p == byte_pos(s, k as int),
                k <= target,
                utf8_len(s) <= usize::MAX,
            decreases s.len() - k,
        {
            proof {
                lemma_byte_pos_step(s, k as int);
                lemma_byte_pos_mono(s, k as int + 1, s.len() as int);
                if target == k {
                } else {
                    lemma_byte_pos_mono(s, k as int + 1, target);
                }
            }
            p = p + len_utf8(self.chars[k]);
            k = k + 1;
        }
        proof {
            if (k as int) < target {
                lemma_byte_pos_mono(s, k as int + 1, target);
                lemma_byte_pos_step(s, k as int);
            }
        }
        self.index = k;
        self.position = p;
        self.line = checkpoint.line;
        self.column = checkpoint.column;
    }

    /// A well-formed scanner reads within its text.
    pub proof fn lemma_index_in_text(&self)
        requires
            self.wf(),
        ensures
            0 <= self.index() <= self.text().len(),
    {
    }

    /// The name of the source being scanned.
    pub fn source_name(&self) -> (r: &'a str)
        ensures
            r@ == self.source(),
    {
        self.source_id
    }

    pub fn make_error(&self, span: Range<usize>, message: String) -> (res: ScanError)
        ensures
            error_is(res, span.start as int, span.end as int, message@, self.source()),
    {
        ScanError::new(span, message, String::from_str(self.source_id))
    }

    pub fn peek(&self) -> (c: char)
        requires
            self.wf(),
        ensures
            c == at(self.text(), self.index()),
    {
        if self.index < self.chars.len() {
            self.chars[self.index]
        } else {
            '\0'
        }
    }

    pub fn peek_ahead(&self, offset: usize) -> (c: Option<char>)
        requires
            self.wf(),
        ensures
            c == (if self.index() + offset < self.text().len() {
                Some(self.text()[self.index() + offset])
            } else {
                None::<char>
            }),
    {
        if offset < self.chars.len() - self.index {
            Some(self.chars[self.index + offset])
        } else {
            None
        }
    }

    pub fn advance(&mut self) -> (c: char)
        requires
            old(self).ready(),
        ensures
            final(self).ready(),
            c == at(old(self).text(), old(self).index()),
            final(self).text() == old(self).text(),
            final(self).index() == clamp_add(old(self).text(), old(self).index(), 1),
            final(self).lc() == lc_advance(
                old(self).text(),
                old(self).index(),
                final(self).index(),
                old(self).lc(),
            ),
            final(self).collected() == old(self).collected(),
            final(self).source() == old(self).source(),
    {
        let ch = self.peek();
        let ghost lc0 = self.lc();
        let ghost i0 = self.index as int;
        let n = self.chars.len();
        if ch != '\0' {
            assert(self.index < n);
            proof {
                lemma_byte_pos_step(self.chars@, self.index as int);
                lemma_byte_pos_mono(self.chars@, self.index as int + 1, self.chars@.len() as int);
            }
            self.position = self.position + len_utf8(ch);
            self.index = self.index + 1;
            if ch == '\n' {
                self.line = self.line.saturating_add(1);
                self.column = 1;
            } else {
                self.column = self.column.saturating_add(1);
            }
            assert(lc_advance(self.chars@, i0, i0, lc0) == lc0);
            assert(lc_advance(self.chars@, i0, i0 + 1, lc0) == lc_step(lc0, self.chars@[i0]));
        }
        ch
    }

    pub fn is_at_end(&self) -> (r: bool)
        requires
            self.wf(),
        ensures
            r == (self.index() >= self.text().len()),
    {
        self.index >= self.chars.len()
    }
}

impl<'a> Scanner<'a> {
    /// `self` is `prev` moved forward to index `k` over the same text.
    pub open spec fn moved(&self, prev: &Self, k: int) -> bool {
        &&& self.ready()
        &&& self.text() == prev.text()
        &&& self.index() == k
        &&& self.lc() == lc_advance(prev.text(), prev.index(), k, prev.lc())
        &&& self.collected() == prev.collected()
        &&& self.source() == prev.source()
    }

    pub fn skip_line_comment(&mut self)
        requires
            old(self).ready(),
        ensures
            final(self).moved(old(self), line_end(old(self).text(), old(self).index())),
    {
        let ghost s = self.chars@;
        let ghost i0 = self.index as int;
        let ghost lc0 = self.lc();
        proof {
            lemma_line_end_bounds(s, i0);
        }
        while self.peek() != '\n' && !self.is_at_end()
            invariant
                self.ready(),
                self.text() == s,
                i0 <= self.index() <= line_end(s, i0),
                line_end(s, self.index()) == line_end(s, i0),
                self.lc() == lc_advance(s, i0, self.index(), lc0),
                self.collected() == old(self).collected(),
                self.source() == old(self).source(),
                old(self).text() == s,
                old(self).index() == i0,
                old(self).lc() == lc0,
            decreases s.len() - self.index(),
        {
            let ghost k = self.index();
            proof {
                lemma_line_end_bounds(s, k + 1);
            }
            self.advance();
            proof {
                lemma_lc_advance_trans(s, i0, k, k + 1, lc0);
            }
        }
    }

    pub fn skip_block_comment(&mut self) -> (res: Result<(), ScanError>)
        requires
            old(self).ready(),
            at(old(self).text(), old(self).index()) == '/',
            at(old(self).text(), old(self).index() + 1) == '*',
        ensures
            match block_end(old(self).text(), old(self).index() + 2) {
                Some(e) => res is Ok && final(self).moved(old(self), e),
                None => res matches Err(err) && final(self).moved(
                    old(self),
                    old(self).text().len() as int,
                ) && error_is(
                    err,
                    old(self).pos(),
                    utf8_len(old(self).text()) as int,
                    "Unterminated block comment"@,
                    old(self).source(),
                ),
            },
    {
        let ghost s = self.chars@;
        let ghost i0 = self.index as int;
        let ghost lc0 = self.lc();
        let start = self.position;
        self.advance();
        self.advance();
        proof {
            lemma_lc_advance_trans(s, i0, i0 + 1, i0 + 2, lc0);
            lemma_block_end_bounds(s, i0 + 2);
        }
        while !self.is_at_end()
            invariant
                self.ready(),
                self.text() == s,
                i0 + 2 <= self.index() <= s.len(),
                block_end(s, self.index()) == block_end(s, i0 + 2),
                self.lc() == lc_advance(s, i0, self.index(), lc0),
                self.collected() == old(self).collected(),
                self.source() == old(self).source(),
                old(self).text() == s,
                old(self).index() == i0,
                old(self).lc() == lc0,
                start == byte_pos(s, i0),
            decreases s.len() - self.index(),
        {
            let ghost k = self.index();
            if self.peek() == '*' && self.peek_ahead(1) == Some('/') {
                self.advance();
                self.advance();
                proof {
                    lemma_lc_advance_trans(s, i0, k, k + 1, lc0);
                    lemma_lc_advance_trans(s, i0, k + 1, k + 2, lc0);
                    assert(block_end(s, k) == Some(k + 2));
                }
                return Ok(());
            }
            self.advance();
            proof {
                lemma_lc_advance_trans(s, i0, k, k + 1, lc0);
            }
        }
        proof {
            assert(s.take(s.len() as int) =~= s);
        }
        Err(self.make_error(start..self.position, String::from_str("Unterminated block comment")))
    }

    pub fn skip_whitespace_and_comments(&mut self) -> (res: Result<(), ScanError>)
        requires
            old(self).ready(),
        ensures
            match skip_trivia(old(self).text(), old(self).index()) {
                Ok(j) => res is Ok && final(self).moved(old(self), j),
                Err(k) => res matches Err(err) && final(self).moved(
                    old(self),
                    old(self).text().len() as int,
                ) && error_is(
                    err,
                    byte_pos(old(self).text(), k) as int,
                    utf8_len(old(self).text()) as int,
                    "Unterminated block comment"@,
                    old(self).source(),
                ),
            },
    {
        let ghost s = self.chars@;
        let ghost i0 = self.index as int;
        let ghost lc0 = self.lc();
        loop
            invariant
                self.ready(),
                self.text() == s,
                i0 <= self.index() <= s.len(),
                skip_trivia(s, self.index()) == skip_trivia(s, i0),
                self.lc() == lc_advance(s, i0, self.index(), lc0),
                self.collected() == old(self).collected(),
                self.source() == old(self).source(),
                old(self).text() == s,
                old(self).index() == i0,
                old(self).lc() == lc0,
            decreases s.len() - self.index(),
        {
            let ghost k = self.index();
            let ghost lck = self.lc();
            let ch = self.peek();
            if ch == ' ' || ch == '\t' || ch == '\r' || ch == '\n' {
                self.advance();
                proof {
                    lemma_lc_advance_trans(s, i0, k, k + 1, lc0);
                }
            } else if ch == '#' || (ch == '/' && self.peek_ahead(1) == Some('/')) {
                proof {
                    lemma_line_end_bounds(s, k + 1);
                    assert(line_end(s, k) == line_end(s, k + 1));
                }
                self.skip_line_comment();
                proof {
                    lemma_lc_advance_trans(s, i0, k, self.index(), lc0);
                }
            } else if ch == '/' && self.peek_ahead(1) == Some('*') {
                proof {
                    lemma_block_end_bounds(s, k + 2);
                }
                match self.skip_block_comment() {
                    Ok(()) => {
                        proof {
                            lemma_lc_advance_trans(s, i0, k, self.index(), lc0);
                        }
                    },
                    Err(e) => {
                        proof {
                            lemma_lc_advance_trans(s, i0, k, self.index(), lc0);
                        }
                        return Err(e);
                    },
                }
            } else {
                return Ok(());
            }
        }
    }
}

/// Whether a character is an ASCII decimal digit.
pub fn is_ascii_digit(c: char) -> (r: bool)
    ensures
        r == is_digit(c),
{
    '0' <= c && c <= '9'
}

/// Whether a character may be part of an operator.
pub fn is_operator_char(c: char) -> (r: bool)
    ensures
        r == is_op_char(c),
{
    c == '!' || c == '$' || c == ':' || c == '~' || c == '+' || c == '-' || c == '&' || c == '|'
        || c == '^' || c == '=' || c == '<' || c == '>' || c == '*' || c == '/' || c == '%'
}

/// The token for a word of identifier characters: a keyword or an identifier.
pub fn keyword_or_identifier(word: String) -> (t: Token)
    ensures
        t@ == keyword_or_ident(word@),
{
    if word == String::from_str("assert") {
        Token::Assert
    } else if word == String::from_str("else") {
        Token::Else
    } else if word == String::from_str("error") {
        Token::Error
    } else if word == String::from_str("false") {
        Token::False
    } else if word == String::from_str("for") {
        Token::For
    } else if word == String::from_str("function") {
        Token::Function
    } else if word == String::from_str("if") {
        Token::If
    } else if word == String::from_str("import") {
        Token::Import
    } else if word == String::from_str("importstr") {
        Token::ImportStr
    } else if word == String::from_str("importbin") {
        Token::ImportBin
    } else if word == String::from_str("in") {
        Token::In
    } else if word == String::from_str("local") {
        Token::Local
    } else if word == String::from_str("null") {
        Token::Null
    } else if word == String::from_str("tailstrict") {
        Token::TailStrict
    } else if word == String::from_str("then") {
        Token::Then
    } else if word == String::from_str("self") {
        Token::Self_
    } else if word == String::from_str("super") {
        Token::Super
    } else if word == String::from_str("true") {
        Token::True
    } else {
        Token::Identifier(word)
    }
}

impl<'a> Scanner<'a> {
    /// `self` is what scanning `lx` from `prev` leaves, and `res` is what it returns.
    pub open spec fn outcome(&self, prev: &Self, res: Result<TokenInfo, ScanError>, lx: Lexed) -> bool {
        let s = prev.text();
        &&& self.ready()
        &&& self.text() == s
        &&& self.source() == prev.source()
        &&& match lx {
            Lexed::Tok { token, start, end, reached } => {
                &&& res matches Ok(t) && token_info_is(
                    t,
                    token,
                    byte_pos(s, start) as int,
                    byte_pos(s, end) as int,
                )
                &&& self.index() == end
                &&& prev.index() <= end <= reached
                &&& (token is Eof || prev.index() < end)
                &&& (token is Eof ==> end == s.len())
                &&& self.lc() == lc_advance(s, prev.index(), reached, prev.lc())
                &&& self.collected() == prev.collected() + strings_of(token)
            },
            Lexed::Fail { from, to, message, next, reached } => {
                &&& res matches Err(e) && error_is(e, from, to, message, prev.source())
                &&& self.index() == next
                &&& prev.index() <= next <= reached
                &&& prev.index() < s.len()
                &&& self.lc() == lc_advance(s, prev.index(), reached, prev.lc())
                &&& self.collected() == prev.collected()
            },
        }
    }

    /// The characters `from..to` of the input as a string.
    fn slice_string(&self, from: usize, to: usize) -> (res: String)
        requires
            from <= to <= self.text().len(),
        ensures
            res@ == self.text().subrange(from as int, to as int),
    {
        let mut v: Vec<char> = Vec::new();
        let mut i = from;
        while i < to
            invariant
                from <= i <= to <= self.chars@.len(),
                v@ == self.chars@.subrange(from as int, i as int),
            decreases to - i,
        {
            v.push(self.chars[i]);
            i += 1;
        }
        string_of(&v)
    }

    /// Skips the run of decimal digits at the current index.
    fn skip_digits(&mut self)
        requires
            old(self).ready(),
        ensures
            final(self).moved(old(self), digits_end(old(self).text(), old(self).index())),
    {
        let ghost s = self.chars@;
        let ghost i0 = self.index as int;
        let ghost lc0 = self.lc();
        while is_ascii_digit(self.peek())
            invariant
                self.ready(),
                self.text() == s,
                i0 <= self.index() <= s.len(),
                digits_end(s, self.index()) == digits_end(s, i0),
                self.lc() == lc_advance(s, i0, self.index(), lc0),
                self.collected() == old(self).collected(),
                self.source() == old(self).source(),
                old(self).text() == s,
                old(self).index() == i0,
                old(self).lc() == lc0,
            decreases s.len() - self.index(),
        {
            let ghost k = self.index();
            self.advance();
            proof {
                lemma_lc_advance_trans(s, i0, k, k + 1, lc0);
            }
        }
    }

    fn scan_number(&mut self, start: usize) -> (res: Result<TokenInfo, ScanError>)
        requires
            old(self).ready(),
            start == old(self).pos(),
            is_digit(at(old(self).text(), old(self).index())),
        ensures
            final(self).outcome(old(self), res, lex_number(old(self).text(), old(self).index())),
    {
        let ghost s = self.chars@;
        let ghost lc0 = self.lc();
        let j = self.index;
        proof {
            lemma_digits_end_bounds(s, j as int);
            lemma_digits_end_bounds(s, j as int + 1);
        }
        self.skip_digits();
        let ghost a = self.index();
        if self.peek() == '.' && match self.peek_ahead(1) {
            Some(c) => is_ascii_digit(c),
            None => false,
        } {
            self.advance();
            proof {
                lemma_lc_advance_trans(s, j as int, a, a + 1, lc0);
            }
            let ghost a1 = self.index();
            proof {
                lemma_digits_end_bounds(s, a1);
            }
            self.skip_digits();
            proof {
                lemma_lc_advance_trans(s, j as int, a1, self.index(), lc0);
            }
        }
        let ghost b = self.index();
        if self.peek() == 'e' || self.peek() == 'E' {
            self.advance();
            proof {
                lemma_lc_advance_trans(s, j as int, b, b + 1, lc0);
            }
            if self.peek() == '+' || self.peek() == '-' {
                self.advance();
                proof {
                    lemma_lc_advance_trans(s, j as int, b + 1, b + 2, lc0);
                }
            }
            if !is_ascii_digit(self.peek()) {
                return Err(
                    self.make_error(
                        start..self.position,
                        String::from_str("Invalid number: expected digits after exponent"),
                    ),
                );
            }
            let ghost c = self.index();
            proof {
                lemma_digits_end_bounds(s, c);
            }
            self.skip_digits();
            proof {
                lemma_lc_advance_trans(s, j as int, c, self.index(), lc0);
            }
        }
        let text = self.slice_string(j, self.index);
        Ok(TokenInfo { token: Token::Number(text), span: start..self.position })
    }

    fn scan_identifier_or_keyword(&mut self, start: usize) -> (res: Result<TokenInfo, ScanError>)
        requires
            old(self).ready(),
            start == old(self).pos(),
            old(self).index() < old(self).text().len(),
            is_ident_start(at(old(self).text(), old(self).index())),
        ensures
            final(self).outcome(old(self), res, lex_identifier(old(self).text(), old(self).index())),
    {
        let ghost s = self.chars@;
        let ghost lc0 = self.lc();
        let j = self.index;
        proof {
            lemma_ident_end_bounds(s, j as int + 1);
        }
        while is_alphanumeric(self.peek()) || self.peek() == '_'
            invariant
                self.ready(),
                self.text() == s,
                j <= self.index() <= s.len(),
                ident_end(s, self.index()) == ident_end(s, j as int),
                self.lc() == lc_advance(s, j as int, self.index(), lc0),
                self.collected() == old(self).collected(),
                self.source() == old(self).source(),
                old(self).text() == s,
                old(self).index() == j,
                old(self).lc() == lc0,
            decreases s.len() - self.index(),
        {
            let ghost k = self.index();
            self.advance();
            proof {
                lemma_lc_advance_trans(s, j as int, k, k + 1, lc0);
            }
        }
        let text = self.slice_string(j, self.index);
        let token = keyword_or_identifier(text);
        Ok(TokenInfo { token, span: start..self.position })
    }

    fn scan_operator(&mut self, start: usize) -> (res: Result<TokenInfo, ScanError>)
        requires
            old(self).ready(),
            start == old(self).pos(),
            is_op_char(at(old(self).text(), old(self).index())),
            !(at(old(self).text(), old(self).index()) == '|' && at(
                old(self).text(),
                old(self).index() + 1,
            ) == '|' && at(old(self).text(), old(self).index() + 2) == '|'),
            !(at(old(self).text(), old(self).index()) == '/' && (at(
                old(self).text(),
                old(self).index() + 1,
            ) == '/' || at(old(self).text(), old(self).index() + 1) == '*')),
        ensures
            final(self).outcome(old(self), res, lex_operator(old(self).text(), old(self).index())),
    {
        let ghost s = self.chars@;
        let ghost lc0 = self.lc();
        let j = self.index;
        let slash2 = chars_of("//");
        let slash_star = chars_of("/*");
        let bars = chars_of("|||");
        let mut operator: Vec<char> = Vec::new();
        proof {
            reveal_strlit("//");
            reveal_strlit("/*");
            reveal_strlit("|||");
            lemma_op_end_bounds(s, j as int, j as int + 1);
            assert(!contains_seq(s.subrange(j as int, j as int + 1), "//"@));
            assert(!contains_seq(s.subrange(j as int, j as int + 1), "/*"@));
            assert(!contains_seq(s.subrange(j as int, j as int + 1), "|||"@));
            assert(op_continues(s, j as int, j as int));
        }
        while !self.is_at_end()
            invariant_except_break
                op_end(s, j as int, self.index()) == op_end(s, j as int, j as int),
            invariant
                self.ready(),
                self.text() == s,
                j <= self.index() <= s.len(),
                operator@ == s.subrange(j as int, self.index()),
                self.lc() == lc_advance(s, j as int, self.index(), lc0),
                self.collected() == old(self).collected(),
                self.source() == old(self).source(),
                old(self).text() == s,
                old(self).index() == j,
                old(self).lc() == lc0,
                slash2@ == "//"@,
                slash_star@ == "/*"@,
                bars@ == "|||"@,
            ensures
                op_end(s, j as int, j as int) == self.index(),
            decreases s.len() - self.index(),
        {
            let ghost k = self.index();
            let ch = self.peek();
            if !is_operator_char(ch) {
                break;
            }
            if ch == '|' && self.peek_ahead(1) == Some('|') && self.peek_ahead(2) == Some('|') {
                break;
            }
            if ch == '/' && (self.peek_ahead(1) == Some('/') || self.peek_ahead(1) == Some('*')) {
                break;
            }
            let mut new_operator = operator.clone();
            new_operator.push(ch);
            proof {
                assert(new_operator@ =~= s.subrange(j as int, k + 1));
            }
            if contains_chars(&new_operator, &slash2) || contains_chars(&new_operator, &slash_star)
                || contains_chars(&new_operator, &bars) {
                break;
            }
            if new_operator.len() > 1 && (ch == '+' || ch == '-' || ch == '~' || ch == '!' || ch
                == '$') {
                break;
            }
            if operator.len() == 1 && operator[0] == '+' && ch == ':' {
                break;
            }
            operator.push(ch);
            self.advance();
            proof {
                lemma_lc_advance_trans(s, j as int, k, k + 1, lc0);
                assert(operator@ =~= s.subrange(j as int, k + 1));
            }
        }
        let text = string_of(&operator);
        Ok(TokenInfo { token: Token::Operator(text), span: start..self.position })
    }
}

/// The value of a hexadecimal digit.
pub fn hex_digit_value(c: char) -> (r: Option<u32>)
    ensures
        r == hex_value(c),
{
    if '0' <= c && c <= '9' {
        Some(c as u32 - '0' as u32)
    } else if 'a' <= c && c <= 'f' {
        Some(c as u32 - 'a' as u32 + 10)
    } else if 'A' <= c && c <= 'F' {
        Some(c as u32 - 'A' as u32 + 10)
    } else {
        None
    }
}

/// `16^n` for the digit counts of a four-character escape.
pub open spec fn pow16(n: int) -> int {
    if n <= 0 {
        1
    } else if n == 1 {
        16
    } else if n == 2 {
        256
    } else if n == 3 {
        4096
    } else {
        65536
    }
}

/// Parses the four characters of a `\u` escape as `u32::from_str_radix(_, 16)` does.
pub fn parse_hex_quad(d: &Vec<char>) -> (r: Option<u32>)
    requires
        d.len() == 4,
    ensures
        r == parse_hex4(d@),
{
    let first: usize = if d[0] == '+' {
        1
    } else {
        0
    };
    let ghost digits = if d@.len() > 0 && d@[0] == '+' {
        d@.drop_first()
    } else {
        d@
    };
    proof {
        assert(digits =~= d@.subrange(first as int, 4));
    }
    let mut v: u32 = 0;
    let mut i: usize = first;
    while i < 4
        invariant
            first <= i <= 4,
            first <= 1,
            d.len() == 4,
            digits == d@.subrange(first as int, 4),
            digits == (if d@.len() > 0 && d@[0] == '+' {
                d@.drop_first()
            } else {
                d@
            }),
            hex_digits_value(d@.subrange(first as int, i as int)) == Some(v as int),
            (v as int) < pow16(i - first),
        decreases 4 - i,
    {
        let ghost pre = d@.subrange(first as int, i as int);
        let ghost next = d@.subrange(first as int, i as int + 1);
        proof {
            assert(next.drop_last() =~= pre);
            assert(next.last() == d@[i as int]);
        }
        match hex_digit_value(d[i]) {
            Some(x) => {
                v = v * 16 + x;
            },
            None => {
                proof {
                    assert(hex_value(d@[i as int]) is None);
                    assert(hex_digits_value(next) is None);
                    assert(digits.take(i - first + 1) =~= next);
                    lemma_hex_prefix_none(digits, i - first);
                    assert(digits.len() > 0);
                    assert(hex_digits_value(digits) is None);
                    assert(parse_hex4(d@) is None);
                }
                return None;
            },
        }
        i += 1;
    }
    proof {
        assert(d@.subrange(first as int, 4) == digits);
    }
    Some(v)
}

/// A run of hex digits that fails on a prefix fails as a whole.
pub proof fn lemma_hex_prefix_none(d: Seq<char>, n: int)
    requires
        0 <= n < d.len(),
        hex_digits_value(d.take(n + 1)) is None,
    ensures
        hex_digits_value(d) is None,
    decreases d.len() - n,
{
    if n + 1 < d.len() {
        assert(d.take(n + 2).drop_last() =~= d.take(n + 1));
        lemma_hex_prefix_none(d, n + 1);
    } else {
        assert(d.take(n + 1) =~= d);
    }
}

impl<'a> Scanner<'a> {
    /// Reads the four characters of a `\u` escape, NUL past the end.
    fn read_quad(&mut self) -> (d: Vec<char>)
        requires
            old(self).ready(),
        ensures
            d@ == quad(old(self).text(), old(self).index()),
            final(self).moved(old(self), clamp_add(old(self).text(), old(self).index(), 4)),
    {
        let ghost s = self.chars@;
        let ghost i0 = self.index();
        let ghost lc0 = self.lc();
        let c0 = self.advance();
        let ghost i1 = self.index();
        let c1 = self.advance();
        let ghost i2 = self.index();
        let c2 = self.advance();
        let ghost i3 = self.index();
        let c3 = self.advance();
        proof {
            lemma_lc_advance_trans(s, i0, i1, i2, lc0);
            lemma_lc_advance_trans(s, i0, i2, i3, lc0);
            lemma_lc_advance_trans(s, i0, i3, self.index(), lc0);
            assert(c1 == at(s, i0 + 1));
            assert(c2 == at(s, i0 + 2));
            assert(c3 == at(s, i0 + 3));
        }
        let mut d: Vec<char> = Vec::new();
        d.push(c0);
        d.push(c1);
        d.push(c2);
        d.push(c3);
        proof {
            assert(d@ =~= quad(s, i0));
        }
        d
    }

    /// A message: the prefix followed by the given characters.
    fn message_with(prefix: &str, chars: &Vec<char>) -> (m: String)
        ensures
            m@ == prefix@ + chars@,
    {
        let mut m = String::from_str(prefix);
        append_chars(&mut m, chars);
        m
    }

    /// Decodes a `\u` escape whose hex digits start at the current index.
    fn scan_unicode_escape(&mut self) -> (res: Result<Vec<char>, ScanError>)
        requires
            old(self).ready(),
            old(self).index() >= 2,
        ensures
            final(self).ready(),
            final(self).text() == old(self).text(),
            final(self).source() == old(self).source(),
            final(self).collected() == old(self).collected(),
            match unicode_escape(old(self).text(), old(self).index()) {
                Escaped::Chars { chars, next } => res matches Ok(v) && v@ == chars
                    && final(self).moved(old(self), next),
                Escaped::Bad { from, to, message, next } => res matches Err(e) && error_is(
                    e,
                    from,
                    to,
                    message,
                    old(self).source(),
                ) && final(self).moved(old(self), next),
            },
    {
        let ghost s = self.chars@;
        let ghost h = self.index();
        let ghost lc0 = self.lc();
        let hex_start = self.position;
        proof {
            lemma_byte_pos_mono(s, 0, h);
        }
        let hex_digits = self.read_quad();
        match parse_hex_quad(&hex_digits) {
            Some(code_point) => {
                if 0xD800 <= code_point && code_point <= 0xDBFF {
                    if self.peek() == '\\' && self.peek_ahead(1) == Some('u') {
                        let ghost h4 = self.index();
                        self.advance();
                        self.advance();
                        proof {
                            lemma_lc_advance_trans(s, h, h4, h4 + 1, lc0);
                            lemma_lc_advance_trans(s, h, h4 + 1, h4 + 2, lc0);
                        }
                        let ghost l = self.index();
                        let low_hex = self.read_quad();
                        proof {
                            lemma_lc_advance_trans(s, h, l, self.index(), lc0);
                        }
                        match parse_hex_quad(&low_hex) {
                            Some(low_cp) => {
                                if 0xDC00 <= low_cp && low_cp <= 0xDFFF {
                                    let high_bits = code_point - 0xD800;
                                    assert((high_bits << 10u32) == high_bits * 1024) by (bit_vector)
                                        requires
                                            high_bits < 1024,
                                    ;
                                    let full_cp = 0x10000 + (high_bits << 10u32) + (low_cp - 0xDC00);
                                    match char_from_u32(full_cp) {
                                        Some(ch) => {
                                            let mut v: Vec<char> = Vec::new();
                                            v.push(ch);
                                            proof {
                                                assert(v@ =~= seq![ch]);
                                            }
                                            Ok(v)
                                        },
                                        None => {
                                            let mut m = Self::message_with(
                                                "Invalid surrogate pair: \\u",
                                                &hex_digits,
                                            );
                                            m.append("\\u");
                                            append_chars(&mut m, &low_hex);
                                            Err(self.make_error(hex_start - 2..self.position, m))
                                        },
                                    }
                                } else {
                                    let mut m = Self::message_with(
                                        "Expected low surrogate after \\u",
                                        &hex_digits,
                                    );
                                    m.append(", got \\u");
                                    append_chars(&mut m, &low_hex);
                                    Err(self.make_error(hex_start - 2..self.position, m))
                                }
                            },
                            None => {
                                let m = Self::message_with(
                                    "Invalid unicode escape after surrogate: \\u",
                                    &low_hex,
                                );
                                Err(self.make_error(hex_start - 2..self.position, m))
                            },
                        }
                    } else {
                        let mut m = Self::message_with("High surrogate \\u", &hex_digits);
                        m.append(" not followed by low surrogate");
                        Err(self.make_error(hex_start - 2..self.position, m))
                    }
                } else {
                    match char_from_u32(code_point) {
                        Some(unicode_char) => {
                            let mut v: Vec<char> = Vec::new();
                            v.push(unicode_char);
                            proof {
                                assert(v@ =~= seq![unicode_char]);
                            }
                            Ok(v)
                        },
                        None => {
                            let m = Self::message_with(
                                "Invalid unicode escape sequence: \\u",
                                &hex_digits,
                            );
                            Err(self.make_error(hex_start - 2..self.position, m))
                        },
                    }
                }
            },
            None => {
                let m = Self::message_with("Invalid unicode escape sequence: \\u", &hex_digits);
                Err(self.make_error(hex_start - 2..self.position, m))
            },
        }
    }

    /// Decodes an escape sequence whose escaped character is at the current index.
    fn scan_escape(&mut self) -> (res: Result<Vec<char>, ScanError>)
        requires
            old(self).ready(),
            old(self).index() >= 2,
        ensures
            final(self).ready(),
            final(self).text() == old(self).text(),
            final(self).source() == old(self).source(),
            final(self).collected() == old(self).collected(),
            match escape(old(self).text(), old(self).index()) {
                Escaped::Chars { chars, next } => res matches Ok(v) && v@ == chars
                    && final(self).moved(old(self), next),
                Escaped::Bad { from, to, message, next } => res matches Err(e) && error_is(
                    e,
                    from,
                    to,
                    message,
                    old(self).source(),
                ) && final(self).moved(old(self), next),
            },
    {
        let ghost s = self.chars@;
        let ghost k = self.index();
        let ghost lc0 = self.lc();
        let escaped = self.advance();
        let mut v: Vec<char> = Vec::new();
        if escaped == '"' || escaped == '\'' || escaped == '\\' || escaped == '/' {
            v.push(escaped);
        } else if escaped == 'b' {
            v.push('\u{8}');
        } else if escaped == 'f' {
            v.push('\u{c}');
        } else if escaped == 'n' {
            v.push('\n');
        } else if escaped == 'r' {
            v.push('\r');
        } else if escaped == 't' {
            v.push('\t');
        } else if escaped == 'u' {
            let ghost k1 = self.index();
            let r = self.scan_unicode_escape();
            proof {
                lemma_lc_advance_trans(s, k, k1, self.index(), lc0);
            }
            return r;
        } else {
            proof {
                lemma_byte_pos_mono(s, 0, self.index());
            }
            let mut m = String::from_str("Invalid escape sequence: \\");
            push_char(&mut m, escaped);
            return Err(self.make_error(self.position - 2..self.position, m));
        }
        proof {
            assert(v@ =~= seq![v@[0]]);
        }
        Ok(v)
    }

    /// Scans a string literal whose opening quote is the current character;
    /// the token's span starts at `start`, the byte offset of character
    /// `first` (for a verbatim string, that of the `@` just before the
    /// quote).
    #[verifier::rlimit(40)]
    fn scan_string(
        &mut self,
        quote: char,
        verbatim: bool,
        start: usize,
        Ghost(first): Ghost<int>,
    ) -> (res: Result<TokenInfo, ScanError>)
        requires
            old(self).ready(),
            quote == '"' || quote == '\'',
            at(old(self).text(), old(self).index()) == quote,
            0 <= first <= old(self).index(),
            start == byte_pos(old(self).text(), first),
            verbatim ==> first == old(self).index() - 1,
        ensures
            final(self).outcome(
                old(self),
                res,
                lex_string(
                    old(self).text(),
                    first,
                    quote,
                    verbatim,
                    old(self).index() + 1,
                    Seq::<char>::empty(),
                ),
            ),
    {
        let ghost s = self.chars@;
        let ghost i0 = self.index();
        let ghost lc0 = self.lc();
        let ghost j = first;
        let ghost goal = lex_string(s, j, quote, verbatim, i0 + 1, Seq::<char>::empty());
        self.advance();
        let mut value: Vec<char> = Vec::new();
        while !self.is_at_end()
            invariant_except_break
                lex_string(s, j, quote, verbatim, self.index(), value@) == goal,
            invariant
                self.ready(),
                self.text() == s,
                i0 + 1 <= self.index() <= s.len(),
                0 <= j <= i0,
                self.lc() == lc_advance(s, i0, self.index(), lc0),
                self.collected() == old(self).collected(),
                self.source() == old(self).source(),
                old(self).text() == s,
                old(self).index() == i0,
                old(self).lc() == lc0,
                quote == '"' || quote == '\'',
                start == byte_pos(s, j),
                j == first,
                verbatim ==> j == i0 - 1,
                goal == lex_string(s, j, quote, verbatim, i0 + 1, Seq::<char>::empty()),
            ensures
                self.index() < s.len() ==> goal == (Lexed::Tok {
                    token: TokenView::Str(value@),
                    start: j,
                    end: self.index() + 1,
                    reached: self.index() + 1,
                }) && at(s, self.index()) == quote,
                self.index() >= s.len() ==> lex_string(s, j, quote, verbatim, self.index(), value@)
                    == goal,
            decreases s.len() - self.index(),
        {
            let ghost k = self.index();
            if self.peek() == quote {
                if verbatim && self.peek_ahead(1) == Some(quote) {
                    proof {
                        lemma_lex_string_doubled(s, j, quote, k, value@);
                    }
                    self.advance();
                    self.advance();
                    value.push(quote);
                    proof {
                        lemma_lc_advance_trans(s, i0, k, k + 1, lc0);
                        lemma_lc_advance_trans(s, i0, k + 1, k + 2, lc0);
                    }
                } else {
                    proof {
                        lemma_lex_string_close(s, j, quote, verbatim, k, value@);
                    }
                    break;
                }
            } else {
                let ch = self.advance();
                proof {
                    lemma_lc_advance_trans(s, i0, k, k + 1, lc0);
                }
                if verbatim {
                    proof {
                        lemma_lex_string_plain(s, j, quote, verbatim, k, value@);
                    }
                    value.push(ch);
                } else if ch == '\\' {
                    proof {
                        lemma_byte_pos_mono(s, 0, k + 1);
                        lemma_escape_next(s, k + 1);
                        lemma_lex_string_escape(s, j, quote, k, value@);
                    }
                    let ghost value0 = value@;
                    match self.scan_escape() {
                        Ok(chars) => {
                            proof {
                                lemma_lc_advance_trans(s, i0, k + 1, self.index(), lc0);
                            }
                            extend_chars(&mut value, &chars);
                            proof {
                                let esc = escape(s, k + 1);
                                assert(esc is Chars);
                                assert(esc->Chars_chars == chars@);
                                assert(esc->Chars_next == self.index());
                                assert(goal == lex_string(s, j, quote, false, k, value0));
                                assert(lex_string(s, j, quote, false, k, value0) == lex_string(
                                    s,
                                    j,
                                    quote,
                                    false,
                                    self.index(),
                                    value@,
                                ));
                            }
                        },
                        Err(e) => {
                            proof {
                                lemma_lc_advance_trans(s, i0, k + 1, self.index(), lc0);
                                let esc = escape(s, k + 1);
                                assert(esc is Bad);
                                assert(goal == lex_string(s, j, quote, false, k, value0));
                                assert(goal == (Lexed::Fail {
                                    from: esc->Bad_from,
                                    to: esc->Bad_to,
                                    message: esc->Bad_message,
                                    next: esc->Bad_next,
                                    reached: esc->Bad_next,
                                }));
                            }
                            return Err(e);
                        },
                    }
                } else {
                    proof {
                        lemma_lex_string_plain(s, j, quote, verbatim, k, value@);
                    }
                    value.push(ch);
                }
            }
        }
        if self.is_at_end() {
            proof {
                assert(s.take(s.len() as int) =~= s);
                lemma_lex_string_end(s, j, quote, verbatim, self.index(), value@);
            }
            let mut m = String::from_str("Unterminated string literal starting with ");
            push_char(&mut m, quote);
            return Err(self.make_error(start..self.position, m));
        }
        let ghost k = self.index();
        self.advance();
        proof {
            lemma_lc_advance_trans(s, i0, k, k + 1, lc0);
        }
        let text = string_of(&value);
        let copy = string_of(&value);
        self.collected_strings.push(copy);
        proof {
            assert(self.collected() =~= old(self).collected() + seq![value@]);
        }
        Ok(TokenInfo { token: Token::String(text), span: start..self.position })
    }
}

impl<'a> Scanner<'a> {
    /// Reads the rest of the current line, leaving the newline unread.
    fn read_line(&mut self) -> (line: Vec<char>)
        requires
            old(self).ready(),
        ensures
            final(self).moved(old(self), line_end(old(self).text(), old(self).index())),
            line@ == old(self).text().subrange(
                old(self).index(),
                line_end(old(self).text(), old(self).index()),
            ),
    {
        let ghost s = self.chars@;
        let ghost i0 = self.index as int;
        let ghost lc0 = self.lc();
        proof {
            lemma_line_end_bounds(s, i0);
        }
        let mut line: Vec<char> = Vec::new();
        while !self.is_at_end() && self.peek() != '\n'
            invariant
                self.ready(),
                self.text() == s,
                i0 <= self.index() <= line_end(s, i0),
                line_end(s, self.index()) == line_end(s, i0),
                line@ == s.subrange(i0, self.index()),
                self.lc() == lc_advance(s, i0, self.index(), lc0),
                self.collected() == old(self).collected(),
                self.source() == old(self).source(),
                old(self).text() == s,
                old(self).index() == i0,
                old(self).lc() == lc0,
            decreases s.len() - self.index(),
        {
            let ghost k = self.index();
            proof {
                lemma_line_end_bounds(s, k + 1);
            }
            let c = self.advance();
            line.push(c);
            proof {
                lemma_lc_advance_trans(s, i0, k, k + 1, lc0);
                assert(line@ =~= s.subrange(i0, k + 1));
            }
        }
        line
    }

    #[verifier::rlimit(40)]
    fn scan_text_block(&mut self, start: usize) -> (res: Result<TokenInfo, ScanError>)
        requires
            old(self).ready(),
            start == old(self).pos(),
            at(old(self).text(), old(self).index()) == '|',
            at(old(self).text(), old(self).index() + 1) == '|',
            at(old(self).text(), old(self).index() + 2) == '|',
        ensures
            final(self).outcome(old(self), res, lex_text_block(old(self).text(), old(self).index())),
    {
        let ghost s = self.chars@;
        let ghost j = self.index();
        let ghost lc0 = self.lc();
        self.advance();
        self.advance();
        self.advance();
        proof {
            lemma_lc_advance_trans(s, j, j + 1, j + 2, lc0);
            lemma_lc_advance_trans(s, j, j + 2, j + 3, lc0);
        }
        let strip_final_newline = if self.peek() == '-' {
            self.advance();
            proof {
                lemma_lc_advance_trans(s, j, j + 3, j + 4, lc0);
            }
            true
        } else {
            false
        };
        let ghost k1 = self.index();
        proof {
            lemma_blanks_end_bounds(s, k1);
        }
        while self.peek() == ' ' || self.peek() == '\t'
            invariant
                self.ready(),
                self.text() == s,
                k1 <= self.index() <= s.len(),
                blanks_end(s, self.index()) == blanks_end(s, k1),
                self.lc() == lc_advance(s, j, self.index(), lc0),
                self.collected() == old(self).collected(),
                self.source() == old(self).source(),
                old(self).text() == s,
                old(self).index() == j,
                old(self).lc() == lc0,
                j + 3 <= k1,
            decreases s.len() - self.index(),
        {
            let ghost k = self.index();
            self.advance();
            proof {
                lemma_lc_advance_trans(s, j, k, k + 1, lc0);
            }
        }
        if self.peek() != '\n' {
            return Err(
                self.make_error(
                    start..self.position,
                    String::from_str("Text block must have newline after |||"),
                ),
            );
        }
        let ghost h = self.index();
        self.advance();
        proof {
            lemma_lc_advance_trans(s, j, h, h + 1, lc0);
        }
        let ghost goal = text_lines(s, j, strip_final_newline, h + 1, Seq::<Seq<char>>::empty());
        let bars = chars_of("|||");
        let mut raw_lines: Vec<Vec<char>> = Vec::new();
        let ghost mut close: int = 0;
        let ghost mut reached: int = 0;
        proof {
            assert(lines_view(raw_lines@) =~= Seq::<Seq<char>>::empty());
        }
        loop
            invariant_except_break
                text_lines(s, j, strip_final_newline, self.index(), lines_view(raw_lines@))
                    == goal,
                h + 1 <= self.index(),
                self.lc() == lc_advance(s, j, self.index(), lc0),
            invariant
                self.ready(),
                self.text() == s,
                self.index() <= s.len(),
                self.collected() == old(self).collected(),
                self.source() == old(self).source(),
                old(self).text() == s,
                old(self).index() == j,
                old(self).lc() == lc0,
                bars@ == "|||"@,
                start == byte_pos(s, j),
                0 <= j,
                j + 3 <= h,
                goal == text_lines(s, j, strip_final_newline, h + 1, Seq::<Seq<char>>::empty()),
                lex_text_block(s, j) == goal,
            ensures
                goal == finish_text_block(
                    s,
                    j,
                    strip_final_newline,
                    lines_view(raw_lines@),
                    close,
                    reached,
                ),
                self.index() == close,
                j < close <= reached <= s.len(),
                self.lc() == lc_advance(s, j, reached, lc0),
            decreases s.len() - self.index(),
        {
            if self.is_at_end() {
                proof {
                    lemma_text_lines_end(s, j, strip_final_newline, self.index(), lines_view(
                        raw_lines@,
                    ));
                    assert(s.take(s.len() as int) =~= s);
                }
                return Err(
                    self.make_error(start..self.position, String::from_str("Unterminated text block")),
                );
            }
            let ghost k = self.index();
            let line_index = self.index;
            let line_start = self.position;
            proof {
                lemma_text_lines_step(s, j, strip_final_newline, k, lines_view(raw_lines@));
                lemma_line_end_bounds(s, k);
            }
            let line = self.read_line();
            let ghost e = self.index();
            if !self.is_at_end() {
                self.advance();
            }
            proof {
                lemma_lc_advance_trans(s, j, k, e, lc0);
                lemma_lc_advance_trans(s, j, e, self.index(), lc0);
            }
            let w = ws_prefix_len(&line);
            proof {
                reveal_strlit("|||");
            }
            if matches_at(&line, &bars, w) {
                proof {
                    close = k + w + 3;
                    reached = self.index() as int;
                }
                let mut pos = line_start;
                let mut m: usize = 0;
                while m < w + 3
                    invariant
                        m <= w + 3 <= line.len(),
                        0 <= k <= e,
                        line@ == s.subrange(k, e),
                        e <= s.len(),
                        k + line.len() == e,
                        pos == byte_pos(s, k + m),
                        utf8_len(s) <= usize::MAX,
                    decreases w + 3 - m,
                {
                    proof {
                        lemma_byte_pos_step(s, k + m);
                        lemma_byte_pos_mono(s, k + m + 1, s.len() as int);
                    }
                    pos = pos + len_utf8(line[m]);
                    m += 1;
                }
                self.index = line_index + w + 3;
                self.position = pos;
                break;
            }
            let ghost raw0 = lines_view(raw_lines@);
            let ghost line_v = line@;
            proof {
                assert(line_v == s.subrange(k, line_end(s, k)));
                assert(!occurs_at(line_v, "|||"@, ws_prefix(line_v)));
                assert(text_lines(s, j, strip_final_newline, k, raw0) == text_lines(
                    s,
                    j,
                    strip_final_newline,
                    self.index(),
                    raw0.push(line_v),
                ));
            }
            raw_lines.push(line);
            proof {
                assert(lines_view(raw_lines@) =~= raw0.push(line_v));
            }
        }
        let indent = block_indent_of(&raw_lines);
        match dedent_lines(&raw_lines, &indent) {
            Some(lines) => {
                let value = block_text_of(&lines, strip_final_newline);
                let text = string_of(&value);
                let copy = string_of(&value);
                self.collected_strings.push(copy);
                proof {
                    assert(self.collected() =~= old(self).collected() + seq![value@]);
                }
                Ok(TokenInfo { token: Token::String(text), span: start..self.position })
            },
            None => {
                let mut m = String::from_str(
                    "Text block line doesn't start with expected indentation: '",
                );
                push_escaped(&mut m, &indent);
                m.append("'");
                Err(self.make_error(start..self.position, m))
            },
        }
    }
}

/// Scanning from a position reached by skipping characters is scanning from
/// the earlier position.
pub proof fn lemma_outcome_compose(
    orig: &Scanner,
    mid: &Scanner,
    fin: &Scanner,
    res: Result<TokenInfo, ScanError>,
    lx: Lexed,
)
    requires
        mid.moved(orig, mid.index()),
        orig.index() <= mid.index(),
        fin.outcome(mid, res, lx),
    ensures
        fin.outcome(orig, res, lx),
{
    match lx {
        Lexed::Tok { reached, .. } => {
            lemma_lc_advance_trans(orig.text(), orig.index(), mid.index(), reached, orig.lc());
        },
        Lexed::Fail { reached, .. } => {
            lemma_lc_advance_trans(orig.text(), orig.index(), mid.index(), reached, orig.lc());
        },
    }
}

impl<'a> Scanner<'a> {
    fn make_token(&self, token: Token, start: usize) -> (res: TokenInfo)
        ensures
            res.token == token,
            res.span.start == start,
            res.span.end == self.position,
    {
        TokenInfo { token, span: start..self.position }
    }

    /// Scans the single-character token at the current index.
    fn scan_single(&mut self, token: Token, start: usize) -> (res: Result<TokenInfo, ScanError>)
        requires
            old(self).ready(),
            start == old(self).pos(),
            old(self).index() < old(self).text().len(),
            !(token@ is Str),
            !(token@ is Eof),
        ensures
            final(self).outcome(old(self), res, single(token@, old(self).index())),
    {
        let ghost s = self.chars@;
        let ghost lc0 = self.lc();
        self.advance();
        Ok(self.make_token(token, start))
    }

    /// Scans the next token: skips whitespace and comments, then reads one token.
    pub fn scan_next(&mut self) -> (res: Result<TokenInfo, ScanError>)
        requires
            old(self).ready(),
        ensures
            final(self).outcome(old(self), res, lex_next(old(self).text(), old(self).index())),
    {
        let ghost s = self.chars@;
        let ghost i0 = self.index();
        let ghost lc0 = self.lc();
        let ghost orig = *self;
        proof {
            lemma_skip_trivia_stops(s, i0);
        }
        match self.skip_whitespace_and_comments() {
            Ok(()) => {},
            Err(e) => {
                proof {
                    lemma_byte_pos_mono(s, 0, s.len() as int);
                }
                return Err(e);
            },
        }
        let ghost j = self.index();
        let ghost mid = *self;
        let start = self.position;
        if self.is_at_end() {
            proof {
                assert(lc_advance(s, j, j, self.lc()) == self.lc());
                lemma_lc_advance_trans(s, i0, j, j, lc0);
            }
            return Ok(TokenInfo { token: Token::Eof, span: start..start });
        }
        let ch = self.peek();
        let res = if ch == '{' {
            self.scan_single(Token::LeftBrace, start)
        } else if ch == '}' {
            self.scan_single(Token::RightBrace, start)
        } else if ch == '[' {
            self.scan_single(Token::LeftBracket, start)
        } else if ch == ']' {
            self.scan_single(Token::RightBracket, start)
        } else if ch == ',' {
            self.scan_single(Token::Comma, start)
        } else if ch == '.' {
            self.scan_single(Token::Dot, start)
        } else if ch == '(' {
            self.scan_single(Token::LeftParen, start)
        } else if ch == ')' {
            self.scan_single(Token::RightParen, start)
        } else if ch == ';' {
            self.scan_single(Token::Semicolon, start)
        } else if ch == '"' {
            self.scan_string('"', false, start, Ghost(self.index()))
        } else if ch == '\'' {
            self.scan_string('\'', false, start, Ghost(self.index()))
        } else if ch == '@' && self.peek_ahead(1) == Some('"') {
            self.advance();
            let ghost m2 = *self;
            let r = self.scan_string('"', true, start, Ghost(self.index() - 1));
            proof {
                lemma_outcome_compose(&mid, &m2, self, r, lex_at(s, j));
            }
            r
        } else if ch == '@' && self.peek_ahead(1) == Some('\'') {
            self.advance();
            let ghost m2 = *self;
            let r = self.scan_string('\'', true, start, Ghost(self.index() - 1));
            proof {
                lemma_outcome_compose(&mid, &m2, self, r, lex_at(s, j));
            }
            r
        } else if ch == '|' && self.peek_ahead(1) == Some('|') && self.peek_ahead(2) == Some('|') {
            self.scan_text_block(start)
        } else if is_ascii_digit(ch) {
            self.scan_number(start)
        } else if is_alphabetic(ch) || ch == '_' {
            self.scan_identifier_or_keyword(start)
        } else if is_operator_char(ch) {
            self.scan_operator(start)
        } else {
            let w = len_utf8(ch);
            proof {
                lemma_byte_pos_step(s, j);
                lemma_byte_pos_mono(s, j + 1, s.len() as int);
            }
            let mut m = String::from_str("Unexpected character '");
            push_char(&mut m, ch);
            push_char(&mut m, '\'');
            Err(self.make_error(start..start + w, m))
        };
        proof {
            assert(self.outcome(&mid, res, lex_at(s, j)));
            lemma_outcome_compose(&orig, &mid, self, res, lex_at(s, j));
        }
        res
    }
}

/// The scanned-token view of token information.
pub open spec fn scanned_token(t: TokenInfo) -> ScannedToken {
    ScannedToken { token: t.token@, from: t.span.start as int, to: t.span.end as int }
}

/// The scanned-error view of an error.
pub open spec fn scanned_error(e: ScanError) -> ScannedError {
    ScannedError { from: e.span.start as int, to: e.span.end as int, message: e.message@ }
}

pub open spec fn tokens_view(v: Seq<TokenInfo>) -> Seq<ScannedToken> {
    v.map_values(|t: TokenInfo| scanned_token(t))
}

pub open spec fn errors_view(v: Seq<ScanError>) -> Seq<ScannedError> {
    v.map_values(|e: ScanError| scanned_error(e))
}

/// Every error names the given source and has no cause.
pub open spec fn errors_from(v: Seq<ScanError>, source: Seq<char>) -> bool {
    forall|i: int| 0 <= i < v.len() ==> (#[trigger] v[i]).source_id@ == source && v[i].cause is None
}

/// The string values among the tokens are one more token's worth longer.
proof fn lemma_token_strings_push(ts: Seq<ScannedToken>, t: ScannedToken)
    ensures
        token_strings(ts.push(t)) == token_strings(ts) + strings_of(t.token),
{
    assert(ts.push(t).drop_last() =~= ts);
    match t.token {
        TokenView::Str(v) => {},
        _ => {
            assert(token_strings(ts) + Seq::<Seq<char>>::empty() =~= token_strings(ts));
        },
    }
}

impl<'a> Scanner<'a> {
    /// Scans the whole input: the tokens up to the end-of-input token, or
    /// every error found (the scanner skips a character after each error).
    pub fn scan_all(&mut self) -> (res: Result<Vec<TokenInfo>, Vec<ScanError>>)
        requires
            old(self).ready(),
        ensures
            ({
                let sc = scan_from(old(self).text(), old(self).index(), old(self).lc());
                let errs = sc.errors + trailing_semicolon(sc.tokens);
                &&& final(self).ready()
                &&& final(self).text() == old(self).text()
                &&& final(self).source() == old(self).source()
                &&& final(self).index() == old(self).text().len()
                &&& final(self).lc() == sc.lc
                &&& final(self).collected() == old(self).collected() + token_strings(sc.tokens)
                &&& if errs.len() == 0 {
                    res matches Ok(v) && tokens_view(v@) == sc.tokens
                } else {
                    res matches Err(v) && errors_view(v@) == errs && errors_from(
                        v@,
                        old(self).source(),
                    )
                }
            }),
    {
        let ghost s = self.chars@;
        let ghost i0 = self.index();
        let ghost lc0 = self.lc();
        let ghost total = scan_from(s, i0, lc0);
        let mut tokens: Vec<TokenInfo> = Vec::new();
        let mut errors: Vec<ScanError> = Vec::new();
        proof {
            assert(tokens_view(tokens@) =~= Seq::<ScannedToken>::empty());
            assert(errors_view(errors@) =~= Seq::<ScannedError>::empty());
            assert(token_strings(Seq::<ScannedToken>::empty()) =~= Seq::<Seq<char>>::empty());
            assert(old(self).collected() + Seq::<Seq<char>>::empty() =~= old(self).collected());
        }
        loop
            invariant_except_break
                ({
                    let rest = scan_from(s, self.index(), self.lc());
                    &&& total.tokens == tokens_view(tokens@) + rest.tokens
                    &&& total.errors == errors_view(errors@) + rest.errors
                    &&& total.lc == rest.lc
                }),
            invariant
                self.ready(),
                self.text() == s,
                self.source() == old(self).source(),
                self.collected() == old(self).collected() + token_strings(tokens_view(tokens@)),
                errors_from(errors@, old(self).source()),
                total == scan_from(s, i0, lc0),
                old(self).text() == s,
            ensures
                total.tokens == tokens_view(tokens@),
                total.errors == errors_view(errors@),
                total.lc == self.lc(),
                self.index() == s.len(),
            decreases s.len() - self.index(),
        {
            let ghost i = self.index();
            let ghost lci = self.lc();
            let ghost tv = tokens_view(tokens@);
            let ghost ev = errors_view(errors@);
            match self.scan_next() {
                Ok(token_info) => {
                    let is_eof = matches!(token_info.token, Token::Eof);
                    let ghost st = scanned_token(token_info);
                    tokens.push(token_info);
                    proof {
                        assert(tokens_view(tokens@) =~= tv.push(st));
                        lemma_token_strings_push(tv, st);
                        assert(tv.push(st) =~= tv + seq![st]);
                    }
                    if is_eof {
                        proof {
                            assert(tv + seq![st] =~= tv + seq![st] + Seq::<ScannedToken>::empty());
                            assert(ev + Seq::<ScannedError>::empty() =~= ev);
                        }
                        break;
                    }
                    proof {
                        let rest = scan_from(s, self.index(), self.lc());
                        assert(tv + (seq![st] + rest.tokens) =~= tv.push(st) + rest.tokens);
                    }
                },
                Err(error) => {
                    let ghost se = scanned_error(error);
                    errors.push(error);
                    let ghost n = self.index();
                    self.advance();
                    proof {
                        assert(errors_view(errors@) =~= ev.push(se));
                        let rest = scan_from(s, self.index(), self.lc());
                        assert(ev + (seq![se] + rest.errors) =~= ev.push(se) + rest.errors);
                        assert forall|m: int| 0 <= m < errors@.len() implies (
                        #[trigger] errors@[m]).source_id@ == old(self).source() && errors@[m].cause is None by {
                            if m < errors@.len() - 1 {
                            }
                        }
                    }
                },
            }
        }
        if tokens.len() >= 2 {
            let last2 = tokens.len() - 2;
            if matches!(tokens[last2].token, Token::Semicolon) {
                let span = tokens[last2].span.start..tokens[last2].span.end;
                let e = self.make_error(
                    span,
                    String::from_str("Trailing semicolon at end of file is not valid in Jsonnet"),
                );
                let ghost ev = errors_view(errors@);
                let ghost se = scanned_error(e);
                errors.push(e);
                proof {
                    assert(errors_view(errors@) =~= ev.push(se));
                    assert(trailing_semicolon(total.tokens) =~= seq![se]);
                    assert(ev + seq![se] =~= ev.push(se));
                    assert forall|m: int| 0 <= m < errors@.len() implies (
                    #[trigger] errors@[m]).source_id@ == old(self).source() && errors@[m].cause is None by {
                        if m < errors@.len() - 1 {
                        }
                    }
                }
            } else {
                proof {
                    assert(trailing_semicolon(total.tokens) =~= Seq::<ScannedError>::empty());
                }
            }
        } else {
            proof {
                assert(trailing_semicolon(total.tokens) =~= Seq::<ScannedError>::empty());
            }
        }
        proof {
            assert(total.errors + Seq::<ScannedError>::empty() =~= total.errors);
        }
        if errors.len() == 0 {
            proof {
                assert(errors_view(errors@).len() == 0);
            }
            Ok(tokens)
        } else {
            Err(errors)
        }
    }
}

/// Appends characters to a character vector.
pub fn extend_chars(v: &mut Vec<char>, chars: &Vec<char>)
    ensures
        final(v)@ == old(v)@ + chars@,
{
    let mut m: usize = 0;
    while m < chars.len()
        invariant
            m <= chars.len(),
            v@ == old(v)@ + chars@.take(m as int),
        decreases chars.len() - m,
    {
        v.push(chars[m]);
        assert(chars@.take(m + 1) =~= chars@.take(m as int).push(chars@[m as int]));
        m += 1;
    }
    assert(chars@.take(chars.len() as int) =~= chars@);
}

/// Reading `a..b` and then `b..c` is reading `a..c`.
pub proof fn lemma_lc_advance_trans(s: Seq<char>, a: int, b: int, c: int, lc: (int, int))
    requires
        a <= b <= c,
    ensures
        lc_advance(s, a, c, lc) == lc_advance(s, b, c, lc_advance(s, a, b, lc)),
    decreases c - b,
{
    if b < c {
        lemma_lc_advance_trans(s, a, b, c - 1, lc);
    }
}

/// Whether an error message says that the input ended too early.
pub open spec fn reports_incomplete_input(message: Seq<char>) -> bool {
    incomplete_text(unicode_lowercase(message))
}

/// Whether lower-case error text speaks of input that ended too early.
pub open spec fn incomplete_text(m: Seq<char>) -> bool {
    ||| contains_seq(m, "unexpected end of input"@)
    ||| contains_seq(m, "unterminated"@)
    ||| contains_seq(m, "starting with eof"@)
    ||| contains_seq(m, "found eof"@)
}

/// The error followed by the errors that caused it, outermost first.
pub open spec fn chain_of(e: ScanError) -> Seq<ScanError>
    decreases e,
{
    match e.cause {
        Some(c) => seq![e] + chain_of(*c),
        None => seq![e],
    }
}

/// The source names of the errors, each once, in the order first seen.
pub open spec fn distinct_sources(errs: Seq<ScanError>) -> Seq<Seq<char>>
    decreases errs.len(),
{
    if errs.len() == 0 {
        seq![]
    } else {
        let prior = distinct_sources(errs.drop_last());
        if prior.contains(errs.last().source_id@) {
            prior
        } else {
            prior.push(errs.last().source_id@)
        }
    }
}

impl ScanError {
    /// Whether the error says that the input ended too early (so more input may complete it).
    pub fn is_incomplete_input(&self) -> (r: bool)
        ensures
            r == reports_incomplete_input(self.message@),
            crate::text::all_ascii(self.message@) ==> r == incomplete_text(
                crate::text::ascii_lowercase(self.message@),
            ),
    {
        let lowered = to_lowercase(self.message.as_str());
        let msg = chars_of(lowered.as_str());
        contains_chars(&msg, &chars_of("unexpected end of input")) || contains_chars(
            &msg,
            &chars_of("unterminated"),
        ) || contains_chars(&msg, &chars_of("starting with eof")) || contains_chars(
            &msg,
            &chars_of("found eof"),
        )
    }

    /// This error and the errors that caused it, outermost first; the last is the root cause.
    pub fn chain(&self) -> (r: Vec<&ScanError>)
        ensures
            r@.map_values(|e: &ScanError| *e) == chain_of(*self),
        decreases self,
    {
        let mut r: Vec<&ScanError> = Vec::new();
        r.push(self);
        match &self.cause {
            Some(c) => {
                let rest = c.chain();
                let mut i: usize = 0;
                while i < rest.len()
                    invariant
                        i <= rest.len(),
                        r@.map_values(|e: &ScanError| *e) == seq![*self] + rest@.map_values(
                            |e: &ScanError| *e,
                        ).take(i as int),
                    decreases rest.len() - i,
                {
                    let ghost prev = r@;
                    r.push(rest[i]);
                    proof {
                        assert(r@ == prev.push(rest@[i as int]));
                        assert(r@.map_values(|e: &ScanError| *e) =~= prev.map_values(
                            |e: &ScanError| *e,
                        ).push(*rest@[i as int]));
                        assert(rest@.map_values(|e: &ScanError| *e).take(i + 1) =~= rest@.map_values(
                            |e: &ScanError| *e,
                        ).take(i as int).push(*rest@[i as int]));
                        assert(r@.map_values(|e: &ScanError| *e) =~= seq![*self] + rest@.map_values(
                            |e: &ScanError| *e,
                        ).take(i + 1));
                    }
                    i += 1;
                }
                proof {
                    assert(rest@.map_values(|e: &ScanError| *e).take(rest.len() as int)
                        =~= rest@.map_values(|e: &ScanError| *e));
                }
            },
            None => {
                proof {
                    assert(r@.map_values(|e: &ScanError| *e) =~= seq![*self]);
                }
            },
        }
        r
    }

    /// The source names that the error and its causes refer to, each once,
    /// in the order first seen: the sources a report of this error needs.
    pub fn source_ids(&self) -> (r: Vec<String>)
        ensures
            r@.map_values(|s: String| s@) == distinct_sources(chain_of(*self)),
    {
        let chain = self.chain();
        let ghost errs = chain@.map_values(|e: &ScanError| *e);
        let mut ids: Vec<String> = Vec::new();
        let mut i: usize = 0;
        while i < chain.len()
            invariant
                i <= chain.len(),
                errs == chain@.map_values(|e: &ScanError| *e),
                ids@.map_values(|s: String| s@) == distinct_sources(errs.take(i as int)),
            decreases chain.len() - i,
        {
            let ghost before = ids@.map_values(|s: String| s@);
            proof {
                assert(errs.take(i + 1).drop_last() =~= errs.take(i as int));
                assert(errs.take(i + 1).last() == *chain@[i as int]);
            }
            let id = &chain[i].source_id;
            let mut seen = false;
            let mut m: usize = 0;
            while m < ids.len()
                invariant
                    m <= ids.len(),
                    before == ids@.map_values(|s: String| s@),
                    seen == (exists|q: int| 0 <= q < m && before[q] == id@),
                decreases ids.len() - m,
            {
                if ids[m] == *id {
                    seen = true;
                }
                proof {
                    if ids@[m as int]@ == id@ {
                        assert(before[m as int] == id@);
                    }
                }
                m += 1;
            }
            proof {
                if seen {
                    let q = choose|q: int| 0 <= q < ids@.len() && before[q] == id@;
                    assert(before.contains(id@));
                } else {
                    assert(!before.contains(id@));
                }
            }
            if !seen {
                ids.push(id.clone());
                proof {
                    assert(ids@.map_values(|s: String| s@) =~= before.push(id@));
                }
            }
            i += 1;
        }
        proof {
            assert(errs.take(chain.len() as int) =~= errs);
        }
        ids
    }

    pub fn new(span: Range<usize>, message: String, source_id: String) -> (res: Self)
        ensures
            error_is(res, span.start as int, span.end as int, message@, source_id@),
    {
        Self { span, message, source_id, cause: None }
    }
}


/// Restoring a saved position brings a scanner back to the very character
/// it was at, with the same line and column, so that scanning again gives
/// the same tokens: byte offsets name characters one-to-one.
pub proof fn law_restore_returns_to_saved(saved: Scanner, restored: Scanner)
    requires
        saved.wf(),
        restored.wf(),
        restored.text() == saved.text(),
        restored.pos() == saved.pos(),
        restored.lc() == saved.lc(),
    ensures
        restored.index() == saved.index(),
        lex_next(restored.text(), restored.index()) == lex_next(saved.text(), saved.index()),
{
    saved.lemma_index_in_text();
    restored.lemma_index_in_text();
    let s = saved.text();
    let i = saved.index();
    let j = restored.index();
    if i < j {
        crate::text::lemma_byte_pos_mono(s, i, j);
    } else if j < i {
        crate::text::lemma_byte_pos_mono(s, j, i);
    }
}

/// A saved position is a character boundary of the text, so it may be restored.
pub proof fn law_saved_position_restorable(sc: Scanner)
    requires
        sc.wf(),
    ensures
        sc.at_boundary(sc.pos()),
{
    sc.lemma_index_in_text();
    assert(byte_pos(sc.text(), sc.index()) == sc.pos());
}

} // verus!
