//! A token cursor over a scanner, with lookahead, checkpoints and error state.

use vstd::prelude::*;
use std::ops::Range;
use crate::lexical::Lexed;
use crate::lexical::TokenView;
use crate::lexical::lex_next;
use crate::scanner::ScanError;
use crate::scanner::Scanner;
use crate::scanner::Token;
use crate::scanner::TokenInfo;
use crate::scanner::error_is;
use crate::text::byte_pos;
use crate::text::push_str;

verus! {

/// A token with the byte offsets of its span.
pub open spec fn tok(t: TokenInfo) -> (TokenView, usize, usize) {
    (t.token@, t.span.start, t.span.end)
}

/// The same for an optional token.
pub open spec fn opt_tok(t: Option<TokenInfo>) -> Option<(TokenView, usize, usize)> {
    match t {
        Some(x) => Some(tok(x)),
        None => None,
    }
}

/// The tokens of a buffer.
pub open spec fn toks(b: Seq<TokenInfo>) -> Seq<(TokenView, usize, usize)> {
    b.map_values(|t: TokenInfo| tok(t))
}

/// Scanning text `s` from character index `i` produces the tokens `ts`, in
/// order and without an error, and stops at index `j`.
pub open spec fn follows(s: Seq<char>, i: int, ts: Seq<(TokenView, usize, usize)>, j: int) -> bool
    decreases ts.len(),
{
    if ts.len() == 0 {
        i == j
    } else {
        match lex_next(s, i) {
            Lexed::Tok { token, start, end, reached } => {
                &&& ts[0].0 == token
                &&& ts[0].1 == byte_pos(s, start)
                &&& ts[0].2 == byte_pos(s, end)
                &&& follows(s, end, ts.drop_first(), j)
            },
            Lexed::Fail { .. } => false,
        }
    }
}

/// One more token at the stop index extends what scanning produced.
pub proof fn lemma_follows_push(
    s: Seq<char>,
    i: int,
    ts: Seq<(TokenView, usize, usize)>,
    j: int,
    t: (TokenView, usize, usize),
    k: int,
)
    requires
        follows(s, i, ts, j),
        follows(s, j, seq![t], k),
    ensures
        follows(s, i, ts.push(t), k),
    decreases ts.len(),
{
    if ts.len() > 0 {
        match lex_next(s, i) {
            Lexed::Tok { token, start, end, reached } => {
                assert(ts.push(t).drop_first() =~= ts.drop_first().push(t));
                lemma_follows_push(s, end, ts.drop_first(), j, t, k);
            },
            Lexed::Fail { .. } => {},
        }
    } else {
        assert(ts.push(t) =~= seq![t]);
    }
}

/// The name of a token as `Debug` writes it.
pub open spec fn token_name(t: TokenView) -> Seq<char> {
    match t {
        TokenView::Identifier(_) => "Identifier"@,
        TokenView::Number(_) => "Number"@,
        TokenView::Str(_) => "String"@,
        TokenView::Assert => "Assert"@,
        TokenView::Else => "Else"@,
        TokenView::Error => "Error"@,
        TokenView::False => "False"@,
        TokenView::For => "For"@,
        TokenView::Function => "Function"@,
        TokenView::If => "If"@,
        TokenView::Import => "Import"@,
        TokenView::ImportStr => "ImportStr"@,
        TokenView::ImportBin => "ImportBin"@,
        TokenView::In => "In"@,
        TokenView::Local => "Local"@,
        TokenView::Null => "Null"@,
        TokenView::TailStrict => "TailStrict"@,
        TokenView::Then => "Then"@,
        TokenView::Self_ => "Self_"@,
        TokenView::Super => "Super"@,
        TokenView::True => "True"@,
        TokenView::LeftBrace => "LeftBrace"@,
        TokenView::RightBrace => "RightBrace"@,
        TokenView::LeftBracket => "LeftBracket"@,
        TokenView::RightBracket => "RightBracket"@,
        TokenView::Comma => "Comma"@,
        TokenView::Dot => "Dot"@,
        TokenView::LeftParen => "LeftParen"@,
        TokenView::RightParen => "RightParen"@,
        TokenView::Semicolon => "Semicolon"@,
        TokenView::Operator(_) => "Operator"@,
        TokenView::Eof => "Eof"@,
    }
}

/// A text as `Debug` writes a string: quoted, with the escapes that
/// `str`'s `Debug` implementation chooses.
pub uninterp spec fn debug_str(s: Seq<char>) -> Seq<char>;

/// Calls `str`'s `Debug` implementation (through `format!("{:?}")`); its
/// text, quotes included, is named, not described.
#[verifier::external_body]
fn debug_string(s: &str) -> (r: String)
    ensures
        r@ == debug_str(s@),
{
    format!("{:?}", s)
}

/// A token as `Debug` writes it; a number shows its source text.
pub open spec fn token_debug(t: TokenView) -> Seq<char> {
    match t {
        TokenView::Identifier(s) => token_name(t) + "("@ + debug_str(s) + ")"@,
        TokenView::Str(s) => token_name(t) + "("@ + debug_str(s) + ")"@,
        TokenView::Operator(s) => token_name(t) + "("@ + debug_str(s) + ")"@,
        TokenView::Number(s) => token_name(t) + "("@ + s + ")"@,
        _ => token_name(t),
    }
}

/// The message of a failed `consume`.
pub open spec fn mismatch_message(message: Seq<char>, expected: TokenView, found: TokenView) -> Seq<
    char,
> {
    message + ": expected "@ + token_debug(expected) + ", found "@ + token_debug(found)
}

/// The message of a `consume` at the end of the tokens.
pub open spec fn end_message(message: Seq<char>) -> Seq<char> {
    message + ": unexpected end of input"@
}

fn token_name_str(t: &Token) -> (r: &'static str)
    ensures
        r@ == token_name(t@),
{
    match t {
        Token::Identifier(_) => "Identifier",
        Token::Number(_) => "Number",
        Token::String(_) => "String",
        Token::Assert => "Assert",
        Token::Else => "Else",
        Token::Error => "Error",
        Token::False => "False",
        Token::For => "For",
        Token::Function => "Function",
        Token::If => "If",
        Token::Import => "Import",
        Token::ImportStr => "ImportStr",
        Token::ImportBin => "ImportBin",
        Token::In => "In",
        Token::Local => "Local",
        Token::Null => "Null",
        Token::TailStrict => "TailStrict",
        Token::Then => "Then",
        Token::Self_ => "Self_",
        Token::Super => "Super",
        Token::True => "True",
        Token::LeftBrace => "LeftBrace",
        Token::RightBrace => "RightBrace",
        Token::LeftBracket => "LeftBracket",
        Token::RightBracket => "RightBracket",
        Token::Comma => "Comma",
        Token::Dot => "Dot",
        Token::LeftParen => "LeftParen",
        Token::RightParen => "RightParen",
        Token::Semicolon => "Semicolon",
        Token::Operator(_) => "Operator",
        Token::Eof => "Eof",
    }
}

pub(crate) fn push_token_debug(out: &mut String, t: &Token)
    ensures
        final(out)@ == old(out)@ + token_debug(t@),
{
    let name = token_name_str(t);
    let ghost start = out@;
    push_str(out, name);
    match t {
        Token::Identifier(s) | Token::String(s) | Token::Operator(s) => {
            push_str(out, "(");
            let quoted = debug_string(s.as_str());
            push_str(out, quoted.as_str());
            push_str(out, ")");
            proof {
                assert(out@ =~= start + token_debug(t@));
            }
        },
        Token::Number(s) => {
            push_str(out, "(");
            push_str(out, s.as_str());
            push_str(out, ")");
            proof {
                assert(out@ =~= start + token_debug(t@));
            }
        },
        _ => {},
    }
}

/// The state of a parser, without its scanner.
pub struct ParserView {
    pub previous: Option<(TokenView, usize, usize)>,
    pub current: Option<(TokenView, usize, usize)>,
    pub buffer: Seq<(TokenView, usize, usize)>,
    pub position: nat,
    pub had_error: bool,
    pub panic_mode: bool,
}

/// A token cursor over a scanner. Tokens read ahead wait in a buffer, from
/// which `advance` takes them before it scans again; checkpoints save the
/// cursor so that the parser can back up.
pub struct Parser<'a> {
    scanner: &'a mut Scanner<'a>,
    previous_token: Option<TokenInfo>,
    current_token: Option<TokenInfo>,
    pub token_buffer: Vec<TokenInfo>,
    pub buffer_position: usize,
    pub had_error: bool,
    pub panic_mode: bool,
}

/// A saved cursor.
#[derive(Clone)]
pub struct ParserCheckpoint {
    previous_token: Option<TokenInfo>,
    current_token: Option<TokenInfo>,
    buffer_position: usize,
    had_error: bool,
    panic_mode: bool,
}

impl ParserCheckpoint {
    /// The cursor that the checkpoint saved.
    pub closed spec fn saved(&self) -> (
        Option<(TokenView, usize, usize)>,
        Option<(TokenView, usize, usize)>,
        nat,
        bool,
        bool,
    ) {
        (
            opt_tok(self.previous_token),
            opt_tok(self.current_token),
            self.buffer_position as nat,
            self.had_error,
            self.panic_mode,
        )
    }
}

fn copy_opt(t: &Option<TokenInfo>) -> (r: Option<TokenInfo>)
    ensures
        r == *t,
{
    match t {
        Some(x) => Some(x.clone()),
        None => None,
    }
}

/// What `advance` does: the current token becomes the previous one; the next
/// comes from the buffer when it has one at the buffer position, else from
/// the scanner. A scan error sets the error flag and clears the current
/// token; it is returned only when the panic flag was clear, and sets it.
pub open spec fn advanced(
    pre: ParserView,
    sc0: Scanner,
    post: ParserView,
    sc1: Scanner,
    res: Result<(), ScanError>,
) -> bool {
    &&& post.previous == pre.current
    &&& post.buffer == pre.buffer
    &&& if pre.position < pre.buffer.len() {
        &&& res is Ok
        &&& post.current == Some(pre.buffer[pre.position as int])
        &&& post.position == pre.position + 1
        &&& sc1 == sc0
        &&& post.had_error == pre.had_error
        &&& post.panic_mode == pre.panic_mode
    } else {
        &&& post.position == pre.position
        &&& match lex_next(sc0.text(), sc0.index()) {
            Lexed::Tok { token, start, end, reached } => {
                &&& res is Ok
                &&& post.current == Some(
                    (
                        token,
                        byte_pos(sc0.text(), start) as usize,
                        byte_pos(sc0.text(), end) as usize,
                    ),
                )
                &&& sc1.index() == end
                &&& post.had_error == pre.had_error
                &&& post.panic_mode == pre.panic_mode
            },
            Lexed::Fail { from, to, message, next, reached } => {
                &&& post.current is None
                &&& sc1.index() == next
                &&& post.had_error
                &&& post.panic_mode
                &&& pre.panic_mode ==> res is Ok
                &&& !pre.panic_mode ==> (res matches Err(e) && error_is(
                    e,
                    from,
                    to,
                    message,
                    sc0.source(),
                ))
            },
        }
    }
}

impl<'a> View for Parser<'a> {
    type V = ParserView;

    closed spec fn view(&self) -> ParserView {
        ParserView {
            previous: opt_tok(self.previous_token),
            current: opt_tok(self.current_token),
            buffer: toks(self.token_buffer@),
            position: self.buffer_position as nat,
            had_error: self.had_error,
            panic_mode: self.panic_mode,
        }
    }
}

impl<'a> Parser<'a> {
    /// The scanner that the parser reads from.
    pub closed spec fn scan(&self) -> Scanner<'a> {
        *self.scanner
    }

    /// The scanner can go on and the buffer position is within the buffer.
    pub open spec fn wf(&self) -> bool {
        &&& self.scan().ready()
        &&& self@.position <= self@.buffer.len()
    }

    /// A parser over a scanner, before its first token.
    pub fn new(scanner: &'a mut Scanner<'a>) -> (p: Self)
        ensures
            p.scan() == *old(scanner),
            p@.previous is None,
            p@.current is None,
            p@.buffer.len() == 0,
            p@.position == 0,
            !p@.had_error,
            !p@.panic_mode,
    {
        let p = Parser {
            scanner,
            previous_token: None,
            current_token: None,
            token_buffer: Vec::new(),
            buffer_position: 0,
            had_error: false,
            panic_mode: false,
        };
        proof {
            assert(toks(p.token_buffer@) =~= Seq::<(TokenView, usize, usize)>::empty());
        }
        p
    }

    /// Moves to the next token: the previous current token becomes the
    /// previous one; the next comes from the buffer, else from the scanner.
    /// A scan error sets the error flag; the first one since the panic flag
    /// was clear is returned and sets that flag, later ones are swallowed.
    pub fn advance(&mut self) -> (res: Result<(), ScanError>)
        requires
            old(self).wf(),
        ensures
            final(self).wf(),
            final(self).scan().text() == old(self).scan().text(),
            final(self).scan().source() == old(self).scan().source(),
            advanced(old(self)@, old(self).scan(), final(self)@, final(self).scan(), res),
    {
        self.previous_token = self.current_token.take();
        if self.buffer_position < self.token_buffer.len() {
            self.current_token = Some(self.token_buffer[self.buffer_position].clone());
            self.buffer_position = self.buffer_position + 1;
            return Ok(());
        }
        let ghost sc0 = *self.scanner;
        match self.scanner.scan_next() {
            Ok(token_info) => {
                self.current_token = Some(token_info);
                Ok(())
            },
            Err(scan_error) => {
                self.had_error = true;
                if !self.panic_mode {
                    self.panic_mode = true;
                    Err(scan_error)
                } else {
                    Ok(())
                }
            },
        }
    }

    /// Takes the current token when it is the expected one and moves on;
    /// otherwise reports what was expected and what was found.
    pub fn consume(&mut self, expected: Token, message: &str) -> (res: Result<TokenInfo, ScanError>)
        requires
            old(self).wf(),
        ensures
            final(self).wf(),
            final(self).scan().text() == old(self).scan().text(),
            final(self).scan().source() == old(self).scan().source(),
            match old(self)@.current {
                None => {
                    &&& res matches Err(e) && error_is(
                        e,
                        0,
                        0,
                        end_message(message@),
                        old(self).scan().source(),
                    )
                    &&& final(self)@ == (ParserView { had_error: true, ..old(self)@ })
                    &&& final(self).scan() == old(self).scan()
                },
                Some(c) => if c.0 != expected@ {
                    &&& res matches Err(e) && error_is(
                        e,
                        c.1 as int,
                        c.2 as int,
                        mismatch_message(message@, expected@, c.0),
                        old(self).scan().source(),
                    )
                    &&& final(self)@ == (ParserView { had_error: true, ..old(self)@ })
                    &&& final(self).scan() == old(self).scan()
                } else {
                    let taken = ParserView { current: None, ..old(self)@ };
                    match res {
                        Ok(t) => tok(t) == c && advanced(
                            taken,
                            old(self).scan(),
                            final(self)@,
                            final(self).scan(),
                            Ok(()),
                        ),
                        Err(e) => advanced(
                            taken,
                            old(self).scan(),
                            final(self)@,
                            final(self).scan(),
                            Err(e),
                        ),
                    }
                },
            },
    {
        match &self.current_token {
            None => {
                let mut text = String::from_str(message);
                push_str(&mut text, ": unexpected end of input");
                let error = ScanError::new(
                    Range { start: 0, end: 0 },
                    text,
                    String::from_str(self.scanner.source_name()),
                );
                self.had_error = true;
                return Err(error);
            },
            Some(current) => {
                if !same_token(&current.token, &expected) {
                    let mut text = String::from_str(message);
                    push_str(&mut text, ": expected ");
                    push_token_debug(&mut text, &expected);
                    push_str(&mut text, ", found ");
                    push_token_debug(&mut text, &current.token);
                    let error = ScanError::new(
                        Range { start: current.span.start, end: current.span.end },
                        text,
                        String::from_str(self.scanner.source_name()),
                    );
                    self.had_error = true;
                    return Err(error);
                }
            },
        }
        let token = self.current_token.take().unwrap();
        match self.advance() {
            Ok(()) => Ok(token),
            Err(e) => Err(e),
        }
    }

    /// The current token, if any.
    pub fn current_token(&self) -> (r: Option<&TokenInfo>)
        ensures
            match r {
                Some(t) => self@.current == Some(tok(*t)),
                None => self@.current is None,
            },
    {
        match &self.current_token {
            Some(t) => Some(t),
            None => None,
        }
    }

    /// The token before the current one, if any.
    pub fn previous_token(&self) -> (r: Option<&TokenInfo>)
        ensures
            match r {
                Some(t) => self@.previous == Some(tok(*t)),
                None => self@.previous is None,
            },
    {
        match &self.previous_token {
            Some(t) => Some(t),
            None => None,
        }
    }

    /// Whether an error was seen.
    pub fn had_error(&self) -> (r: bool)
        ensures
            r == self@.had_error,
    {
        self.had_error
    }

    /// Whether the parser is recovering from an error.
    pub fn panic_mode(&self) -> (r: bool)
        ensures
            r == self@.panic_mode,
    {
        self.panic_mode
    }

    /// Leaves recovery mode.
    pub fn reset_panic(&mut self)
        ensures
            final(self)@ == (ParserView { panic_mode: false, ..old(self)@ }),
            final(self).scan() == old(self).scan(),
    {
        self.panic_mode = false;
    }

    /// Whether the current token is the end of the input.
    pub fn is_at_end(&self) -> (r: bool)
        ensures
            r == (self@.current matches Some(c) && c.0 is Eof),
    {
        match &self.current_token {
            Some(t) => match t.token {
                Token::Eof => true,
                _ => false,
            },
            None => false,
        }
    }

    /// The name of the source being parsed.
    pub fn source_id(&self) -> (r: &str)
        ensures
            r@ == self.scan().source(),
    {
        self.scanner.source_name()
    }

    /// The token `n` places after the current one (`n == 0` gives the
    /// current token), scanning ahead into the buffer as needed; `None` when
    /// the input ends first, or when a scan error comes while recovering.
    pub fn peek_ahead(&mut self, n: usize) -> (res: Result<Option<&TokenInfo>, ScanError>)
        requires
            old(self).wf(),
        ensures
            final(self).wf(),
            final(self).scan().text() == old(self).scan().text(),
            final(self).scan().source() == old(self).scan().source(),
            final(self)@.previous == old(self)@.previous,
            final(self)@.current == old(self)@.current,
            final(self)@.position == old(self)@.position,
            n == 0 ==> final(self)@ == old(self)@ && final(self).scan() == old(self).scan() && match res {
                Ok(Some(t)) => old(self)@.current == Some(tok(*t)),
                Ok(None) => old(self)@.current is None,
                Err(_) => false,
            },
            n > 0 ==> ({
                let b0 = old(self)@.buffer;
                let b1 = final(self)@.buffer;
                let idx = old(self)@.position + n - 1;
                &&& b1.len() >= b0.len()
                &&& b1.take(b0.len() as int) == b0
                &&& exists|j: int|
                    follows(old(self).scan().text(), old(self).scan().index(), b1.skip(b0.len() as int), j)
                    && (j == final(self).scan().index() || (final(self)@.had_error && lex_next(
                    old(self).scan().text(),
                    j,
                ) is Fail))
                &&& match res {
                    Ok(Some(t)) => idx < b1.len() && b1[idx] == tok(*t),
                    Ok(None) => idx >= b1.len() && ((b1.len() > 0 && b1.last().0 is Eof) || (
                    final(self)@.had_error && old(self)@.panic_mode)),
                    Err(e) => !old(self)@.panic_mode && final(self)@.panic_mode
                        && final(self)@.had_error,
                }
                &&& res is Ok ==> final(self)@.panic_mode == old(self)@.panic_mode
            }),
    {
        if n == 0 {
            return Ok(self.current_token.as_ref());
        }
        let ghost sc0 = *self.scanner;
        let ghost b0 = self.token_buffer@;
        let pos = self.buffer_position;
        // Index in the buffer of the wanted token; past the largest index
        // when it does not fit.
        let fits = n - 1 <= usize::MAX - pos;
        let index: usize = if fits {
            pos + (n - 1)
        } else {
            usize::MAX
        };
        let len = self.token_buffer.len();
        if len > 0 {
            let last_is_eof = match self.token_buffer[len - 1].token {
                Token::Eof => true,
                _ => false,
            };
            if last_is_eof && index >= len {
                proof {
                    assert(toks(self.token_buffer@)[len - 1].0 is Eof);
                    assert(toks(self.token_buffer@).skip(b0.len() as int) =~= Seq::<
                        (TokenView, usize, usize),
                    >::empty());
                    assert(toks(self.token_buffer@).take(b0.len() as int) =~= toks(b0));
                    assert(follows(
                        sc0.text(),
                        sc0.index(),
                        toks(self.token_buffer@).skip(b0.len() as int),
                        sc0.index(),
                    ));
                }
                return Ok(None);
            }
        }
        proof {
            assert(toks(self.token_buffer@).skip(b0.len() as int) =~= Seq::<
                (TokenView, usize, usize),
            >::empty());
        }
        while self.token_buffer.len() <= index
            invariant
                sc0 == old(self).scan(),
                n > 0,
                pos == old(self).buffer_position,
                b0 == old(self).token_buffer@,
                index <= pos + n - 1,
                self.scan().ready(),
                self.scan().text() == sc0.text(),
                self.scan().source() == sc0.source(),
                self.buffer_position == pos,
                pos <= b0.len(),
                self.token_buffer@.len() >= b0.len(),
                self.token_buffer@.take(b0.len() as int) == b0,
                follows(
                    sc0.text(),
                    sc0.index(),
                    toks(self.token_buffer@).skip(b0.len() as int),
                    self.scan().index(),
                ),
                self.previous_token == old(self).previous_token,
                self.current_token == old(self).current_token,
                self.had_error == old(self).had_error,
                self.panic_mode == old(self).panic_mode,
            ensures
                self.token_buffer@.len() > index || (self.token_buffer@.len() > 0
                    && self.token_buffer@.last().token@ is Eof),
            decreases self.scan().text().len() - self.scan().index(),
        {
            let ghost sc1 = *self.scanner;
            let ghost tb = self.token_buffer@;
            match self.scanner.scan_next() {
                Ok(token_info) => {
                    let is_eof = match token_info.token {
                        Token::Eof => true,
                        _ => false,
                    };
                    let ghost t = tok(token_info);
                    self.token_buffer.push(token_info);
                    proof {
                        let s = sc0.text();
                        match lex_next(s, sc1.index()) {
                            Lexed::Tok { token, start, end, reached } => {
                                assert(seq![t].drop_first() =~= Seq::<
                                    (TokenView, usize, usize),
                                >::empty());
                                assert(follows(s, end, Seq::empty(), self.scan().index()));
                                assert(follows(s, sc1.index(), seq![t], self.scan().index()));
                                assert(!is_eof ==> self.scan().index() > sc1.index());
                                self.scanner.lemma_index_in_text();
                            },
                            Lexed::Fail { .. } => {
                                assert(false);
                            },
                        }
                        lemma_follows_push(
                            s,
                            sc0.index(),
                            toks(tb).skip(b0.len() as int),
                            sc1.index(),
                            t,
                            self.scan().index(),
                        );
                        assert(toks(self.token_buffer@).skip(b0.len() as int) =~= toks(tb).skip(
                            b0.len() as int,
                        ).push(t));
                        assert(self.token_buffer@.take(b0.len() as int) =~= tb.take(
                            b0.len() as int,
                        ));
                    }
                    if is_eof {
                        break;
                    }
                },
                Err(scan_error) => {
                    proof {
                        match lex_next(sc0.text(), sc1.index()) {
                            Lexed::Tok { .. } => {
                                assert(false);
                            },
                            Lexed::Fail { .. } => {},
                        }
                        assert(self.token_buffer@ == tb);
                    }
                    self.had_error = true;
                    if !self.panic_mode {
                        self.panic_mode = true;
                        proof {
                            assert(toks(self.token_buffer@).take(b0.len() as int) =~= toks(b0));
                        }
                        return Err(scan_error);
                    }
                    proof {
                        assert(toks(self.token_buffer@).take(b0.len() as int) =~= toks(b0));
                        assert(follows(
                            sc0.text(),
                            sc0.index(),
                            toks(self.token_buffer@).skip(b0.len() as int),
                            sc1.index(),
                        ));
                        assert(lex_next(sc0.text(), sc1.index()) is Fail);
                        let b1 = self@.buffer;
                        let bb0 = old(self)@.buffer;
                        assert(b1.len() >= bb0.len());
                        assert(b1.take(bb0.len() as int) == bb0);
                        assert(old(self)@.position + n - 1 >= b1.len());
                        assert(self@.had_error && old(self)@.panic_mode);
                        assert(exists|j: int|
                            follows(old(self).scan().text(), old(self).scan().index(), b1.skip(bb0.len() as int), j)
                            && (j == self.scan().index() || (self@.had_error && lex_next(
                            old(self).scan().text(),
                            j,
                        ) is Fail)));
                    }
                    return Ok(None);
                },
            }
        }
        proof {
            assert(toks(self.token_buffer@).take(b0.len() as int) =~= toks(b0));
        }
        if index < self.token_buffer.len() {
            Ok(Some(&self.token_buffer[index]))
        } else {
            Ok(None)
        }
    }

    /// Saves the cursor for backtracking.
    pub fn save_checkpoint(&self) -> (c: ParserCheckpoint)
        ensures
            c.saved() == (
                self@.previous,
                self@.current,
                self@.position,
                self@.had_error,
                self@.panic_mode,
            ),
    {
        ParserCheckpoint {
            previous_token: copy_opt(&self.previous_token),
            current_token: copy_opt(&self.current_token),
            buffer_position: self.buffer_position,
            had_error: self.had_error,
            panic_mode: self.panic_mode,
        }
    }

    /// Returns to a saved cursor; the buffer of scanned tokens is kept.
    pub fn restore_checkpoint(&mut self, checkpoint: ParserCheckpoint)
        ensures
            final(self)@.previous == checkpoint.saved().0,
            final(self)@.current == checkpoint.saved().1,
            final(self)@.position == checkpoint.saved().2,
            final(self)@.had_error == checkpoint.saved().3,
            final(self)@.panic_mode == checkpoint.saved().4,
            final(self)@.buffer == old(self)@.buffer,
            final(self).scan() == old(self).scan(),
    {
        self.previous_token = checkpoint.previous_token;
        self.current_token = checkpoint.current_token;
        self.buffer_position = checkpoint.buffer_position;
        self.had_error = checkpoint.had_error;
        self.panic_mode = checkpoint.panic_mode;
    }

    /// Drops the buffered tokens once backtracking is no longer needed.
    pub fn commit(&mut self)
        ensures
            final(self)@ == (ParserView {
                buffer: Seq::empty(),
                position: 0,
                ..old(self)@
            }),
            final(self).scan() == old(self).scan(),
    {
        self.token_buffer.clear();
        self.buffer_position = 0;
        proof {
            assert(toks(self.token_buffer@) =~= Seq::<(TokenView, usize, usize)>::empty());
        }
    }
}

/// Restoring a checkpoint brings back the cursor and error state from when
/// it was saved; with the same buffered tokens, the parser is as it was.
pub proof fn law_checkpoint_round_trip(
    before: ParserView,
    cp: ParserCheckpoint,
    after: ParserView,
)
    requires
        cp.saved() == (
            before.previous,
            before.current,
            before.position,
            before.had_error,
            before.panic_mode,
        ),
        after.previous == cp.saved().0,
        after.current == cp.saved().1,
        after.position == cp.saved().2,
        after.had_error == cp.saved().3,
        after.panic_mode == cp.saved().4,
    ensures
        after.previous == before.previous,
        after.current == before.current,
        after.position == before.position,
        after.had_error == before.had_error,
        after.panic_mode == before.panic_mode,
        after.buffer == before.buffer ==> after == before,
{
}

/// Whether two tokens are the same kind with the same text.
pub fn same_token(a: &Token, b: &Token) -> (r: bool)
    ensures
        r == (a@ == b@),
{
    match (a, b) {
        (Token::Identifier(x), Token::Identifier(y)) => *x == *y,
        (Token::Number(x), Token::Number(y)) => *x == *y,
        (Token::String(x), Token::String(y)) => *x == *y,
        (Token::Operator(x), Token::Operator(y)) => *x == *y,
        (Token::Assert, Token::Assert) => true,
        (Token::Else, Token::Else) => true,
        (Token::Error, Token::Error) => true,
        (Token::False, Token::False) => true,
        (Token::For, Token::For) => true,
        (Token::Function, Token::Function) => true,
        (Token::If, Token::If) => true,
        (Token::Import, Token::Import) => true,
        (Token::ImportStr, Token::ImportStr) => true,
        (Token::ImportBin, Token::ImportBin) => true,
        (Token::In, Token::In) => true,
        (Token::Local, Token::Local) => true,
        (Token::Null, Token::Null) => true,
        (Token::TailStrict, Token::TailStrict) => true,
        (Token::Then, Token::Then) => true,
        (Token::Self_, Token::Self_) => true,
        (Token::Super, Token::Super) => true,
        (Token::True, Token::True) => true,
        (Token::LeftBrace, Token::LeftBrace) => true,
        (Token::RightBrace, Token::RightBrace) => true,
        (Token::LeftBracket, Token::LeftBracket) => true,
        (Token::RightBracket, Token::RightBracket) => true,
        (Token::Comma, Token::Comma) => true,
        (Token::Dot, Token::Dot) => true,
        (Token::LeftParen, Token::LeftParen) => true,
        (Token::RightParen, Token::RightParen) => true,
        (Token::Semicolon, Token::Semicolon) => true,
        (Token::Eof, Token::Eof) => true,
        _ => false,
    }
}

} // verus!
