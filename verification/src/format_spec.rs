//! The grammar of `std.format` strings, and the values a format draws on.
//!
//! A format string is text with `%` directives:
//! `%` [`(` key `)`] flags* [width | `*`] [`.` [precision | `*`]] [`h`|`l`|`L`]* conversion,
//! where the flags are `-`, `+`, `0`, space and `#`, and `%%` is a literal
//! percent sign.

use vstd::prelude::*;
use std::ops::Range;
use crate::chunk::Value;
use crate::native::decimal_value;
use crate::native::is_digit_char;
use crate::native::nat_decimal;
use crate::native::u64_decimal;
use crate::scanner::ScanError;
use crate::scanner::error_is;
use crate::text::append_chars;
use crate::text::chars_of;
use crate::text::push_str;
use crate::text::string_of;

verus! {

// ---------------------------------------------------------------- the values

/// The values of a format: the elements of an array, the fields of an
/// object by name, or a single value.
pub enum FormatVals {
    Array(Vec<Value>),
    Object(Vec<(String, Value)>),
    Single(Value),
}

/// The error text for a positional index past the values.
pub open spec fn positional_error(vals: FormatVals, idx: usize) -> Seq<char> {
    match vals {
        FormatVals::Array(v) => "std.format: index "@ + nat_decimal(idx as nat)
            + " out of range (array has "@ + nat_decimal(v@.len()) + " elements)"@,
        FormatVals::Single(_) => "std.format: index "@ + nat_decimal(idx as nat)
            + " out of range (single value)"@,
        FormatVals::Object(_) => "std.format: positional index used with object values"@,
    }
}

/// The first field with a name, among the fields of an object.
pub open spec fn field_named(pairs: Seq<(String, Value)>, key: Seq<char>) -> Option<Value>
    decreases pairs.len(),
{
    if pairs.len() == 0 {
        None
    } else if pairs[0].0@ == key {
        Some(pairs[0].1)
    } else {
        field_named(pairs.drop_first(), key)
    }
}

fn push_usize(out: &mut String, v: usize)
    ensures
        final(out)@ == old(out)@ + nat_decimal(v as nat),
{
    let digits = u64_decimal(v as u64);
    append_chars(out, &digits);
}

impl FormatVals {
    /// The value at a position: an element of an array, or the single value
    /// at position zero.
    pub fn get_positional(&self, idx: usize, span: &Range<usize>, source_id: &str) -> (r: Result<
        Value,
        ScanError,
    >)
        ensures
            match *self {
                FormatVals::Array(v) => idx < v@.len() ==> r == Ok::<Value, ScanError>(v@[idx as int]),
                FormatVals::Single(v) => idx == 0 ==> r == Ok::<Value, ScanError>(v),
                FormatVals::Object(_) => true,
            },
            (match *self {
                FormatVals::Array(v) => idx >= v@.len(),
                FormatVals::Single(_) => idx != 0,
                FormatVals::Object(_) => true,
            }) ==> (r matches Err(e) && error_is(
                e,
                span.start as int,
                span.end as int,
                positional_error(*self, idx),
                source_id@,
            )),
    {
        let mut msg = String::new();
        match self {
            FormatVals::Array(v) => {
                if idx < v.len() {
                    return Ok(v[idx]);
                }
                push_str(&mut msg, "std.format: index ");
                push_usize(&mut msg, idx);
                push_str(&mut msg, " out of range (array has ");
                push_usize(&mut msg, v.len());
                push_str(&mut msg, " elements)");
            },
            FormatVals::Single(v) => {
                if idx == 0 {
                    return Ok(*v);
                }
                push_str(&mut msg, "std.format: index ");
                push_usize(&mut msg, idx);
                push_str(&mut msg, " out of range (single value)");
            },
            FormatVals::Object(_) => {
                push_str(&mut msg, "std.format: positional index used with object values");
            },
        }
        proof {
            assert(msg@ =~= positional_error(*self, idx));
        }
        Err(ScanError::new(span.start..span.end, msg, String::from_str(source_id)))
    }

    /// The value of the first field with a name, for object values.
    pub fn get_named(&self, key: &str, span: &Range<usize>, source_id: &str) -> (r: Result<
        Value,
        ScanError,
    >)
        ensures
            match *self {
                FormatVals::Object(pairs) => match field_named(pairs@, key@) {
                    Some(v) => r == Ok::<Value, ScanError>(v),
                    None => r matches Err(e) && error_is(
                        e,
                        span.start as int,
                        span.end as int,
                        "std.format: key '"@ + key@ + "' not found in object"@,
                        source_id@,
                    ),
                },
                _ => r matches Err(e) && error_is(
                    e,
                    span.start as int,
                    span.end as int,
                    "std.format: named arg used but values is not an object"@,
                    source_id@,
                ),
            },
    {
        match self {
            FormatVals::Object(pairs) => {
                let want = String::from_str(key);
                let mut i: usize = 0;
                proof {
                    assert(pairs@.skip(0) =~= pairs@);
                }
                while i < pairs.len()
                    invariant
                        i <= pairs@.len(),
                        want@ == key@,
                        *self == FormatVals::Object(*pairs),
                        field_named(pairs@, key@) == field_named(pairs@.skip(i as int), key@),
                    decreases pairs.len() - i,
                {
                    proof {
                        assert(pairs@.skip(i as int)[0] == pairs@[i as int]);
                        assert(pairs@.skip(i as int).drop_first() =~= pairs@.skip(i + 1));
                    }
                    let same = pairs[i].0 == want;
                    if same {
                        proof {
                            assert(pairs@[i as int].0@ == key@);
                            assert(field_named(pairs@, key@) == Some(pairs@[i as int].1));
                        }
                        let found = pairs[i].1;
                        assert(found == pairs@[i as int].1);
                        return Ok(found);
                    }
                    i += 1;
                }
                proof {
                    assert(pairs@.skip(i as int) =~= Seq::<(String, Value)>::empty());
                }
                let mut msg = String::new();
                push_str(&mut msg, "std.format: key '");
                push_str(&mut msg, key);
                push_str(&mut msg, "' not found in object");
                Err(ScanError::new(span.start..span.end, msg, String::from_str(source_id)))
            },
            _ => Err(
                ScanError::new(
                    span.start..span.end,
                    String::from_str("std.format: named arg used but values is not an object"),
                    String::from_str(source_id),
                ),
            ),
        }
    }
}

// ---------------------------------------------------------------- the grammar

/// A count in a directive: written out, or `*` to take it from the values.
#[derive(Debug, Clone, Copy, PartialEq, Eq)]
pub enum Count {
    Fixed(usize),
    FromArg,
}

/// One `%` directive.
#[derive(Debug, Clone, PartialEq)]
pub struct Directive {
    pub key: Option<String>,
    pub flags: String,
    pub width: Count,
    pub precision: Option<Count>,
    pub conv: char,
}

/// A piece of a format string: a character to copy, or a directive.
#[derive(Debug, Clone, PartialEq)]
pub enum Piece {
    Char(char),
    Directive(Directive),
}

/// Why a format string is malformed.
#[derive(Debug, Clone, Copy, PartialEq, Eq, Structural)]
pub enum FormatError {
    TrailingPercent,
    UnclosedKey,
    Incomplete,
}

/// The value of a count.
pub enum CountView {
    Fixed(nat),
    FromArg,
}

/// The value of a directive.
pub struct DirectiveView {
    pub key: Option<Seq<char>>,
    pub flags: Seq<char>,
    pub width: CountView,
    pub precision: Option<CountView>,
    pub conv: char,
}

/// The value of a piece.
pub enum PieceView {
    Char(char),
    Directive(DirectiveView),
}

pub open spec fn count_view(c: Count) -> CountView {
    match c {
        Count::Fixed(n) => CountView::Fixed(n as nat),
        Count::FromArg => CountView::FromArg,
    }
}

pub open spec fn directive_view(d: Directive) -> DirectiveView {
    DirectiveView {
        key: match d.key {
            Some(k) => Some(k@),
            None => None,
        },
        flags: d.flags@,
        width: count_view(d.width),
        precision: match d.precision {
            Some(c) => Some(count_view(c)),
            None => None,
        },
        conv: d.conv,
    }
}

pub open spec fn piece_view(p: Piece) -> PieceView {
    match p {
        Piece::Char(c) => PieceView::Char(c),
        Piece::Directive(d) => PieceView::Directive(directive_view(d)),
    }
}

pub open spec fn pieces_view(ps: Seq<Piece>) -> Seq<PieceView> {
    ps.map_values(|p: Piece| piece_view(p))
}

/// The classes of characters that a directive runs over.
#[derive(Clone, Copy)]
pub enum CharClass {
    Flag,
    Digit,
    Length,
    NotClose,
}

/// Whether a character belongs to a class: the flags `-+0 #`, the ASCII
/// digits, the length modifiers `hlL`, or anything but `)`.
pub open spec fn in_class(c: char, cls: CharClass) -> bool {
    match cls {
        CharClass::Flag => c == '-' || c == '+' || c == '0' || c == ' ' || c == '#',
        CharClass::Digit => is_digit_char(c),
        CharClass::Length => c == 'h' || c == 'l' || c == 'L',
        CharClass::NotClose => c != ')',
    }
}

/// The first index at or after `i` whose character is outside the class,
/// or the end.
pub open spec fn run_end(cs: Seq<char>, i: int, cls: CharClass) -> int
    decreases cs.len() - i,
{
    if 0 <= i < cs.len() && in_class(cs[i], cls) {
        run_end(cs, i + 1, cls)
    } else {
        i
    }
}

/// Where the key of a directive whose body starts at `k` ends (`k` itself
/// without a key), or nothing when its `(` is never closed.
pub open spec fn after_key(cs: Seq<char>, k: int) -> Option<int> {
    if 0 <= k < cs.len() && cs[k] == '(' {
        let e = run_end(cs, k + 1, CharClass::NotClose);
        if e >= cs.len() {
            None
        } else {
            Some(e + 1)
        }
    } else {
        Some(k)
    }
}

/// The width of a directive from index `f` on, and where it ends.
pub open spec fn width_at(cs: Seq<char>, f: int) -> (CountView, int) {
    if 0 <= f < cs.len() && cs[f] == '*' {
        (CountView::FromArg, f + 1)
    } else {
        let w = run_end(cs, f, CharClass::Digit);
        (CountView::Fixed(decimal_value(cs.subrange(f, w)) as nat), w)
    }
}

/// The precision of a directive from index `k` on, if it has one, and
/// where it ends.
pub open spec fn precision_at(cs: Seq<char>, k: int) -> (Option<CountView>, int) {
    if 0 <= k < cs.len() && cs[k] == '.' {
        if k + 1 < cs.len() && cs[k + 1] == '*' {
            (Some(CountView::FromArg), k + 2)
        } else {
            let d = run_end(cs, k + 1, CharClass::Digit);
            (Some(CountView::Fixed(decimal_value(cs.subrange(k + 1, d)) as nat)), d)
        }
    } else {
        (None, k)
    }
}

/// The directive whose body (after `%`) starts at `k`, and where it ends.
pub open spec fn directive_at(cs: Seq<char>, k: int) -> Result<(DirectiveView, int), FormatError> {
    match after_key(cs, k) {
        None => Err(FormatError::UnclosedKey),
        Some(j) => {
            let f = run_end(cs, j, CharClass::Flag);
            let (width, w) = width_at(cs, f);
            let (precision, m) = precision_at(cs, w);
            let n = run_end(cs, m, CharClass::Length);
            if m >= cs.len() || n >= cs.len() {
                Err(FormatError::Incomplete)
            } else {
                Ok(
                    (
                        DirectiveView {
                            key: if j == k {
                                None
                            } else {
                                Some(cs.subrange(k + 1, j - 1))
                            },
                            flags: cs.subrange(j, f),
                            width,
                            precision,
                            conv: cs[n],
                        },
                        n + 1,
                    ),
                )
            }
        },
    }
}

/// A count fits a `usize`.
pub open spec fn count_fits(c: CountView) -> bool {
    match c {
        CountView::Fixed(n) => n <= usize::MAX,
        CountView::FromArg => true,
    }
}

/// The width and precision that a directive spells out fit a `usize`.
pub open spec fn directive_fits(cs: Seq<char>, k: int) -> bool {
    match after_key(cs, k) {
        None => true,
        Some(j) => {
            let f = run_end(cs, j, CharClass::Flag);
            let (width, w) = width_at(cs, f);
            let (precision, m) = precision_at(cs, w);
            &&& count_fits(width)
            &&& match precision {
                Some(p) => count_fits(p),
                None => true,
            }
        },
    }
}

/// A run ends at or after its start, and within the text.
pub proof fn lemma_run_end(cs: Seq<char>, i: int, cls: CharClass)
    requires
        0 <= i <= cs.len(),
    ensures
        i <= run_end(cs, i, cls) <= cs.len(),
        forall|m: int| i <= m < run_end(cs, i, cls) ==> in_class(#[trigger] cs[m], cls),
        run_end(cs, i, cls) < cs.len() ==> !in_class(cs[run_end(cs, i, cls)], cls),
    decreases cs.len() - i,
{
    if i < cs.len() && in_class(cs[i], cls) {
        lemma_run_end(cs, i + 1, cls);
    }
}

/// A directive that parses ends after its body starts.
pub proof fn lemma_directive_ends_later(cs: Seq<char>, k: int)
    requires
        0 <= k <= cs.len(),
    ensures
        directive_at(cs, k) matches Ok((_, next)) ==> k < next <= cs.len(),
{
    if 0 <= k < cs.len() && cs[k] == '(' {
        lemma_run_end(cs, k + 1, CharClass::NotClose);
    }
    match after_key(cs, k) {
        None => {},
        Some(j) => {
            lemma_run_end(cs, j, CharClass::Flag);
            let f = run_end(cs, j, CharClass::Flag);
            lemma_run_end(cs, f, CharClass::Digit);
            let w = width_at(cs, f).1;
            if 0 <= w < cs.len() && cs[w] == '.' {
                lemma_run_end(cs, w + 1, CharClass::Digit);
            }
            let m = precision_at(cs, w).1;
            if m <= cs.len() {
                lemma_run_end(cs, m, CharClass::Length);
            }
        },
    }
}

/// The pieces of a format string from index `i` on, up to the first
/// malformed directive, and that error if there is one.
pub open spec fn pieces_from(cs: Seq<char>, i: int) -> (Seq<PieceView>, Option<FormatError>)
    decreases cs.len() - i,
{
    if i < 0 || i >= cs.len() {
        (Seq::empty(), None)
    } else if cs[i] != '%' {
        let (rest, err) = pieces_from(cs, i + 1);
        (seq![PieceView::Char(cs[i])] + rest, err)
    } else if i + 1 >= cs.len() {
        (Seq::empty(), Some(FormatError::TrailingPercent))
    } else if cs[i + 1] == '%' {
        let (rest, err) = pieces_from(cs, i + 2);
        (seq![PieceView::Char('%')] + rest, err)
    } else {
        match directive_at(cs, i + 1) {
            Err(e) => (Seq::empty(), Some(e)),
            Ok((d, next)) => {
                proof {
                    lemma_directive_ends_later(cs, i + 1);
                }
                let (rest, err) = pieces_from(cs, next);
                (seq![PieceView::Directive(d)] + rest, err)
            },
        }
    }
}

/// The counts that the directives from index `i` on spell out, up to and
/// including the first malformed one, fit a `usize`.
pub open spec fn counts_fit_from(cs: Seq<char>, i: int) -> bool
    decreases cs.len() - i,
{
    if i < 0 || i >= cs.len() {
        true
    } else if cs[i] != '%' {
        counts_fit_from(cs, i + 1)
    } else if i + 1 >= cs.len() {
        true
    } else if cs[i + 1] == '%' {
        counts_fit_from(cs, i + 2)
    } else {
        &&& directive_fits(cs, i + 1)
        &&& match directive_at(cs, i + 1) {
            Err(_) => true,
            Ok((_, next)) => {
                proof {
                    lemma_directive_ends_later(cs, i + 1);
                }
                counts_fit_from(cs, next)
            },
        }
    }
}

fn class_has(c: char, cls: CharClass) -> (r: bool)
    ensures
        r == in_class(c, cls),
{
    match cls {
        CharClass::Flag => c == '-' || c == '+' || c == '0' || c == ' ' || c == '#',
        CharClass::Digit => '0' <= c && c <= '9',
        CharClass::Length => c == 'h' || c == 'l' || c == 'L',
        CharClass::NotClose => c != ')',
    }
}

fn run_end_of(cs: &Vec<char>, i: usize, cls: CharClass) -> (r: usize)
    requires
        i <= cs@.len(),
    ensures
        r == run_end(cs@, i as int, cls),
{
    let mut j = i;
    while j < cs.len() && class_has(cs[j], cls)
        invariant
            i <= j <= cs@.len(),
            run_end(cs@, i as int, cls) == run_end(cs@, j as int, cls),
        decreases cs.len() - j,
    {
        j += 1;
    }
    j
}

/// The value of a prefix of digits is at most that of all of them.
proof fn lemma_decimal_value_prefix(ds: Seq<char>, k: int)
    requires
        0 <= k <= ds.len(),
        forall|m: int| 0 <= m < ds.len() ==> is_digit_char(#[trigger] ds[m]),
    ensures
        0 <= decimal_value(ds.take(k)) <= decimal_value(ds),
    decreases ds.len() - k,
{
    crate::native::lemma_decimal_value_nonneg(ds.take(k));
    if k < ds.len() {
        lemma_decimal_value_prefix(ds, k + 1);
        let t = ds.take(k + 1);
        assert(t.drop_last() =~= ds.take(k));
        assert(is_digit_char(t.last()));
    } else {
        assert(ds.take(k) =~= ds);
    }
}

/// The value of the digits from `from` up to `to`.
fn digits_value(cs: &Vec<char>, from: usize, to: usize) -> (r: usize)
    requires
        from <= to <= cs@.len(),
        forall|m: int| from <= m < to ==> is_digit_char(#[trigger] cs@[m]),
        decimal_value(cs@.subrange(from as int, to as int)) <= usize::MAX,
    ensures
        r == decimal_value(cs@.subrange(from as int, to as int)),
{
    let ghost ds = cs@.subrange(from as int, to as int);
    assert forall|m: int| 0 <= m < ds.len() implies is_digit_char(#[trigger] ds[m]) by {
        assert(ds[m] == cs@[from + m]);
    }
    let mut v: usize = 0;
    let mut k = from;
    proof {
        assert(ds.take(0) =~= Seq::<char>::empty());
    }
    while k < to
        invariant
            from <= k <= to <= cs@.len(),
            ds == cs@.subrange(from as int, to as int),
            forall|m: int| 0 <= m < ds.len() ==> is_digit_char(#[trigger] ds[m]),
            decimal_value(ds) <= usize::MAX,
            v == decimal_value(ds.take(k - from)),
        decreases to - k,
    {
        proof {
            lemma_decimal_value_prefix(ds, k - from + 1);
            let t = ds.take(k - from + 1);
            assert(t.drop_last() =~= ds.take(k - from));
            assert(t.last() == cs@[k as int]);
        }
        let d = (cs[k] as u32 - 48) as usize;
        v = v * 10 + d;
        k += 1;
    }
    proof {
        assert(ds.take(to - from) =~= ds);
    }
    v
}

/// The directive whose body starts at `k`, and where it ends.
fn parse_directive(cs: &Vec<char>, k: usize) -> (r: Result<(Directive, usize), FormatError>)
    requires
        k <= cs@.len(),
        directive_fits(cs@, k as int),
    ensures
        match directive_at(cs@, k as int) {
            Ok((d, next)) => r matches Ok((e, n)) && directive_view(e) == d && n == next,
            Err(e) => r == Err::<(Directive, usize), FormatError>(e),
        },
{
    let len = cs.len();
    let mut j = k;
    let mut key: Option<String> = None;
    if k < len && cs[k] == '(' {
        proof {
            lemma_run_end(cs@, k + 1, CharClass::NotClose);
        }
        let e = run_end_of(cs, k + 1, CharClass::NotClose);
        if e >= len {
            return Err(FormatError::UnclosedKey);
        }
        let part = crate::native::slice_chars(cs, k + 1, e);
        key = Some(string_of(&part));
        j = e + 1;
    }
    proof {
        lemma_run_end(cs@, j as int, CharClass::Flag);
    }
    let f = run_end_of(cs, j, CharClass::Flag);
    let flags = string_of(&crate::native::slice_chars(cs, j, f));
    let width: Count;
    let w: usize;
    if f < len && cs[f] == '*' {
        width = Count::FromArg;
        w = f + 1;
    } else {
        proof {
            lemma_run_end(cs@, f as int, CharClass::Digit);
        }
        w = run_end_of(cs, f, CharClass::Digit);
        width = Count::Fixed(digits_value(cs, f, w));
    }
    let precision: Option<Count>;
    let m: usize;
    if w < len && cs[w] == '.' {
        if w + 1 < len && cs[w + 1] == '*' {
            precision = Some(Count::FromArg);
            m = w + 2;
        } else {
            proof {
                lemma_run_end(cs@, w + 1, CharClass::Digit);
            }
            m = run_end_of(cs, w + 1, CharClass::Digit);
            precision = Some(Count::Fixed(digits_value(cs, w + 1, m)));
        }
    } else {
        precision = None;
        m = w;
    }
    if m >= len {
        return Err(FormatError::Incomplete);
    }
    proof {
        lemma_run_end(cs@, m as int, CharClass::Length);
    }
    let n = run_end_of(cs, m, CharClass::Length);
    if n >= len {
        return Err(FormatError::Incomplete);
    }
    let d = Directive { key, flags, width, precision, conv: cs[n] };
    proof {
        assert(directive_view(d) == directive_at(cs@, k as int)->Ok_0.0);
    }
    Ok((d, n + 1))
}

proof fn lemma_pieces_view_push(ps: Seq<Piece>, p: Piece)
    ensures
        pieces_view(ps.push(p)) == pieces_view(ps).push(piece_view(p)),
{
    assert(pieces_view(ps.push(p)) =~= pieces_view(ps).push(piece_view(p)));
}

/// The pieces so far followed by those from `i` on are all the pieces.
spec fn parsed_so_far(cs: Seq<char>, i: int, ps: Seq<Piece>) -> bool {
    let (rest, err) = pieces_from(cs, i);
    pieces_from(cs, 0) == (pieces_view(ps) + rest, err)
}

/// Taking one more piece and moving on keeps the pieces so far right.
proof fn lemma_parsed_step(cs: Seq<char>, i: int, next: int, ps: Seq<Piece>, p: Piece)
    requires
        parsed_so_far(cs, i, ps),
        pieces_from(cs, i) == ({
            let (rest, err) = pieces_from(cs, next);
            (seq![piece_view(p)] + rest, err)
        }),
    ensures
        parsed_so_far(cs, next, ps.push(p)),
{
    lemma_pieces_view_push(ps, p);
    let rest = pieces_from(cs, next).0;
    assert(pieces_view(ps) + (seq![piece_view(p)] + rest) =~= pieces_view(ps.push(p)) + rest);
}

/// Splits a format string into characters to copy and directives, up to
/// the first malformed directive; gives that error too, if there is one.
pub fn parse_format(fmt: &str) -> (r: (Vec<Piece>, Option<FormatError>))
    requires
        counts_fit_from(fmt@, 0),
    ensures
        (pieces_view(r.0@), r.1) == pieces_from(fmt@, 0),
{
    let cs = chars_of(fmt);
    let mut pieces: Vec<Piece> = Vec::new();
    let mut i: usize = 0;
    loop
        invariant
            i <= cs@.len(),
            cs@ == fmt@,
            counts_fit_from(cs@, i as int),
            parsed_so_far(cs@, i as int, pieces@),
        decreases cs@.len() - i,
    {
        if i >= cs.len() {
            proof {
                assert(pieces_view(pieces@) + Seq::<PieceView>::empty() =~= pieces_view(pieces@));
            }
            return (pieces, None);
        }
        let c = cs[i];
        if c != '%' {
            proof {
                lemma_parsed_step(cs@, i as int, i + 1, pieces@, Piece::Char(c));
            }
            pieces.push(Piece::Char(c));
            i += 1;
        } else if i + 1 >= cs.len() {
            proof {
                assert(pieces_view(pieces@) + Seq::<PieceView>::empty() =~= pieces_view(pieces@));
            }
            return (pieces, Some(FormatError::TrailingPercent));
        } else if cs[i + 1] == '%' {
            proof {
                lemma_parsed_step(cs@, i as int, i + 2, pieces@, Piece::Char('%'));
            }
            pieces.push(Piece::Char('%'));
            i += 2;
        } else {
            proof {
                lemma_directive_ends_later(cs@, i + 1);
            }
            match parse_directive(&cs, i + 1) {
                Err(e) => {
                    proof {
                        assert(pieces_view(pieces@) + Seq::<PieceView>::empty() =~= pieces_view(
                            pieces@,
                        ));
                    }
                    return (pieces, Some(e));
                },
                Ok((d, next)) => {
                    proof {
                        lemma_parsed_step(cs@, i as int, next as int, pieces@, Piece::Directive(d));
                    }
                    pieces.push(Piece::Directive(d));
                    i = next;
                },
            }
        }
    }
}

/// The error text of a malformed format string.
pub open spec fn format_error_text(e: FormatError) -> Seq<char> {
    match e {
        FormatError::TrailingPercent => "std.format: trailing '%' in format string"@,
        FormatError::UnclosedKey => "std.format: unclosed '(' in format specifier"@,
        FormatError::Incomplete => "std.format: incomplete format specifier"@,
    }
}

impl FormatError {
    /// The text that reports the error.
    pub fn message(&self) -> (r: String)
        ensures
            r@ == format_error_text(*self),
    {
        match self {
            FormatError::TrailingPercent => String::from_str(
                "std.format: trailing '%' in format string",
            ),
            FormatError::UnclosedKey => String::from_str(
                "std.format: unclosed '(' in format specifier",
            ),
            FormatError::Incomplete => String::from_str("std.format: incomplete format specifier"),
        }
    }
}

/// Each character of a text as a piece to copy.
pub open spec fn text_pieces(s: Seq<char>) -> Seq<PieceView>
    decreases s.len(),
{
    if s.len() == 0 {
        Seq::empty()
    } else {
        seq![PieceView::Char(s[0])] + text_pieces(s.drop_first())
    }
}

/// Text without `%` is copied character by character.
proof fn lemma_plain_text_from(cs: Seq<char>, i: int)
    requires
        0 <= i <= cs.len(),
        !cs.contains('%'),
    ensures
        pieces_from(cs, i) == (text_pieces(cs.skip(i)), None::<FormatError>),
    decreases cs.len() - i,
{
    if i < cs.len() {
        assert(cs[i] != '%') by {
            if cs[i] == '%' {
                assert(cs.contains('%'));
            }
        }
        lemma_plain_text_from(cs, i + 1);
        assert(cs.skip(i).drop_first() =~= cs.skip(i + 1));
        assert(cs.skip(i)[0] == cs[i]);
    } else {
        assert(cs.skip(i) =~= Seq::<char>::empty());
    }
}

/// A format string without `%` is all text: each character is copied and
/// nothing is malformed.
pub proof fn law_plain_text_is_copied(cs: Seq<char>)
    requires
        !cs.contains('%'),
    ensures
        pieces_from(cs, 0) == (text_pieces(cs), None::<FormatError>),
{
    lemma_plain_text_from(cs, 0);
    assert(cs.skip(0) =~= cs);
}

} // verus!
