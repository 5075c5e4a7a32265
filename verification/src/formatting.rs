//! `std.format`: a format string applied to values. The steps that take
//! floating-point arithmetic (a number's text, `%f`, `%e`, `%g`, and the
//! conversion of a number to a whole one) are handed in by the caller as
//! two functions; everything else is done and proved here.

use vstd::prelude::*;
use crate::heap_natives::ascii_uppercase;
use std::ops::Range;
use slotmap::DefaultKey;
use crate::chunk::Value;
use crate::memory_manager::{HeapEntry, MemoryManager};
use crate::text::push_str;
use crate::text::{char_from_u32, chars_of, string_of};
use crate::scanner::{error_is, ScanError};
use crate::format_spec::{
    counts_fit_from, directive_view, field_named, format_error_text, parse_format, pieces_from,
    pieces_view, positional_error, Count, CountView, Directive, DirectiveView, FormatVals, Piece,
    PieceView,
};
use crate::int_format::{
    is_capital, law_lower_hex_has_no_capitals, law_upper_hex_is_upper_cased_hex,
    law_radix_digits_read_back, law_decimal_digits_read_back, magnitude, read_digits,
    decimal_formatted, format_decimal, format_radix, format_text, radix_formatted, text_formatted,
};
use crate::native::{apply_numeric_format, apply_width_align, numeric_formatted, width_aligned};
use vstd::utf8::is_scalar;

verus! {

/// A floating-point step of formatting, for the caller to compute.
pub enum FloatQuery {
    /// The text of a number, as `%s` shows it.
    Display(u64),
    /// `%f` before padding: the number with this many decimals, and a point
    /// even without decimals when the flag is set.
    Fixed(u64, usize, bool),
    /// `%e` (or `%E` when the first flag is set) before padding, with this
    /// many decimals; the second flag is `#`.
    Exponent(u64, usize, bool, bool),
    /// `%g` (or `%G`) before padding, with this many significant digits.
    General(u64, usize, bool, bool),
}

/// Whether `tr` reads what the text function gives.
pub open spec fn texts_read<R: Fn(FloatQuery) -> String>(render: R, tr: spec_fn(FloatQuery) -> Seq<char>) -> bool {
    forall|q: FloatQuery, s: String| call_ensures(render, (q,), s) ==> s@ == tr(q)
}

/// Whether `ti` reads what the whole-number function gives.
pub open spec fn ints_read<I: Fn(u64) -> i64>(to_int: I, ti: spec_fn(u64) -> i64) -> bool {
    forall|b: u64, v: i64| call_ensures(to_int, (b,), v) ==> v == ti(b)
}

// ---------------------------------------------------------------- values as text

/// The text `%s` shows for a value, following arrays and objects at most
/// `fuel` levels deep.
pub open spec fn value_text(
    h: Map<DefaultKey, HeapEntry>,
    v: Value,
    fuel: nat,
    tr: spec_fn(FloatQuery) -> Seq<char>,
) -> Seq<char>
    decreases fuel, 1nat,
{
    match v {
        Value::String(k) => if h.dom().contains(k) && h[k] is String {
            h[k]->String_0.content@
        } else {
            "<value>"@
        },
        Value::Null => "null"@,
        Value::Boolean(b) => if b {
            "true"@
        } else {
            "false"@
        },
        Value::Number(b) => tr(FloatQuery::Display(b)),
        Value::Array(k) => if fuel > 0 && h.dom().contains(k) && h[k] is Array {
            let es = h[k]->Array_0.elements@;
            if es.len() == 0 {
                "[ ]"@
            } else {
                "["@ + reprs_joined(h, es, (fuel - 1) as nat, tr, es.len()) + "]"@
            }
        } else {
            "<value>"@
        },
        Value::Object(k) => if fuel > 0 && h.dom().contains(k) && h[k] is Object {
            let ps = h[k]->Object_0.properties@;
            if ps.len() == 0 {
                "{ }"@
            } else {
                "{ "@ + fields_joined(h, ps, (fuel - 1) as nat, tr, ps.len()) + " }"@
            }
        } else {
            "<value>"@
        },
        Value::Function(_) => "<function>"@,
        Value::Closure(_) => "<function>"@,
        Value::Import(_) => "<value>"@,
    }
}

/// The text of a value inside an array or object: strings in quotes.
pub open spec fn value_repr(
    h: Map<DefaultKey, HeapEntry>,
    v: Value,
    fuel: nat,
    tr: spec_fn(FloatQuery) -> Seq<char>,
) -> Seq<char>
    decreases fuel, 2nat,
{
    match v {
        Value::String(_) => "\""@ + value_text(h, v, fuel, tr) + "\""@,
        _ => value_text(h, v, fuel, tr),
    }
}

/// The texts of the first `n` elements, separated by `, `.
pub open spec fn reprs_joined(
    h: Map<DefaultKey, HeapEntry>,
    es: Seq<Value>,
    fuel: nat,
    tr: spec_fn(FloatQuery) -> Seq<char>,
    n: nat,
) -> Seq<char>
    decreases fuel, 3 + n,
{
    if n == 0 || n > es.len() {
        Seq::empty()
    } else if n == 1 {
        value_repr(h, es[0], fuel, tr)
    } else {
        reprs_joined(h, es, fuel, tr, (n - 1) as nat) + ", "@ + value_repr(h, es[n - 1], fuel, tr)
    }
}

/// The first `n` fields as `key: text`, separated by `, `.
pub open spec fn fields_joined(
    h: Map<DefaultKey, HeapEntry>,
    ps: Seq<(DefaultKey, Value)>,
    fuel: nat,
    tr: spec_fn(FloatQuery) -> Seq<char>,
    n: nat,
) -> Seq<char>
    decreases fuel, 3 + n,
{
    if n == 0 || n > ps.len() {
        Seq::empty()
    } else {
        let f = value_text(h, Value::String(ps[n - 1].0), fuel, tr) + ": "@ + value_repr(
            h,
            ps[n - 1].1,
            fuel,
            tr,
        );
        if n == 1 {
            f
        } else {
            fields_joined(h, ps, fuel, tr, (n - 1) as nat) + ", "@ + f
        }
    }
}

fn push_lit(out: &mut String, s: &str)
    ensures
        final(out)@ == old(out)@ + s@,
{
    push_str(out, s);
}

/// The text `%s` shows for a value.
fn value_text_of<R: Fn(FloatQuery) -> String>(
    mm: &MemoryManager,
    v: Value,
    fuel: usize,
    render: &R,
) -> (r: String)
    requires
        forall|q: FloatQuery| call_requires(*render, (q,)),
    ensures
        forall|tr: spec_fn(FloatQuery) -> Seq<char>|
            texts_read(*render, tr) ==> r@ == value_text(mm.heap_view(), v, fuel as nat, tr),
    decreases fuel, 1nat,
{
    let mut out = String::new();
    proof {
        reveal_strlit("<value>");
        reveal_strlit("null");
        reveal_strlit("true");
        reveal_strlit("false");
        reveal_strlit("[ ]");
        reveal_strlit("{ }");
        reveal_strlit("<function>");
    }
    match v {
        Value::String(k) => match mm.get_entry(k) {
            Some(HeapEntry::String(s)) => push_str(&mut out, s.content.as_str()),
            _ => push_lit(&mut out, "<value>"),
        },
        Value::Null => push_lit(&mut out, "null"),
        Value::Boolean(b) => {
            if b {
                push_lit(&mut out, "true");
            } else {
                push_lit(&mut out, "false");
            }
        },
        Value::Number(b) => {
            let t = render(FloatQuery::Display(b));
            push_str(&mut out, t.as_str());
        },
        Value::Array(k) => {
            if fuel == 0 {
                push_lit(&mut out, "<value>");
            } else {
                match mm.get_entry(k) {
                    Some(HeapEntry::Array(a)) => {
                        if a.elements.len() == 0 {
                            push_lit(&mut out, "[ ]");
                        } else {
                            push_lit(&mut out, "[");
                            let inner = reprs_of(mm, &a.elements, fuel - 1, render);
                            push_str(&mut out, inner.as_str());
                            push_lit(&mut out, "]");
                        }
                    },
                    _ => push_lit(&mut out, "<value>"),
                }
            }
        },
        Value::Object(k) => {
            if fuel == 0 {
                push_lit(&mut out, "<value>");
            } else {
                match mm.get_entry(k) {
                    Some(HeapEntry::Object(o)) => {
                        if o.properties.len() == 0 {
                            push_lit(&mut out, "{ }");
                        } else {
                            push_lit(&mut out, "{ ");
                            let inner = fields_of(mm, &o.properties, fuel - 1, render);
                            push_str(&mut out, inner.as_str());
                            push_lit(&mut out, " }");
                        }
                    },
                    _ => push_lit(&mut out, "<value>"),
                }
            }
        },
        Value::Function(_) => push_lit(&mut out, "<function>"),
        Value::Closure(_) => push_lit(&mut out, "<function>"),
        Value::Import(_) => push_lit(&mut out, "<value>"),
    }
    out
}

/// The text of a value inside an array or object.
fn value_repr_of<R: Fn(FloatQuery) -> String>(
    mm: &MemoryManager,
    v: Value,
    fuel: usize,
    render: &R,
) -> (r: String)
    requires
        forall|q: FloatQuery| call_requires(*render, (q,)),
    ensures
        forall|tr: spec_fn(FloatQuery) -> Seq<char>|
            texts_read(*render, tr) ==> r@ == value_repr(mm.heap_view(), v, fuel as nat, tr),
    decreases fuel, 2nat,
{
    let t = value_text_of(mm, v, fuel, render);
    match v {
        Value::String(_) => {
            let mut out = String::new();
            proof {
                reveal_strlit("\"");
            }
            push_lit(&mut out, "\"");
            push_str(&mut out, t.as_str());
            push_lit(&mut out, "\"");
            out
        },
        _ => t,
    }
}

/// The texts of the elements, separated by `, `.
fn reprs_of<R: Fn(FloatQuery) -> String>(
    mm: &MemoryManager,
    es: &Vec<Value>,
    fuel: usize,
    render: &R,
) -> (r: String)
    requires
        forall|q: FloatQuery| call_requires(*render, (q,)),
    ensures
        forall|tr: spec_fn(FloatQuery) -> Seq<char>|
            texts_read(*render, tr) ==> r@ == reprs_joined(
                mm.heap_view(),
                es@,
                fuel as nat,
                tr,
                es@.len(),
            ),
    decreases fuel, 3 + es@.len(),
{
    let mut out = String::new();
    let mut i: usize = 0;
    proof {
        reveal_strlit(", ");
    }
    while i < es.len()
        invariant
            i <= es@.len(),
            forall|q: FloatQuery| call_requires(*render, (q,)),
            forall|tr: spec_fn(FloatQuery) -> Seq<char>|
                texts_read(*render, tr) ==> out@ == reprs_joined(
                    mm.heap_view(),
                    es@,
                    fuel as nat,
                    tr,
                    i as nat,
                ),
        decreases es@.len() - i,
    {
        if i > 0 {
            push_lit(&mut out, ", ");
        }
        let t = value_repr_of(mm, es[i], fuel, render);
        push_str(&mut out, t.as_str());
        i += 1;
    }
    out
}

/// The fields as `key: text`, separated by `, `.
fn fields_of<R: Fn(FloatQuery) -> String>(
    mm: &MemoryManager,
    ps: &Vec<(DefaultKey, Value)>,
    fuel: usize,
    render: &R,
) -> (r: String)
    requires
        forall|q: FloatQuery| call_requires(*render, (q,)),
    ensures
        forall|tr: spec_fn(FloatQuery) -> Seq<char>|
            texts_read(*render, tr) ==> r@ == fields_joined(
                mm.heap_view(),
                ps@,
                fuel as nat,
                tr,
                ps@.len(),
            ),
    decreases fuel, 3 + ps@.len(),
{
    let mut out = String::new();
    let mut i: usize = 0;
    proof {
        reveal_strlit(", ");
        reveal_strlit(": ");
    }
    while i < ps.len()
        invariant
            i <= ps@.len(),
            forall|q: FloatQuery| call_requires(*render, (q,)),
            forall|tr: spec_fn(FloatQuery) -> Seq<char>|
                texts_read(*render, tr) ==> out@ == fields_joined(
                    mm.heap_view(),
                    ps@,
                    fuel as nat,
                    tr,
                    i as nat,
                ),
        decreases ps@.len() - i,
    {
        if i > 0 {
            push_lit(&mut out, ", ");
        }
        let k = value_text_of(mm, Value::String(ps[i].0), fuel, render);
        push_str(&mut out, k.as_str());
        push_lit(&mut out, ": ");
        let t = value_repr_of(mm, ps[i].1, fuel, render);
        push_str(&mut out, t.as_str());
        i += 1;
    }
    out
}

// ---------------------------------------------------------------- one directive

/// How deep `%s` follows arrays and objects.
pub open spec fn text_fuel() -> nat {
    usize::MAX as nat
}

/// The value at a position of the values, if there is one.
pub open spec fn positional(vals: FormatVals, idx: nat) -> Option<Value> {
    match vals {
        FormatVals::Array(v) => if idx < v@.len() {
            Some(v@[idx as int])
        } else {
            None
        },
        FormatVals::Single(v) => if idx == 0 {
            Some(v)
        } else {
            None
        },
        FormatVals::Object(_) => None,
    }
}

/// The value a directive's key names, or the error text.
pub open spec fn named(vals: FormatVals, key: Seq<char>) -> Result<Value, Seq<char>> {
    match vals {
        FormatVals::Object(pairs) => match field_named(pairs@, key) {
            Some(v) => Ok(v),
            None => Err("std.format: key '"@ + key + "' not found in object"@),
        },
        _ => Err("std.format: named arg used but values is not an object"@),
    }
}

/// A whole number as a `u32`, saturating.
pub open spec fn saturated_u32(v: i64) -> u32 {
    if v < 0 {
        0
    } else if v > u32::MAX {
        u32::MAX
    } else {
        v as u32
    }
}

/// A whole number as a `usize`, saturating.
pub open spec fn saturated_usize(v: i64) -> usize {
    if v < 0 {
        0
    } else if v > usize::MAX {
        usize::MAX
    } else {
        v as usize
    }
}

/// The character of a code point, or U+FFFD where there is none.
pub open spec fn char_or_replacement(cp: u32) -> char {
    if is_scalar(cp) {
        cp as char
    } else {
        '\u{FFFD}'
    }
}

/// The error text for a conversion that needs a number.
pub open spec fn needs_number(conv: char) -> Seq<char> {
    "std.format: %"@.push(conv) + " requires a number"@
}

/// The text of one conversion of a value, or the error text.
pub open spec fn converted(
    conv: char,
    v: Value,
    flags: Seq<char>,
    width: nat,
    precision: Option<usize>,
    h: Map<DefaultKey, HeapEntry>,
    ti: spec_fn(u64) -> i64,
    tr: spec_fn(FloatQuery) -> Seq<char>,
) -> Result<Seq<char>, Seq<char>> {
    let p6: usize = match precision {
        Some(p) => p,
        None => 6,
    };
    let alt = flags.contains('#');
    let zero = flags.contains('0');
    if conv == 's' {
        Ok(text_formatted(value_text(h, v, text_fuel(), tr), flags, width, precision))
    } else if conv == 'd' || conv == 'i' || conv == 'u' {
        match v {
            Value::Number(b) => Ok(decimal_formatted(ti(b), flags, width, precision)),
            _ => Err(needs_number(conv)),
        }
    } else if conv == 'o' || conv == 'x' || conv == 'X' {
        match v {
            Value::Number(b) => Ok(radix_formatted(ti(b), conv, flags, width, precision)),
            _ => Err(needs_number(conv)),
        }
    } else if conv == 'f' {
        match v {
            Value::Number(b) => Ok(
                numeric_formatted(tr(FloatQuery::Fixed(b, p6, alt)), flags, width, zero),
            ),
            _ => Err("std.format: %f requires a number"@),
        }
    } else if conv == 'e' || conv == 'E' {
        match v {
            Value::Number(b) => Ok(
                numeric_formatted(
                    tr(FloatQuery::Exponent(b, p6, conv == 'E', alt)),
                    flags,
                    width,
                    zero,
                ),
            ),
            _ => Err(needs_number(conv)),
        }
    } else if conv == 'g' || conv == 'G' {
        match v {
            Value::Number(b) => Ok(
                numeric_formatted(
                    tr(FloatQuery::General(b, if p6 == 0 { 1 } else { p6 }, conv == 'G', alt)),
                    flags,
                    width,
                    zero,
                ),
            ),
            _ => Err(needs_number(conv)),
        }
    } else if conv == 'c' {
        let cp: Result<u32, Seq<char>> = match v {
            Value::Number(b) => Ok(saturated_u32(ti(b))),
            Value::String(k) => {
                let t = value_text(h, v, text_fuel(), tr);
                if h.dom().contains(k) && h[k] is String && t.len() > 0 {
                    Ok(t[0] as u32)
                } else {
                    Err("std.format: %c requires non-empty string or number"@)
                }
            },
            _ => Err("std.format: %c requires a number or string"@),
        };
        match cp {
            Ok(cp) => Ok(width_aligned(seq![char_or_replacement(cp)], flags, width)),
            Err(m) => Err(m),
        }
    } else {
        Err("std.format: unknown format specifier '%"@.push(conv) + "'"@)
    }
}

/// `%o`, `%x` and `%X` of a number, with no flags, width or precision,
/// write a `-` for a negative number and then digits that, read in base 8
/// for `%o` and 16 for the others, give the number's magnitude.
pub proof fn law_radix_directives_show_the_number(
    conv: char,
    b: u64,
    h: Map<DefaultKey, HeapEntry>,
    ti: spec_fn(u64) -> i64,
    tr: spec_fn(FloatQuery) -> Seq<char>,
)
    requires
        conv == 'o' || conv == 'x' || conv == 'X',
    ensures
        converted(conv, Value::Number(b), Seq::empty(), 0, None, h, ti, tr) matches Ok(t) && if ti(b)
            < 0 {
            t.len() > 0 && t[0] == '-' && read_digits(
                t.drop_first(),
                if conv == 'o' {
                    8
                } else {
                    16
                },
            ) == magnitude(ti(b))
        } else {
            read_digits(
                t,
                if conv == 'o' {
                    8
                } else {
                    16
                },
            ) == magnitude(ti(b))
        },
{
    law_radix_digits_read_back(ti(b), conv, None);
    let d = crate::int_format::radix_digits(ti(b), conv, None);
    let sign = crate::int_format::radix_sign(ti(b), Seq::empty());
    let t = radix_formatted(ti(b), conv, Seq::empty(), 0, None);
    assert(!Seq::<char>::empty().contains('#'));
    assert(!Seq::<char>::empty().contains('+'));
    assert(!Seq::<char>::empty().contains(' '));
    assert(t == sign + d);
    if ti(b) < 0 {
        assert((sign + d).drop_first() =~= d);
    } else {
        assert(sign + d =~= d);
    }
}

/// `%d`, `%i` and `%u` of a number, with no flags, width or precision,
/// write a `-` for a negative number and then digits that, read in base
/// 10, give the number's magnitude.
pub proof fn law_decimal_directives_show_the_number(
    conv: char,
    b: u64,
    h: Map<DefaultKey, HeapEntry>,
    ti: spec_fn(u64) -> i64,
    tr: spec_fn(FloatQuery) -> Seq<char>,
)
    requires
        conv == 'd' || conv == 'i' || conv == 'u',
    ensures
        converted(conv, Value::Number(b), Seq::empty(), 0, None, h, ti, tr) matches Ok(t) && if ti(b)
            < 0 {
            t.len() > 0 && t[0] == '-' && read_digits(t.drop_first(), 10) == magnitude(ti(b))
        } else {
            read_digits(t, 10) == magnitude(ti(b))
        },
{
    let v = ti(b);
    law_decimal_digits_read_back(magnitude(v));
    let body = crate::int_format::decimal_body(v, None);
    let digits = crate::int_format::digits_in(magnitude(v), 10, false);
    assert(!Seq::<char>::empty().contains('+'));
    assert(!Seq::<char>::empty().contains(' '));
    let (sign, num) = crate::native::sign_split(body, Seq::empty());
    if body.len() > 0 && body[0] == '-' {
        assert(sign + num =~= body);
    } else {
        assert(sign + num =~= body);
    }
    if v < 0 {
        assert(body =~= seq!['-'] + digits);
        assert(body.drop_first() =~= digits);
    } else {
        assert(body =~= digits);
    }
}

/// `%X` of a number writes what `%x` writes of it with the letters in
/// upper case, and `%x` writes no capital letter.
pub proof fn law_hex_directives_differ_only_in_case(
    b: u64,
    flags: Seq<char>,
    width: nat,
    precision: Option<usize>,
    h: Map<DefaultKey, HeapEntry>,
    ti: spec_fn(u64) -> i64,
    tr: spec_fn(FloatQuery) -> Seq<char>,
)
    ensures
        converted('x', Value::Number(b), flags, width, precision, h, ti, tr) matches Ok(t) && {
            &&& converted('X', Value::Number(b), flags, width, precision, h, ti, tr) == Ok::<
                Seq<char>,
                Seq<char>,
            >(ascii_uppercase(t))
            &&& forall|i: int| 0 <= i < t.len() ==> !is_capital(#[trigger] t[i])
        },
{
    law_upper_hex_is_upper_cased_hex(ti(b), flags, width, precision);
    law_lower_hex_has_no_capitals(ti(b), flags, width, precision);
}

/// What a directive gives at position `pos` of the values: its text and
/// the next position, or the error text.
pub open spec fn directive_text(
    d: DirectiveView,
    pos: nat,
    vals: FormatVals,
    h: Map<DefaultKey, HeapEntry>,
    ti: spec_fn(u64) -> i64,
    tr: spec_fn(FloatQuery) -> Seq<char>,
) -> Result<(Seq<char>, nat), Seq<char>> {
    let w: Result<(Seq<char>, nat, nat), Seq<char>> = match d.width {
        CountView::Fixed(n) => Ok((d.flags, n, pos)),
        CountView::FromArg => match positional(vals, pos) {
            None => Err(positional_error(vals, pos as usize)),
            Some(Value::Number(b)) => if ti(b) < 0 {
                Ok((d.flags.push('-'), ((-ti(b)) as usize) as nat, pos + 1))
            } else {
                Ok((d.flags, (ti(b) as usize) as nat, pos + 1))
            },
            Some(_) => Ok((d.flags, 0, pos + 1)),
        },
    };
    match w {
        Err(m) => Err(m),
        Ok((flags, width, pos1)) => {
            let p: Result<(Option<usize>, nat), Seq<char>> = match d.precision {
                None => Ok((None, pos1)),
                Some(CountView::Fixed(n)) => Ok((Some(n as usize), pos1)),
                Some(CountView::FromArg) => match positional(vals, pos1) {
                    None => Err(positional_error(vals, pos1 as usize)),
                    Some(Value::Number(b)) => Ok((Some(saturated_usize(ti(b))), pos1 + 1)),
                    Some(_) => Ok((None, pos1 + 1)),
                },
            };
            match p {
                Err(m) => Err(m),
                Ok((precision, pos2)) => if d.conv == '%' {
                    Ok((width_aligned(seq!['%'], flags, width), pos2))
                } else {
                    let v: Result<(Value, nat), Seq<char>> = match d.key {
                        Some(k) => match named(vals, k) {
                            Ok(v) => Ok((v, pos2)),
                            Err(m) => Err(m),
                        },
                        None => match positional(vals, pos2) {
                            Some(v) => Ok((v, pos2 + 1)),
                            None => Err(positional_error(vals, pos2 as usize)),
                        },
                    };
                    match v {
                        Err(m) => Err(m),
                        Ok((v, pos3)) => match converted(
                            d.conv,
                            v,
                            flags,
                            width,
                            precision,
                            h,
                            ti,
                            tr,
                        ) {
                            Ok(t) => Ok((t, pos3)),
                            Err(m) => Err(m),
                        },
                    }
                },
            }
        },
    }
}

/// The value at a position of the values, or the error for it.
fn fetch_positional(vals: &FormatVals, idx: usize, span: &Range<usize>, source_id: &str) -> (r:
    Result<Value, ScanError>)
    ensures
        match positional(*vals, idx as nat) {
            Some(v) => r == Ok::<Value, ScanError>(v),
            None => r matches Err(e) && error_is(
                e,
                span.start as int,
                span.end as int,
                positional_error(*vals, idx),
                source_id@,
            ),
        },
{
    vals.get_positional(idx, span, source_id)
}

/// A whole number as a `u32`, saturating.
fn to_u32_saturating(v: i64) -> (r: u32)
    ensures
        r == saturated_u32(v),
{
    if v < 0 {
        0
    } else if v > 4294967295 {
        4294967295
    } else {
        v as u32
    }
}

/// A whole number as a `usize`, saturating.
fn to_usize_saturating(v: i64) -> (r: usize)
    ensures
        r == saturated_usize(v),
{
    if v < 0 {
        0
    } else if (v as u64) > (usize::MAX as u64) {
        usize::MAX
    } else {
        v as usize
    }
}

/// The error of a conversion.
fn conv_error(msg: String, span: &Range<usize>, source_id: &str) -> (e: ScanError)
    ensures
        error_is(e, span.start as int, span.end as int, msg@, source_id@),
{
    ScanError::new(span.start..span.end, msg, String::from_str(source_id))
}

/// `std.format: %<conv> requires a number`.
fn needs_number_text(conv: char) -> (r: String)
    ensures
        r@ == needs_number(conv),
{
    let mut m = String::new();
    proof {
        reveal_strlit("std.format: %");
        reveal_strlit(" requires a number");
    }
    push_str(&mut m, "std.format: %");
    crate::text::push_char(&mut m, conv);
    push_str(&mut m, " requires a number");
    m
}

/// Whether `c` occurs in `cs`.
fn has_char(cs: &Vec<char>, c: char) -> (r: bool)
    ensures
        r == cs@.contains(c),
{
    let mut i: usize = 0;
    while i < cs.len()
        invariant
            i <= cs@.len(),
            forall|j: int| 0 <= j < i ==> cs@[j] != c,
        decreases cs@.len() - i,
    {
        if cs[i] == c {
            return true;
        }
        i += 1;
    }
    false
}

/// The text of one conversion of a value.
fn convert<I: Fn(u64) -> i64, R: Fn(FloatQuery) -> String>(
    conv: char,
    v: Value,
    flags: &String,
    width: usize,
    precision: Option<usize>,
    mm: &MemoryManager,
    span: &Range<usize>,
    source_id: &str,
    to_int: &I,
    render: &R,
) -> (r: Result<String, ScanError>)
    requires
        forall|q: FloatQuery| call_requires(*render, (q,)),
        forall|b: u64| call_requires(*to_int, (b,)),
    ensures
        forall|ti: spec_fn(u64) -> i64, tr: spec_fn(FloatQuery) -> Seq<char>|
            ints_read(*to_int, ti) && texts_read(*render, tr) ==> match converted(
                conv,
                v,
                flags@,
                width as nat,
                precision,
                mm.heap_view(),
                ti,
                tr,
            ) {
                Ok(t) => r matches Ok(s) && s@ == t,
                Err(m) => r matches Err(e) && error_is(
                    e,
                    span.start as int,
                    span.end as int,
                    m,
                    source_id@,
                ),
            },
{
    let p6: usize = match precision {
        Some(p) => p,
        None => 6,
    };
    let fl = chars_of(flags.as_str());
    let alt = has_char(&fl, '#');
    let zero = has_char(&fl, '0');
    if conv == 's' {
        let t = value_text_of(mm, v, usize::MAX, render);
        let out = format_text(t.as_str(), flags.as_str(), width, precision);
        proof {
            assert forall|ti: spec_fn(u64) -> i64, tr: spec_fn(FloatQuery) -> Seq<char>|
                ints_read(*to_int, ti) && texts_read(*render, tr) implies converted(
                    conv,
                    v,
                    flags@,
                    width as nat,
                    precision,
                    mm.heap_view(),
                    ti,
                    tr,
                ) == Ok::<Seq<char>, Seq<char>>(out@) by {}
        }
        Ok(out)
    } else if conv == 'd' || conv == 'i' || conv == 'u' {
        match v {
            Value::Number(b) => Ok(format_decimal(to_int(b), flags.as_str(), width, precision)),
            _ => Err(conv_error(needs_number_text(conv), span, source_id)),
        }
    } else if conv == 'o' || conv == 'x' || conv == 'X' {
        match v {
            Value::Number(b) => Ok(format_radix(to_int(b), conv, flags.as_str(), width, precision)),
            _ => Err(conv_error(needs_number_text(conv), span, source_id)),
        }
    } else if conv == 'f' {
        match v {
            Value::Number(b) => {
                let t = render(FloatQuery::Fixed(b, p6, alt));
                Ok(apply_numeric_format(t.as_str(), flags.as_str(), width, zero))
            },
            _ => {
                proof {
                    reveal_strlit("std.format: %f requires a number");
                }
                Err(conv_error(String::from_str("std.format: %f requires a number"), span, source_id))
            },
        }
    } else if conv == 'e' || conv == 'E' {
        match v {
            Value::Number(b) => {
                let t = render(FloatQuery::Exponent(b, p6, conv == 'E', alt));
                Ok(apply_numeric_format(t.as_str(), flags.as_str(), width, zero))
            },
            _ => Err(conv_error(needs_number_text(conv), span, source_id)),
        }
    } else if conv == 'g' || conv == 'G' {
        match v {
            Value::Number(b) => {
                let p = if p6 == 0 { 1 } else { p6 };
                let t = render(FloatQuery::General(b, p, conv == 'G', alt));
                Ok(apply_numeric_format(t.as_str(), flags.as_str(), width, zero))
            },
            _ => Err(conv_error(needs_number_text(conv), span, source_id)),
        }
    } else if conv == 'c' {
        let cp: u32 = match v {
            Value::Number(b) => to_u32_saturating(to_int(b)),
            Value::String(k) => {
                let first = match mm.get_entry(k) {
                    Some(HeapEntry::String(ms)) => {
                        let cs = chars_of(ms.content.as_str());
                        if cs.len() > 0 {
                            Some(cs[0] as u32)
                        } else {
                            None
                        }
                    },
                    _ => None,
                };
                match first {
                    Some(c) => c,
                    None => {
                        proof {
                            reveal_strlit("std.format: %c requires non-empty string or number");
                        }
                        return Err(
                            conv_error(
                                String::from_str(
                                    "std.format: %c requires non-empty string or number",
                                ),
                                span,
                                source_id,
                            ),
                        );
                    },
                }
            },
            _ => {
                proof {
                    reveal_strlit("std.format: %c requires a number or string");
                }
                return Err(
                    conv_error(
                        String::from_str("std.format: %c requires a number or string"),
                        span,
                        source_id,
                    ),
                );
            },
        };
        let c = match char_from_u32(cp) {
            Some(c) => c,
            None => '\u{FFFD}',
        };
        let one = string_of(&vec![c]);
        let out = apply_width_align(one.as_str(), flags.as_str(), width);
        proof {
            assert(one@ =~= seq![char_or_replacement(cp)]);
            assert forall|ti: spec_fn(u64) -> i64, tr: spec_fn(FloatQuery) -> Seq<char>|
                ints_read(*to_int, ti) && texts_read(*render, tr) implies converted(
                    conv,
                    v,
                    flags@,
                    width as nat,
                    precision,
                    mm.heap_view(),
                    ti,
                    tr,
                ) == Ok::<Seq<char>, Seq<char>>(out@) by {
                match v {
                    Value::String(k) => {
                        assert(value_text(mm.heap_view(), v, text_fuel(), tr)
                            == mm.heap_view()[k]->String_0.content@);
                    },
                    _ => {},
                }
            }
        }
        Ok(out)
    } else {
        let mut m = String::new();
        proof {
            reveal_strlit("std.format: unknown format specifier '%");
            reveal_strlit("'");
        }
        push_str(&mut m, "std.format: unknown format specifier '%");
        crate::text::push_char(&mut m, conv);
        push_str(&mut m, "'");
        Err(conv_error(m, span, source_id))
    }
}

/// What a directive gives at position `pos` of the values: its text and
/// the next position.
fn format_directive<I: Fn(u64) -> i64, R: Fn(FloatQuery) -> String>(
    d: &Directive,
    pos: usize,
    vals: &FormatVals,
    mm: &MemoryManager,
    span: &Range<usize>,
    source_id: &str,
    to_int: &I,
    render: &R,
) -> (r: Result<(String, usize), ScanError>)
    requires
        pos + 3 <= usize::MAX,
        forall|q: FloatQuery| call_requires(*render, (q,)),
        forall|b: u64| call_requires(*to_int, (b,)),
    ensures
        r matches Ok((s, q)) ==> q <= pos + 3,
        forall|ti: spec_fn(u64) -> i64, tr: spec_fn(FloatQuery) -> Seq<char>|
            ints_read(*to_int, ti) && texts_read(*render, tr) ==> match directive_text(
                directive_view(*d),
                pos as nat,
                *vals,
                mm.heap_view(),
                ti,
                tr,
            ) {
                Ok((t, p2)) => r matches Ok((s, q)) && s@ == t && q == p2,
                Err(m) => r matches Err(e) && error_is(
                    e,
                    span.start as int,
                    span.end as int,
                    m,
                    source_id@,
                ),
            },
{
    let mut flags = String::from_str(d.flags.as_str());
    let mut width: usize = 0;
    let mut pos1 = pos;
    match d.width {
        Count::Fixed(n) => {
            width = n;
        },
        Count::FromArg => {
            let v = match fetch_positional(vals, pos, span, source_id) {
                Ok(v) => v,
                Err(e) => {
                    return Err(e);
                },
            };
            pos1 = pos + 1;
            match v {
                Value::Number(b) => {
                    let w = to_int(b);
                    if w < 0 {
                        crate::text::push_char(&mut flags, '-');
                        width = (0i128 - (w as i128)) as usize;
                    } else {
                        width = w as usize;
                    }
                },
                _ => {},
            }
        },
    }
    let mut precision: Option<usize> = None;
    let mut pos2 = pos1;
    match d.precision {
        None => {},
        Some(Count::Fixed(n)) => {
            precision = Some(n);
        },
        Some(Count::FromArg) => {
            let v = match fetch_positional(vals, pos1, span, source_id) {
                Ok(v) => v,
                Err(e) => {
                    return Err(e);
                },
            };
            pos2 = pos1 + 1;
            match v {
                Value::Number(b) => {
                    precision = Some(to_usize_saturating(to_int(b)));
                },
                _ => {},
            }
        },
    }
    if d.conv == '%' {
        proof {
            reveal_strlit("%");
        }
        let out = apply_width_align("%", flags.as_str(), width);
        proof {
            assert("%"@ =~= seq!['%']);
        }
        return Ok((out, pos2));
    }
    let (v, pos3) = match &d.key {
        Some(k) => match vals.get_named(k.as_str(), span, source_id) {
            Ok(v) => (v, pos2),
            Err(e) => {
                return Err(e);
            },
        },
        None => match fetch_positional(vals, pos2, span, source_id) {
            Ok(v) => (v, pos2 + 1),
            Err(e) => {
                return Err(e);
            },
        },
    };
    match convert(d.conv, v, &flags, width, precision, mm, span, source_id, to_int, render) {
        Ok(t) => Ok((t, pos3)),
        Err(e) => Err(e),
    }
}

// ---------------------------------------------------------------- the whole format

/// What the pieces from index `k` on give, starting at position `pos` of
/// the values: their text, or the first error's text.
pub open spec fn pieces_text(
    ps: Seq<PieceView>,
    k: nat,
    pos: nat,
    vals: FormatVals,
    h: Map<DefaultKey, HeapEntry>,
    ti: spec_fn(u64) -> i64,
    tr: spec_fn(FloatQuery) -> Seq<char>,
) -> Result<Seq<char>, Seq<char>>
    decreases ps.len() - k,
{
    if k >= ps.len() {
        Ok(Seq::empty())
    } else {
        match ps[k as int] {
            PieceView::Char(c) => match pieces_text(ps, k + 1, pos, vals, h, ti, tr) {
                Ok(t) => Ok(seq![c] + t),
                Err(m) => Err(m),
            },
            PieceView::Directive(d) => match directive_text(d, pos, vals, h, ti, tr) {
                Err(m) => Err(m),
                Ok((t, p2)) => match pieces_text(ps, k + 1, p2, vals, h, ti, tr) {
                    Ok(rest) => Ok(t + rest),
                    Err(m) => Err(m),
                },
            },
        }
    }
}

/// What `std.format` gives: the text of the pieces of the format, or the
/// first error's text; a malformed end of the format is reported after the
/// pieces before it.
pub open spec fn format_result(
    fmt: Seq<char>,
    vals: FormatVals,
    h: Map<DefaultKey, HeapEntry>,
    ti: spec_fn(u64) -> i64,
    tr: spec_fn(FloatQuery) -> Seq<char>,
) -> Result<Seq<char>, Seq<char>> {
    let (ps, err) = pieces_from(fmt, 0);
    match pieces_text(ps, 0, 0, vals, h, ti, tr) {
        Err(m) => Err(m),
        Ok(t) => match err {
            Some(e) => Err(format_error_text(e)),
            None => Ok(t),
        },
    }
}

/// Applies a format string to values. `to_int` is a number's conversion to
/// a whole one (truncating, saturating, NaN as zero) and `render` the
/// floating-point texts; both give one result for each argument, and the
/// result is what `format_result` says for those readings of the two.
pub fn format_string<I: Fn(u64) -> i64, R: Fn(FloatQuery) -> String>(
    fmt: &str,
    vals: &FormatVals,
    mm: &MemoryManager,
    span: &Range<usize>,
    source_id: &str,
    to_int: &I,
    render: &R,
) -> (r: Result<String, ScanError>)
    requires
        counts_fit_from(fmt@, 0),
        3 * pieces_from(fmt@, 0).0.len() + 3 <= usize::MAX,
        forall|q: FloatQuery| call_requires(*render, (q,)),
        forall|b: u64| call_requires(*to_int, (b,)),
        exists|ti: spec_fn(u64) -> i64| ints_read(*to_int, ti),
        exists|tr: spec_fn(FloatQuery) -> Seq<char>| texts_read(*render, tr),
    ensures
        forall|ti: spec_fn(u64) -> i64, tr: spec_fn(FloatQuery) -> Seq<char>|
            ints_read(*to_int, ti) && texts_read(*render, tr) ==> match format_result(
                fmt@,
                *vals,
                mm.heap_view(),
                ti,
                tr,
            ) {
                Ok(t) => r matches Ok(s) && s@ == t,
                Err(m) => r matches Err(e) && error_is(
                    e,
                    span.start as int,
                    span.end as int,
                    m,
                    source_id@,
                ),
            },
{
    let (pieces, err) = parse_format(fmt);
    let ghost ps = pieces_view(pieces@);
    let mut out = String::new();
    let mut pos: usize = 0;
    let mut k: usize = 0;
    while k < pieces.len()
        invariant
            k <= pieces@.len(),
            ps == pieces_view(pieces@),
            ps == pieces_from(fmt@, 0).0,
            ps.len() == pieces@.len(),
            pos <= 3 * k,
            3 * pieces@.len() + 3 <= usize::MAX,
            forall|q: FloatQuery| call_requires(*render, (q,)),
            forall|b: u64| call_requires(*to_int, (b,)),
            forall|ti: spec_fn(u64) -> i64, tr: spec_fn(FloatQuery) -> Seq<char>|
                ints_read(*to_int, ti) && texts_read(*render, tr) ==> pieces_text(
                    ps,
                    0,
                    0,
                    *vals,
                    mm.heap_view(),
                    ti,
                    tr,
                ) == match pieces_text(ps, k as nat, pos as nat, *vals, mm.heap_view(), ti, tr) {
                    Ok(rest) => Ok(out@ + rest),
                    Err(m) => Err(m),
                },
        decreases pieces@.len() - k,
    {
        assert(ps[k as int] == crate::format_spec::piece_view(pieces@[k as int]));
        match &pieces[k] {
            Piece::Char(c) => {
                let ghost before = out@;
                crate::text::push_char(&mut out, *c);
                proof {
                    assert forall|ti: spec_fn(u64) -> i64, tr: spec_fn(FloatQuery) -> Seq<char>|
                        ints_read(*to_int, ti) && texts_read(*render, tr) implies pieces_text(
                            ps,
                            0,
                            0,
                            *vals,
                            mm.heap_view(),
                            ti,
                            tr,
                        ) == match pieces_text(
                            ps,
                            (k + 1) as nat,
                            pos as nat,
                            *vals,
                            mm.heap_view(),
                            ti,
                            tr,
                        ) {
                            Ok(rest) => Ok(out@ + rest),
                            Err(m) => Err(m),
                        } by {
                        match pieces_text(ps, (k + 1) as nat, pos as nat, *vals, mm.heap_view(), ti, tr) {
                            Ok(rest) => {
                                assert(before + (seq![*c] + rest) =~= out@ + rest);
                            },
                            Err(m) => {},
                        }
                    }
                }
            },
            Piece::Directive(d) => {
                match format_directive(d, pos, vals, mm, span, source_id, to_int, render) {
                    Err(e) => {
                        return Err(e);
                    },
                    Ok((t, p2)) => {
                        let ghost before = out@;
                        push_str(&mut out, t.as_str());
                        proof {
                            assert forall|ti: spec_fn(u64) -> i64, tr: spec_fn(FloatQuery) -> Seq<char>|
                                ints_read(*to_int, ti) && texts_read(*render, tr) implies pieces_text(
                                    ps,
                                    0,
                                    0,
                                    *vals,
                                    mm.heap_view(),
                                    ti,
                                    tr,
                                ) == match pieces_text(
                                    ps,
                                    (k + 1) as nat,
                                    p2 as nat,
                                    *vals,
                                    mm.heap_view(),
                                    ti,
                                    tr,
                                ) {
                                    Ok(rest) => Ok(out@ + rest),
                                    Err(m) => Err(m),
                                } by {
                                match pieces_text(ps, (k + 1) as nat, p2 as nat, *vals, mm.heap_view(), ti, tr) {
                                    Ok(rest) => {
                                        assert(before + (t@ + rest) =~= out@ + rest);
                                    },
                                    Err(m) => {},
                                }
                            }
                        }
                        pos = p2;
                    },
                }
            },
        }
        k += 1;
    }
    proof {
        assert forall|ti: spec_fn(u64) -> i64, tr: spec_fn(FloatQuery) -> Seq<char>|
            ints_read(*to_int, ti) && texts_read(*render, tr) implies pieces_text(
                ps,
                0,
                0,
                *vals,
                mm.heap_view(),
                ti,
                tr,
            ) == Ok::<Seq<char>, Seq<char>>(out@) by {
            assert(out@ + Seq::<char>::empty() =~= out@);
        }
    }
    match err {
        Some(e) => Err(ScanError::new(span.start..span.end, e.message(), String::from_str(source_id))),
        None => Ok(out),
    }
}

} // verus!
