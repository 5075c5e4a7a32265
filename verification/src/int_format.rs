//! The `%` conversions of `std.format` that work on whole numbers and
//! text: `%d`/`%i`/`%u`, `%o`, `%x`, `%X` and `%s`, with their flags,
//! width and precision.

use vstd::prelude::*;
use crate::native::apply_numeric_format;
use crate::native::apply_width_align;
use crate::native::has_char;
use crate::native::numeric_formatted;
use crate::native::push_repeated;
use crate::native::extend_chars;
use crate::native::repeat_char;
use crate::native::width_aligned;
use crate::text::chars_of;
use crate::text::string_of;
use crate::heap_natives::ascii_uppercase;
use crate::heap_natives::ascii_uppered;

verus! {

/// The digit character for a digit value, in lower or upper case.
pub open spec fn digit_char(d: nat, upper: bool) -> char {
    if d < 10 {
        (48 + d) as char
    } else if upper {
        (55 + d) as char
    } else {
        (87 + d) as char
    }
}

/// The digits of `n` in a base from 2 to 16, most significant first.
pub open spec fn digits_in(n: nat, base: nat, upper: bool) -> Seq<char>
    decreases n,
{
    if base < 2 {
        Seq::empty()
    } else if n < base {
        seq![digit_char(n, upper)]
    } else {
        proof {
            vstd::arithmetic::div_mod::lemma_div_decreases(n as int, base as int);
        }
        digits_in(n / base, base, upper).push(digit_char(n % base, upper))
    }
}

/// The magnitude of a whole number.
pub open spec fn magnitude(v: i64) -> nat {
    if v < 0 {
        (-v) as nat
    } else {
        v as nat
    }
}

/// `%d` before signing and padding: the decimal digits of the magnitude,
/// zero-filled to the precision, with `-` for a negative number; a zero
/// precision shows zero as nothing.
pub open spec fn decimal_body(v: i64, precision: Option<usize>) -> Seq<char> {
    let digits = digits_in(magnitude(v), 10, false);
    let minus: Seq<char> = if v < 0 {
        seq!['-']
    } else {
        Seq::empty()
    };
    match precision {
        Some(p) => if p > digits.len() {
            minus + repeat_char('0', (p - digits.len()) as nat) + digits
        } else if p == 0 && v == 0 {
            Seq::empty()
        } else {
            minus + digits
        },
        None => minus + digits,
    }
}

/// `%d`, `%i` and `%u` of a whole number.
pub open spec fn decimal_formatted(
    v: i64,
    flags: Seq<char>,
    width: nat,
    precision: Option<usize>,
) -> Seq<char> {
    numeric_formatted(
        decimal_body(v, precision),
        flags,
        width,
        flags.contains('0') && precision is None,
    )
}

/// The base of an integer conversion character.
pub open spec fn conv_base(conv: char) -> nat {
    if conv == 'o' {
        8
    } else {
        16
    }
}

/// `%o`, `%x` and `%X` of a whole number: the digits of the magnitude
/// zero-filled to the precision; a sign (`-`, or `+` or space as the flags
/// ask); with `#` a `0` before octal digits that do not start with one, or
/// `0x`/`0X` before hexadecimal ones (not for zero); padded to the width
/// with spaces on the right for `-`, zeros after the prefix for `0`
/// without a precision, else spaces on the left.
pub open spec fn radix_formatted(
    v: i64,
    conv: char,
    flags: Seq<char>,
    width: nat,
    precision: Option<usize>,
) -> Seq<char> {
    let digits = radix_digits(v, conv, precision);
    let sign = radix_sign(v, flags);
    let prefix = radix_prefix(v, conv, flags, digits);
    let content_len = sign.len() + prefix.len() + digits.len();
    if width == 0 || content_len >= width {
        sign + prefix + digits
    } else if flags.contains('-') {
        sign + prefix + digits + repeat_char(' ', (width - content_len) as nat)
    } else if flags.contains('0') && precision is None {
        sign + prefix + repeat_char('0', (width - content_len) as nat) + digits
    } else {
        repeat_char(' ', (width - content_len) as nat) + sign + prefix + digits
    }
}

/// `%s` of a text: cut to the precision in characters, then padded to the
/// width.
pub open spec fn text_formatted(
    s: Seq<char>,
    flags: Seq<char>,
    width: nat,
    precision: Option<usize>,
) -> Seq<char> {
    let cut = match precision {
        Some(p) => if p < s.len() {
            s.take(p as int)
        } else {
            s
        },
        None => s,
    };
    width_aligned(cut, flags, width)
}

/// The digit character of a digit value below the base.
fn digit_of(d: u64, upper: bool) -> (c: char)
    requires
        d < 16,
    ensures
        c == digit_char(d as nat, upper),
        (c as u32) < 128,
{
    if d < 10 {
        ((48 + d) as u8) as char
    } else if upper {
        ((55 + d) as u8) as char
    } else {
        ((87 + d) as u8) as char
    }
}

/// The digits of `n` in `base`, most significant first.
fn digits_of(n: u64, base: u64, upper: bool) -> (r: Vec<char>)
    requires
        2 <= base <= 16,
    ensures
        r@ == digits_in(n as nat, base as nat, upper),
    decreases n,
{
    let c = digit_of(n % base, upper);
    if n < base {
        proof {
            vstd::arithmetic::div_mod::lemma_small_mod(n as nat, base as nat);
        }
        vec![c]
    } else {
        proof {
            vstd::arithmetic::div_mod::lemma_div_decreases(n as int, base as int);
        }
        let mut r = digits_of(n / base, base, upper);
        r.push(c);
        r
    }
}

/// The magnitude of a whole number as an unsigned one.
fn magnitude_of(v: i64) -> (m: u64)
    ensures
        m == magnitude(v),
{
    if v < 0 {
        ((-(v + 1)) as u64) + 1
    } else {
        v as u64
    }
}

/// Formats a whole number for `%d`, `%i` or `%u`.
pub fn format_decimal(v: i64, flags: &str, width: usize, precision: Option<usize>) -> (r: String)
    ensures
        r@ == decimal_formatted(v, flags@, width as nat, precision),
{
    let digits = digits_of(magnitude_of(v), 10, false);
    let mut body: Vec<char> = Vec::new();
    if v < 0 {
        body.push('-');
    }
    let ghost minus = body@;
    match precision {
        Some(p) => {
            if p > digits.len() {
                push_repeated(&mut body, '0', p - digits.len());
                extend_chars(&mut body, &digits);
            } else if p == 0 && v == 0 {
                body = Vec::new();
            } else {
                extend_chars(&mut body, &digits);
            }
        },
        None => {
            extend_chars(&mut body, &digits);
        },
    }
    proof {
        assert(minus == (if v < 0 {
            seq!['-']
        } else {
            Seq::<char>::empty()
        }));
        assert(body@ =~= decimal_body(v, precision));
    }
    let text = string_of(&body);
    let fl = chars_of(flags);
    let zero_pad = has_char(&fl, '0') && precision.is_none();
    apply_numeric_format(text.as_str(), flags, width, zero_pad)
}

/// The digits of `%o`, `%x` or `%X` after the precision is applied.
pub open spec fn radix_digits(v: i64, conv: char, precision: Option<usize>) -> Seq<char> {
    let raw = digits_in(magnitude(v), conv_base(conv), conv == 'X');
    match precision {
        Some(p) => if p == 0 && v == 0 {
            Seq::empty()
        } else if p > raw.len() {
            repeat_char('0', (p - raw.len()) as nat) + raw
        } else {
            raw
        },
        None => raw,
    }
}

/// The sign that `%o`, `%x` or `%X` shows.
pub open spec fn radix_sign(v: i64, flags: Seq<char>) -> Seq<char> {
    if v < 0 {
        seq!['-']
    } else if flags.contains('+') {
        seq!['+']
    } else if flags.contains(' ') {
        seq![' ']
    } else {
        Seq::empty()
    }
}

/// The prefix that `#` asks `%o`, `%x` or `%X` for.
pub open spec fn radix_prefix(v: i64, conv: char, flags: Seq<char>, digits: Seq<char>) -> Seq<char> {
    if flags.contains('#') && v != 0 {
        if conv == 'o' {
            if !(digits.len() > 0 && digits[0] == '0') {
                seq!['0']
            } else {
                Seq::empty()
            }
        } else if conv == 'x' {
            seq!['0', 'x']
        } else {
            seq!['0', 'X']
        }
    } else {
        Seq::empty()
    }
}

/// Whether a character is an ASCII capital letter.
pub open spec fn is_capital(c: char) -> bool {
    65 <= c as u32 <= 90
}

/// Upper-casing distributes over joining texts.
proof fn lemma_uppercase_concat(a: Seq<char>, b: Seq<char>)
    ensures
        ascii_uppercase(a + b) == ascii_uppercase(a) + ascii_uppercase(b),
{
    assert(ascii_uppercase(a + b) =~= ascii_uppercase(a) + ascii_uppercase(b));
}

/// Upper-casing leaves a run of a character that is no small letter alone.
proof fn lemma_uppercase_repeat(c: char, n: nat)
    requires
        !(97 <= c as u32 <= 122),
    ensures
        ascii_uppercase(repeat_char(c, n)) == repeat_char(c, n),
{
    assert(ascii_uppercase(repeat_char(c, n)) =~= repeat_char(c, n));
}

/// The upper-case digits of a number are its lower-case digits with their
/// letters upper-cased, and the lower-case digits hold no capital.
proof fn lemma_digits_cases(n: nat, base: nat)
    requires
        2 <= base <= 16,
    ensures
        digits_in(n, base, true) == ascii_uppercase(digits_in(n, base, false)),
        forall|i: int| 0 <= i < digits_in(n, base, false).len() ==> !is_capital(
            #[trigger] digits_in(n, base, false)[i],
        ),
    decreases n,
{
    if n < base {
        let d = digit_char(n, false);
        assert(ascii_uppered(d) == digit_char(n, true));
        assert(ascii_uppercase(seq![d]) =~= seq![digit_char(n, true)]);
    } else {
        vstd::arithmetic::div_mod::lemma_div_decreases(n as int, base as int);
        lemma_digits_cases(n / base, base);
        let m = n % base;
        let lower = digits_in(n / base, base, false);
        assert(ascii_uppered(digit_char(m, false)) == digit_char(m, true));
        assert(ascii_uppercase(lower.push(digit_char(m, false))) =~= ascii_uppercase(lower).push(
            digit_char(m, true),
        ));
        assert forall|i: int| 0 <= i < digits_in(n, base, false).len() implies !is_capital(
            #[trigger] digits_in(n, base, false)[i],
        ) by {
            if i < lower.len() {
                assert(digits_in(n, base, false)[i] == lower[i]);
            }
        }
    }
}

/// The value of a digit character, `0`-`9`, `a`-`f` or `A`-`F`, read from
/// its code point.
pub open spec fn digit_value(c: char) -> nat {
    let x = c as u32;
    if 48 <= x <= 57 {
        (x - 48) as nat
    } else if 97 <= x <= 102 {
        (x - 87) as nat
    } else if 65 <= x <= 70 {
        (x - 55) as nat
    } else {
        0
    }
}

/// The number that a run of digits stands for in a base.
pub open spec fn read_digits(s: Seq<char>, base: nat) -> nat
    decreases s.len(),
{
    if s.len() == 0 {
        0
    } else {
        read_digits(s.drop_last(), base) * base + digit_value(s.last())
    }
}

/// The digits of a number read back in their base give the number.
proof fn lemma_digits_read_back(n: nat, base: nat, upper: bool)
    requires
        2 <= base <= 16,
    ensures
        read_digits(digits_in(n, base, upper), base) == n,
        digits_in(n, base, upper).len() > 0,
    decreases n,
{
    if n < base {
        let t = seq![digit_char(n, upper)];
        assert(t.drop_last() =~= Seq::<char>::empty());
        assert(digit_value(digit_char(n, upper)) == n);
        assert(read_digits(t.drop_last(), base) == 0);
        assert(0 * base == 0) by (nonlinear_arith);
    } else {
        vstd::arithmetic::div_mod::lemma_div_decreases(n as int, base as int);
        lemma_digits_read_back(n / base, base, upper);
        let t = digits_in(n / base, base, upper).push(digit_char(n % base, upper));
        assert(t.drop_last() =~= digits_in(n / base, base, upper));
        vstd::arithmetic::div_mod::lemma_fundamental_div_mod(n as int, base as int);
        assert(digit_value(digit_char(n % base, upper)) == n % base);
        assert((n / base) * base + n % base == n) by (nonlinear_arith)
            requires
                n == base * (n / base) + n % base,
        ;
    }
}

/// Zeros in front of digits do not change what they stand for.
proof fn lemma_leading_zeros(z: nat, s: Seq<char>, base: nat)
    ensures
        read_digits(repeat_char('0', z) + s, base) == read_digits(s, base),
    decreases s.len(),
{
    if s.len() == 0 {
        lemma_zeros_read(z, base);
        assert(repeat_char('0', z) + s =~= repeat_char('0', z));
    } else {
        lemma_leading_zeros(z, s.drop_last(), base);
        assert((repeat_char('0', z) + s).drop_last() =~= repeat_char('0', z) + s.drop_last());
    }
}

/// A run of zeros stands for zero.
proof fn lemma_zeros_read(z: nat, base: nat)
    ensures
        read_digits(repeat_char('0', z), base) == 0,
    decreases z,
{
    if z > 0 {
        lemma_zeros_read((z - 1) as nat, base);
        assert(repeat_char('0', z).drop_last() =~= repeat_char('0', (z - 1) as nat));
        assert(repeat_char('0', z).last() == '0');
        assert(digit_value('0') == 0);
        assert(0 * base == 0) by (nonlinear_arith);
    }
}

/// The digits that `%o`, `%x` and `%X` write, read back in base 8 for `%o`
/// and 16 for the others, give the magnitude of the number.
pub proof fn law_radix_digits_read_back(v: i64, conv: char, precision: Option<usize>)
    requires
        conv == 'o' || conv == 'x' || conv == 'X',
    ensures
        read_digits(
            radix_digits(v, conv, precision),
            if conv == 'o' {
                8
            } else {
                16
            },
        ) == magnitude(v),
{
    let base: nat = if conv == 'o' {
        8
    } else {
        16
    };
    lemma_digits_read_back(magnitude(v), base, conv == 'X');
    let raw = digits_in(magnitude(v), base, conv == 'X');
    match precision {
        Some(p) => {
            if p == 0 && v == 0 {
            } else if p > raw.len() {
                lemma_leading_zeros((p - raw.len()) as nat, raw, base);
            }
        },
        None => {},
    }
}

/// The digits of `%d`, `%i` and `%u`, read back in base 10, give the
/// magnitude of the number.
pub proof fn law_decimal_digits_read_back(n: nat)
    ensures
        read_digits(digits_in(n, 10, false), 10) == n,
{
    lemma_digits_read_back(n, 10, false);
}

/// `%X` writes what `%x` writes with its letters in upper case: the same
/// digits, sign, padding and (with `#`) `0X` for `0x`.
pub proof fn law_upper_hex_is_upper_cased_hex(
    v: i64,
    flags: Seq<char>,
    width: nat,
    precision: Option<usize>,
)
    ensures
        radix_formatted(v, 'X', flags, width, precision) == ascii_uppercase(
            radix_formatted(v, 'x', flags, width, precision),
        ),
{
    lemma_digits_cases(magnitude(v), 16);
    let raw_l = digits_in(magnitude(v), 16, false);
    let dl = radix_digits(v, 'x', precision);
    let du = radix_digits(v, 'X', precision);
    match precision {
        Some(p) => {
            if p > raw_l.len() && !(p == 0 && v == 0) {
                lemma_uppercase_concat(repeat_char('0', (p - raw_l.len()) as nat), raw_l);
                lemma_uppercase_repeat('0', (p - raw_l.len()) as nat);
            }
            if p == 0 && v == 0 {
                assert(ascii_uppercase(dl) =~= du);
            }
        },
        None => {},
    }
    assert(ascii_uppercase(dl) == du);
    let sign = radix_sign(v, flags);
    assert(ascii_uppercase(sign) =~= sign);
    let pl = radix_prefix(v, 'x', flags, dl);
    let pu = radix_prefix(v, 'X', flags, du);
    assert(ascii_uppercase(pl) =~= pu);
    lemma_uppercase_concat(sign, pl);
    lemma_uppercase_concat(sign + pl, dl);
    let content_len = sign.len() + pl.len() + dl.len();
    if width > 0 && content_len < width {
        let pad = (width - content_len) as nat;
        lemma_uppercase_repeat(' ', pad);
        lemma_uppercase_repeat('0', pad);
        lemma_uppercase_concat(sign + pl + dl, repeat_char(' ', pad));
        lemma_uppercase_concat(sign + pl, repeat_char('0', pad));
        lemma_uppercase_concat(sign + pl + repeat_char('0', pad), dl);
        lemma_uppercase_concat(repeat_char(' ', pad), sign);
        lemma_uppercase_concat(repeat_char(' ', pad) + sign, pl);
        lemma_uppercase_concat(repeat_char(' ', pad) + sign + pl, dl);
    }
}

/// `%x` writes no capital letter.
pub proof fn law_lower_hex_has_no_capitals(
    v: i64,
    flags: Seq<char>,
    width: nat,
    precision: Option<usize>,
)
    ensures
        forall|i: int| 0 <= i < radix_formatted(v, 'x', flags, width, precision).len() ==> !is_capital(
            #[trigger] radix_formatted(v, 'x', flags, width, precision)[i],
        ),
{
    lemma_digits_cases(magnitude(v), 16);
    let r = radix_formatted(v, 'x', flags, width, precision);
    let raw = digits_in(magnitude(v), 16, false);
    let d = radix_digits(v, 'x', precision);
    assert forall|i: int| 0 <= i < d.len() implies !is_capital(#[trigger] d[i]) by {
        match precision {
            Some(p) => {
                if p > raw.len() && !(p == 0 && v == 0) {
                    let z = repeat_char('0', (p - raw.len()) as nat);
                    if i >= z.len() {
                        assert(d[i] == raw[i - z.len()]);
                    }
                }
            },
            None => {},
        }
    }
    let sign = radix_sign(v, flags);
    let pre = radix_prefix(v, 'x', flags, d);
    assert forall|i: int| 0 <= i < r.len() implies !is_capital(#[trigger] r[i]) by {
        let content_len = sign.len() + pre.len() + d.len();
        if width == 0 || content_len >= width {
            assert(r == sign + pre + d);
        } else if flags.contains('-') {
            let t = sign + pre + d;
            if i < t.len() {
                assert(r[i] == t[i]);
            }
        } else if flags.contains('0') && precision is None {
            let pad = repeat_char('0', (width - content_len) as nat);
            let t = sign + pre + pad;
            if i >= t.len() {
                assert(r[i] == d[i - t.len()]);
            } else {
                assert(r[i] == t[i]);
            }
        } else {
            let pad = repeat_char(' ', (width - content_len) as nat);
            let t = pad + sign + pre;
            if i >= t.len() {
                assert(r[i] == d[i - t.len()]);
            } else {
                assert(r[i] == t[i]);
            }
        }
    }
}

fn radix_digits_of(v: i64, conv: char, precision: Option<usize>) -> (r: Vec<char>)
    requires
        conv == 'o' || conv == 'x' || conv == 'X',
    ensures
        r@ == radix_digits(v, conv, precision),
{
    let base: u64 = if conv == 'o' {
        8
    } else {
        16
    };
    let raw = digits_of(magnitude_of(v), base, conv == 'X');
    let mut digits: Vec<char> = Vec::new();
    match precision {
        Some(p) => {
            if p == 0 && v == 0 {
            } else if p > raw.len() {
                push_repeated(&mut digits, '0', p - raw.len());
                extend_chars(&mut digits, &raw);
            } else {
                extend_chars(&mut digits, &raw);
            }
        },
        None => {
            extend_chars(&mut digits, &raw);
        },
    }
    proof {
        assert(Seq::<char>::empty() + raw@ =~= raw@);
        assert(digits@ =~= radix_digits(v, conv, precision));
    }
    digits
}

fn radix_sign_of(v: i64, fl: &Vec<char>) -> (r: Vec<char>)
    ensures
        r@ == radix_sign(v, fl@),
{
    let mut sign: Vec<char> = Vec::new();
    if v < 0 {
        sign.push('-');
    } else if has_char(fl, '+') {
        sign.push('+');
    } else if has_char(fl, ' ') {
        sign.push(' ');
    }
    proof {
        assert(sign@ =~= radix_sign(v, fl@));
    }
    sign
}

fn radix_prefix_of(v: i64, conv: char, fl: &Vec<char>, digits: &Vec<char>) -> (r: Vec<char>)
    ensures
        r@ == radix_prefix(v, conv, fl@, digits@),
{
    let mut prefix: Vec<char> = Vec::new();
    if has_char(fl, '#') && v != 0 {
        if conv == 'o' {
            if !(digits.len() > 0 && digits[0] == '0') {
                prefix.push('0');
            }
        } else if conv == 'x' {
            prefix.push('0');
            prefix.push('x');
        } else {
            prefix.push('0');
            prefix.push('X');
        }
    }
    proof {
        assert(prefix@ =~= radix_prefix(v, conv, fl@, digits@));
    }
    prefix
}

/// Formats a whole number for `%o`, `%x` or `%X`.
pub fn format_radix(v: i64, conv: char, flags: &str, width: usize, precision: Option<usize>) -> (r:
    String)
    requires
        conv == 'o' || conv == 'x' || conv == 'X',
    ensures
        r@ == radix_formatted(v, conv, flags@, width as nat, precision),
{
    let digits = radix_digits_of(v, conv, precision);
    let fl = chars_of(flags);
    let sign = radix_sign_of(v, &fl);
    let prefix = radix_prefix_of(v, conv, &fl, &digits);
    let ghost content_len = sign@.len() + prefix@.len() + digits@.len();
    let short = sign.len() + prefix.len();
    let total = short.saturating_add(digits.len());
    let mut out: Vec<char> = Vec::new();
    if width == 0 || total >= width {
        extend_chars(&mut out, &sign);
        extend_chars(&mut out, &prefix);
        extend_chars(&mut out, &digits);
    } else {
        let padding = width - total;
        if has_char(&fl, '-') {
            extend_chars(&mut out, &sign);
            extend_chars(&mut out, &prefix);
            extend_chars(&mut out, &digits);
            push_repeated(&mut out, ' ', padding);
        } else if has_char(&fl, '0') && precision.is_none() {
            extend_chars(&mut out, &sign);
            extend_chars(&mut out, &prefix);
            push_repeated(&mut out, '0', padding);
            extend_chars(&mut out, &digits);
        } else {
            push_repeated(&mut out, ' ', padding);
            extend_chars(&mut out, &sign);
            extend_chars(&mut out, &prefix);
            extend_chars(&mut out, &digits);
        }
    }
    proof {
        assert(Seq::<char>::empty() + sign@ =~= sign@);
        assert(Seq::<char>::empty() + repeat_char(' ', (width - content_len) as nat) =~= repeat_char(
            ' ',
            (width - content_len) as nat,
        ));
        assert(out@ =~= radix_formatted(v, conv, flags@, width as nat, precision));
    }
    string_of(&out)
}

/// Formats a text for `%s`.
pub fn format_text(s: &str, flags: &str, width: usize, precision: Option<usize>) -> (r: String)
    ensures
        r@ == text_formatted(s@, flags@, width as nat, precision),
{
    let cs = chars_of(s);
    let cut = match precision {
        Some(p) => if p < cs.len() {
            crate::native::slice_chars(&cs, 0, p)
        } else {
            crate::native::slice_chars(&cs, 0, cs.len())
        },
        None => crate::native::slice_chars(&cs, 0, cs.len()),
    };
    proof {
        assert(cs@.subrange(0, cs@.len() as int) =~= cs@);
        if let Some(p) = precision {
            if p < cs@.len() {
                assert(cs@.subrange(0, p as int) =~= cs@.take(p as int));
            }
        }
    }
    let text = string_of(&cut);
    apply_width_align(text.as_str(), flags, width)
}

} // verus!
