//! Helpers of the standard library: base64, digests and `%` formatting pieces.

use vstd::prelude::*;
use crate::chunk::Value;
use crate::chunk::key_eq;
use crate::memory_manager::HeapEntry;
use crate::memory_manager::MemoryManager;
use crate::memory_manager::string_at;
use slotmap::DefaultKey;
use vstd::string::StringSliceAdditionalSpecFns;
use crate::text::chars_of;
use crate::text::push_char;
use crate::text::string_of;
use crate::text::utf8_len;
use crate::text::lemma_utf8_len_encode;

verus! {

// ---------------------------------------------------------------- base64

/// The base64 digit of a six-bit value.
pub open spec fn b64_char(v: int) -> char {
    if v < 26 {
        (65 + v) as char
    } else if v < 52 {
        (97 + v - 26) as char
    } else if v < 62 {
        (48 + v - 52) as char
    } else if v == 62 {
        '+'
    } else {
        '/'
    }
}

/// The standard base64 alphabet (RFC 4648), in digit order.
pub open spec fn standard_alphabet() -> Seq<char> {
    "ABCDEFGHIJKLMNOPQRSTUVWXYZabcdefghijklmnopqrstuvwxyz0123456789+/"@
}

/// Each six-bit value is written as the character at that position of the
/// standard alphabet: `A`-`Z` for 0-25, `a`-`z` for 26-51, `0`-`9` for
/// 52-61, `+` for 62 and `/` for 63.
pub proof fn law_b64_digit_is_standard_alphabet(v: int)
    requires
        0 <= v < 64,
    ensures
        b64_char(v) == standard_alphabet()[v],
{
    reveal_strlit("ABCDEFGHIJKLMNOPQRSTUVWXYZabcdefghijklmnopqrstuvwxyz0123456789+/");
    assert(standard_alphabet().len() == 64);
        if v == 0 {
            assert(b64_char(0) == standard_alphabet()[0]);
        } else if v == 1 {
            assert(b64_char(1) == standard_alphabet()[1]);
        } else if v == 2 {
            assert(b64_char(2) == standard_alphabet()[2]);
        } else if v == 3 {
            assert(b64_char(3) == standard_alphabet()[3]);
        } else if v == 4 {
            assert(b64_char(4) == standard_alphabet()[4]);
        } else if v == 5 {
            assert(b64_char(5) == standard_alphabet()[5]);
        } else if v == 6 {
            assert(b64_char(6) == standard_alphabet()[6]);
        } else if v == 7 {
            assert(b64_char(7) == standard_alphabet()[7]);
        } else if v == 8 {
            assert(b64_char(8) == standard_alphabet()[8]);
        } else if v == 9 {
            assert(b64_char(9) == standard_alphabet()[9]);
        } else if v == 10 {
            assert(b64_char(10) == standard_alphabet()[10]);
        } else if v == 11 {
            assert(b64_char(11) == standard_alphabet()[11]);
        } else if v == 12 {
            assert(b64_char(12) == standard_alphabet()[12]);
        } else if v == 13 {
            assert(b64_char(13) == standard_alphabet()[13]);
        } else if v == 14 {
            assert(b64_char(14) == standard_alphabet()[14]);
        } else if v == 15 {
            assert(b64_char(15) == standard_alphabet()[15]);
        } else if v == 16 {
            assert(b64_char(16) == standard_alphabet()[16]);
        } else if v == 17 {
            assert(b64_char(17) == standard_alphabet()[17]);
        } else if v == 18 {
            assert(b64_char(18) == standard_alphabet()[18]);
        } else if v == 19 {
            assert(b64_char(19) == standard_alphabet()[19]);
        } else if v == 20 {
            assert(b64_char(20) == standard_alphabet()[20]);
        } else if v == 21 {
            assert(b64_char(21) == standard_alphabet()[21]);
        } else if v == 22 {
            assert(b64_char(22) == standard_alphabet()[22]);
        } else if v == 23 {
            assert(b64_char(23) == standard_alphabet()[23]);
        } else if v == 24 {
            assert(b64_char(24) == standard_alphabet()[24]);
        } else if v == 25 {
            assert(b64_char(25) == standard_alphabet()[25]);
        } else if v == 26 {
            assert(b64_char(26) == standard_alphabet()[26]);
        } else if v == 27 {
            assert(b64_char(27) == standard_alphabet()[27]);
        } else if v == 28 {
            assert(b64_char(28) == standard_alphabet()[28]);
        } else if v == 29 {
            assert(b64_char(29) == standard_alphabet()[29]);
        } else if v == 30 {
            assert(b64_char(30) == standard_alphabet()[30]);
        } else if v == 31 {
            assert(b64_char(31) == standard_alphabet()[31]);
        } else if v == 32 {
            assert(b64_char(32) == standard_alphabet()[32]);
        } else if v == 33 {
            assert(b64_char(33) == standard_alphabet()[33]);
        } else if v == 34 {
            assert(b64_char(34) == standard_alphabet()[34]);
        } else if v == 35 {
            assert(b64_char(35) == standard_alphabet()[35]);
        } else if v == 36 {
            assert(b64_char(36) == standard_alphabet()[36]);
        } else if v == 37 {
            assert(b64_char(37) == standard_alphabet()[37]);
        } else if v == 38 {
            assert(b64_char(38) == standard_alphabet()[38]);
        } else if v == 39 {
            assert(b64_char(39) == standard_alphabet()[39]);
        } else if v == 40 {
            assert(b64_char(40) == standard_alphabet()[40]);
        } else if v == 41 {
            assert(b64_char(41) == standard_alphabet()[41]);
        } else if v == 42 {
            assert(b64_char(42) == standard_alphabet()[42]);
        } else if v == 43 {
            assert(b64_char(43) == standard_alphabet()[43]);
        } else if v == 44 {
            assert(b64_char(44) == standard_alphabet()[44]);
        } else if v == 45 {
            assert(b64_char(45) == standard_alphabet()[45]);
        } else if v == 46 {
            assert(b64_char(46) == standard_alphabet()[46]);
        } else if v == 47 {
            assert(b64_char(47) == standard_alphabet()[47]);
        } else if v == 48 {
            assert(b64_char(48) == standard_alphabet()[48]);
        } else if v == 49 {
            assert(b64_char(49) == standard_alphabet()[49]);
        } else if v == 50 {
            assert(b64_char(50) == standard_alphabet()[50]);
        } else if v == 51 {
            assert(b64_char(51) == standard_alphabet()[51]);
        } else if v == 52 {
            assert(b64_char(52) == standard_alphabet()[52]);
        } else if v == 53 {
            assert(b64_char(53) == standard_alphabet()[53]);
        } else if v == 54 {
            assert(b64_char(54) == standard_alphabet()[54]);
        } else if v == 55 {
            assert(b64_char(55) == standard_alphabet()[55]);
        } else if v == 56 {
            assert(b64_char(56) == standard_alphabet()[56]);
        } else if v == 57 {
            assert(b64_char(57) == standard_alphabet()[57]);
        } else if v == 58 {
            assert(b64_char(58) == standard_alphabet()[58]);
        } else if v == 59 {
            assert(b64_char(59) == standard_alphabet()[59]);
        } else if v == 60 {
            assert(b64_char(60) == standard_alphabet()[60]);
        } else if v == 61 {
            assert(b64_char(61) == standard_alphabet()[61]);
        } else if v == 62 {
            assert(b64_char(62) == standard_alphabet()[62]);
        } else if v == 63 {
            assert(b64_char(63) == standard_alphabet()[63]);
        }
}

/// Decoding reads each character of the standard alphabet back as its
/// position.
pub proof fn law_b64_value_reads_standard_alphabet(v: int)
    requires
        0 <= v < 64,
    ensures
        b64_value(low_byte(standard_alphabet()[v])) == Some(v as u8),
{
    law_b64_digit_is_standard_alphabet(v);
    let c = b64_char(v);
    if v < 26 {
        assert(c as u32 == 65 + v);
    } else if v < 52 {
        assert(c as u32 == 97 + v - 26);
    } else if v < 62 {
        assert(c as u32 == 48 + v - 52);
    } else if v == 62 {
        assert(c as u32 == 43);
    } else {
        assert(c as u32 == 47);
    }
}

/// The six-bit value of a base64 digit byte, if it is one.
pub open spec fn b64_value(b: u8) -> Option<u8> {
    if 65 <= b <= 90 {
        Some((b - 65) as u8)
    } else if 97 <= b <= 122 {
        Some((b - 97 + 26) as u8)
    } else if 48 <= b <= 57 {
        Some((b - 48 + 52) as u8)
    } else if b == 43 {
        Some(62u8)
    } else if b == 47 {
        Some(63u8)
    } else {
        None
    }
}

/// The low byte of a character's code point: what the decoder compares
/// against the alphabet.
pub open spec fn low_byte(c: char) -> u8 {
    ((c as u32) % 256) as u8
}

/// Standard base64 with `=` padding: each three bytes become four digits.
pub open spec fn b64_encode(b: Seq<u8>) -> Seq<char>
    decreases b.len(),
{
    if b.len() == 0 {
        Seq::empty()
    } else if b.len() == 1 {
        seq![b64_char((b[0] / 4) as int), b64_char((b[0] % 4) * 16), '=', '=']
    } else if b.len() == 2 {
        seq![
            b64_char((b[0] / 4) as int),
            b64_char((b[0] % 4) * 16 + b[1] / 16),
            b64_char((b[1] % 16) * 4),
            '=',
        ]
    } else {
        seq![
            b64_char((b[0] / 4) as int),
            b64_char((b[0] % 4) * 16 + b[1] / 16),
            b64_char((b[1] % 16) * 4 + b[2] / 64),
            b64_char((b[2] % 64) as int),
        ] + b64_encode(b.skip(3))
    }
}

/// `s` without its trailing `=` characters.
pub open spec fn trim_padding(s: Seq<char>) -> Seq<char>
    decreases s.len(),
{
    if s.len() > 0 && s.last() == '=' {
        trim_padding(s.drop_last())
    } else {
        s
    }
}

/// The six-bit values of the digits, or the first character that is no digit.
pub open spec fn sextets(t: Seq<char>) -> Result<Seq<u8>, char>
    decreases t.len(),
{
    if t.len() == 0 {
        Ok(Seq::empty())
    } else {
        match b64_value(low_byte(t[0])) {
            None => Err(t[0]),
            Some(v) => match sextets(t.drop_first()) {
                Ok(r) => Ok(seq![v] + r),
                Err(c) => Err(c),
            },
        }
    }
}

/// The bytes that six-bit values stand for: each four values give three
/// bytes; a final two give one byte and a final three give two.
pub open spec fn sextets_to_bytes(v: Seq<u8>) -> Seq<u8>
    decreases v.len(),
{
    if v.len() < 2 {
        Seq::empty()
    } else if v.len() == 2 {
        seq![(v[0] * 4 + v[1] / 16) as u8]
    } else if v.len() == 3 {
        seq![(v[0] * 4 + v[1] / 16) as u8, ((v[1] % 16) * 16 + v[2] / 4) as u8]
    } else {
        seq![
            (v[0] * 4 + v[1] / 16) as u8,
            ((v[1] % 16) * 16 + v[2] / 4) as u8,
            ((v[2] % 4) * 64 + v[3]) as u8,
        ] + sextets_to_bytes(v.skip(4))
    }
}

/// The text of the error for a character that is no base64 digit.
pub open spec fn invalid_base64_message(c: char) -> Seq<char> {
    "invalid base64 character: "@.push(c)
}

/// Base64 decoding: trailing `=` are dropped, then every character must be
/// a digit (compared by the low byte of its code point).
pub open spec fn b64_decode(s: Seq<char>) -> Result<Seq<u8>, Seq<char>> {
    match sextets(trim_padding(s)) {
        Ok(v) => Ok(sextets_to_bytes(v)),
        Err(c) => Err(invalid_base64_message(c)),
    }
}

fn b64_digit(v: u32) -> (c: char)
    requires
        v < 64,
    ensures
        c == b64_char(v as int),
{
    if v < 26 {
        (65 + v) as u8 as char
    } else if v < 52 {
        (97 + v - 26) as u8 as char
    } else if v < 62 {
        (48 + v - 52) as u8 as char
    } else if v == 62 {
        '+'
    } else {
        '/'
    }
}

fn b64_digit_value(c: char) -> (r: Option<u32>)
    ensures
        match b64_value(low_byte(c)) {
            Some(v) => r == Some(v as u32),
            None => r is None,
        },
{
    let b = ((c as u32) % 256) as u8;
    if 65 <= b && b <= 90 {
        Some((b - 65) as u32)
    } else if 97 <= b && b <= 122 {
        Some((b - 97 + 26) as u32)
    } else if 48 <= b && b <= 57 {
        Some((b - 48 + 52) as u32)
    } else if b == 43 {
        Some(62)
    } else if b == 47 {
        Some(63)
    } else {
        None
    }
}

/// Base64 encoding with `=` padding.
pub fn base64_encode(bytes: &[u8]) -> (r: String)
    ensures
        r@ == b64_encode(bytes@),
{
    let mut out: Vec<char> = Vec::new();
    let n = bytes.len();
    let mut i: usize = 0;
    proof {
        assert(bytes@.skip(0) =~= bytes@);
        assert(out@ + b64_encode(bytes@) =~= b64_encode(bytes@));
    }
    while i < n
        invariant
            i <= n,
            n == bytes@.len(),
            b64_encode(bytes@) == out@ + b64_encode(bytes@.skip(i as int)),
        decreases n - i,
    {
        let ghost rest = bytes@.skip(i as int);
        let ghost before = out@;
        let b0 = bytes[i] as u32;
        let b1: u32 = if n - i > 1 {
            bytes[i + 1] as u32
        } else {
            0
        };
        let b2: u32 = if n - i > 2 {
            bytes[i + 2] as u32
        } else {
            0
        };
        let combined = (b0 << 16) | (b1 << 8) | b2;
        assert(((combined >> 18) & 0x3F) == b0 / 4 && ((combined >> 12) & 0x3F) == (b0 % 4) * 16
            + b1 / 16 && ((combined >> 6) & 0x3F) == (b1 % 16) * 4 + b2 / 64 && (combined & 0x3F)
            == b2 % 64) by (bit_vector)
            requires
                b0 < 256 && b1 < 256 && b2 < 256 && combined == (b0 << 16) | (b1 << 8) | b2,
        ;
        let c0 = b64_digit((combined >> 18) & 0x3F);
        let c1 = b64_digit((combined >> 12) & 0x3F);
        let c2 = if n - i > 1 {
            b64_digit((combined >> 6) & 0x3F)
        } else {
            '='
        };
        let c3 = if n - i > 2 {
            b64_digit(combined & 0x3F)
        } else {
            '='
        };
        out.push(c0);
        out.push(c1);
        out.push(c2);
        out.push(c3);
        let next: usize = if n - i > 3 {
            i + 3
        } else {
            n
        };
        proof {
            assert(rest[0] == bytes@[i as int]);
            assert(out@ =~= before + seq![c0, c1, c2, c3]);
            if n - i == 1 {
                assert(rest.len() == 1);
                assert(b64_encode(rest) == seq![c0, c1, c2, c3]);
            } else if n - i == 2 {
                assert(rest[1] == bytes@[i + 1]);
                assert(rest.len() == 2);
                assert(b64_encode(rest) == seq![c0, c1, c2, c3]);
            } else {
                assert(rest[1] == bytes@[i + 1]);
                assert(rest[2] == bytes@[i + 2]);
                assert(b64_encode(rest) == seq![c0, c1, c2, c3] + b64_encode(rest.skip(3)));
                if n - i > 3 {
                    assert(rest.skip(3) =~= bytes@.skip(i + 3));
                } else {
                    assert(rest.skip(3) =~= Seq::<u8>::empty());
                }
            }
            assert(bytes@.skip(n as int) =~= Seq::<u8>::empty());
            assert(b64_encode(Seq::<u8>::empty()) =~= Seq::<char>::empty());
            assert(b64_encode(bytes@) =~= out@ + b64_encode(bytes@.skip(next as int)));
        }
        i = next;
    }
    proof {
        assert(bytes@.skip(n as int) =~= Seq::<u8>::empty());
        assert(out@ + Seq::<char>::empty() =~= out@);
    }
    string_of(&out)
}

/// Decoding the values of a whole number of groups, then more values,
/// decodes each part.
pub proof fn lemma_sextets_to_bytes_concat(a: Seq<u8>, b: Seq<u8>)
    requires
        a.len() % 4 == 0,
    ensures
        sextets_to_bytes(a + b) == sextets_to_bytes(a) + sextets_to_bytes(b),
    decreases a.len(),
{
    if a.len() == 0 {
        assert(a + b =~= b);
        assert(sextets_to_bytes(a) =~= Seq::<u8>::empty());
        assert(Seq::<u8>::empty() + sextets_to_bytes(b) =~= sextets_to_bytes(b));
    } else {
        lemma_sextets_to_bytes_concat(a.skip(4), b);
        assert((a + b).skip(4) =~= a.skip(4) + b);
        assert((a + b)[0] == a[0] && (a + b)[1] == a[1] && (a + b)[2] == a[2] && (a + b)[3]
            == a[3]);
        assert(sextets_to_bytes(a + b) =~= sextets_to_bytes(a) + sextets_to_bytes(b));
    }
}

/// Extending a valid prefix by one character: a digit extends the values,
/// any other character is the first error.
pub proof fn lemma_sextets_step(t: Seq<char>, i: int, vp: Seq<u8>)
    requires
        0 <= i < t.len(),
        sextets(t.take(i)) == Ok::<Seq<u8>, char>(vp),
    ensures
        match b64_value(low_byte(t[i])) {
            Some(v) => sextets(t.take(i + 1)) == Ok::<Seq<u8>, char>(vp.push(v)),
            None => sextets(t) == Err::<Seq<u8>, char>(t[i]),
        },
    decreases i,
{
    if i == 0 {
        assert(t.take(1).drop_first() =~= Seq::<char>::empty());
        assert(t.take(1)[0] == t[0]);
        assert(sextets(Seq::<char>::empty()) == Ok::<Seq<u8>, char>(Seq::empty()));
        assert(t.take(0) =~= Seq::<char>::empty());
        assert(vp =~= Seq::<u8>::empty());
        match b64_value(low_byte(t[0])) {
            Some(v) => {
                assert(seq![v] + Seq::<u8>::empty() =~= vp.push(v));
                assert(sextets(t.take(1)) == Ok::<Seq<u8>, char>(seq![v] + Seq::<u8>::empty()));
            },
            None => {},
        }
    } else {
        let u = t.drop_first();
        let tt = t.take(i);
        assert(tt[0] == t[0]);
        assert(tt.drop_first() =~= u.take(i - 1));
        let v0 = b64_value(low_byte(t[0]))->Some_0;
        assert(b64_value(low_byte(t[0])) is Some);
        let vq = vp.drop_first();
        match sextets(u.take(i - 1)) {
            Ok(r) => {
                assert(vp == seq![v0] + r);
                assert(vq =~= r);
            },
            Err(_) => {
                assert(false);
            },
        }
        lemma_sextets_step(u, i - 1, vq);
        assert(u[i - 1] == t[i]);
        let t1 = t.take(i + 1);
        assert(t1[0] == t[0]);
        assert(t1.drop_first() =~= u.take(i));
        assert(vp =~= seq![v0] + vq);
        match b64_value(low_byte(t[i])) {
            Some(v) => {
                assert(seq![v0] + vq.push(v) =~= vp.push(v));
                assert(sextets(t1) == Ok::<Seq<u8>, char>(seq![v0] + vq.push(v)));
            },
            None => {
                assert(sextets(u) == Err::<Seq<u8>, char>(t[i]));
                assert(t.drop_first() == u);
                assert(sextets(t) == Err::<Seq<u8>, char>(t[i]));
            },
        }
    }
}

/// Appending one value to an incomplete group of values adds the byte that
/// the value completes, if any.
pub proof fn lemma_group_push(g: Seq<u8>, v: u8)
    requires
        g.len() < 4,
        v < 64,
    ensures
        g.len() == 0 ==> sextets_to_bytes(g.push(v)) == sextets_to_bytes(g),
        g.len() == 1 ==> sextets_to_bytes(g.push(v)) == sextets_to_bytes(g).push(
            (g[0] * 4 + v / 16) as u8,
        ),
        g.len() == 2 ==> sextets_to_bytes(g.push(v)) == sextets_to_bytes(g).push(
            ((g[1] % 16) * 16 + v / 4) as u8,
        ),
        g.len() == 3 ==> sextets_to_bytes(g.push(v)) == sextets_to_bytes(g).push(
            ((g[2] % 4) * 64 + v) as u8,
        ),
{
    let h = g.push(v);
    if g.len() == 3 {
        assert(h.skip(4) =~= Seq::<u8>::empty());
        assert(sextets_to_bytes(Seq::<u8>::empty()) =~= Seq::<u8>::empty());
        assert(sextets_to_bytes(h) =~= sextets_to_bytes(g).push(((g[2] % 4) * 64 + v) as u8));
    } else if g.len() == 2 {
        assert(sextets_to_bytes(h) =~= sextets_to_bytes(g).push(((g[1] % 16) * 16 + v / 4) as u8));
    } else if g.len() == 1 {
        assert(sextets_to_bytes(h) =~= sextets_to_bytes(g).push((g[0] * 4 + v / 16) as u8));
    } else {
        assert(sextets_to_bytes(h) =~= sextets_to_bytes(g));
    }
}

/// Base64 decoding; trailing `=` are ignored, and the first character that
/// is no digit is reported.
pub fn base64_decode(s: &str) -> (r: Result<Vec<u8>, String>)
    ensures
        match r {
            Ok(v) => b64_decode(s@) == Ok::<Seq<u8>, Seq<char>>(v@),
            Err(m) => b64_decode(s@) == Err::<Seq<u8>, Seq<char>>(m@),
        },
{
    let chars = chars_of(s);
    let mut end = chars.len();
    proof {
        assert(chars@.take(chars@.len() as int) =~= chars@);
    }
    while end > 0 && chars[end - 1] == '='
        invariant
            end <= chars@.len(),
            trim_padding(chars@) == trim_padding(chars@.take(end as int)),
        decreases end,
    {
        proof {
            assert(chars@.take(end as int).drop_last() =~= chars@.take(end - 1));
        }
        end = end - 1;
    }
    let ghost t = chars@.take(end as int);
    proof {
        assert(trim_padding(t) == t);
        assert(t.take(0) =~= Seq::<char>::empty());
        assert(Seq::<u8>::empty().skip(0) =~= Seq::<u8>::empty());
        assert(Seq::<u8>::empty().take(0) =~= Seq::<u8>::empty());
    }
    let mut bits: u32 = 0;
    let mut bit_count: u32 = 0;
    let mut out: Vec<u8> = Vec::new();
    let ghost mut vals: Seq<u8> = Seq::empty();
    let mut i: usize = 0;
    while i < end
        invariant
            i <= end,
            end <= chars@.len(),
            t == chars@.take(end as int),
            trim_padding(chars@) == t,
            chars@ == s@,
            sextets(t.take(i as int)) == Ok::<Seq<u8>, char>(vals),
            vals.len() == i,
            decode_state(vals, out@, bits, bit_count),
        decreases end - i,
    {
        let ch = chars[i];
        proof {
            assert(t[i as int] == ch);
            lemma_sextets_step(t, i as int, vals);
        }
        let val = match b64_digit_value(ch) {
            Some(v) => v,
            None => {
                let mut msg = String::from_str("invalid base64 character: ");
                push_char(&mut msg, ch);
                proof {
                    reveal_strlit("invalid base64 character: ");
                }
                return Err(msg);
            },
        };
        let ghost old_out = out@;
        let ghost old_bits = bits;
        let ghost old_count = bit_count;
        bits = (bits << 6) | val;
        bit_count = bit_count + 6;
        if bit_count >= 8 {
            bit_count = bit_count - 8;
            let byte = ((bits >> bit_count) & 0xFF) as u8;
            out.push(byte);
        }
        proof {
            lemma_decode_step(vals, old_out, old_bits, old_count, val, out@, bits, bit_count);
            vals = vals.push(val as u8);
        }
        i = i + 1;
    }
    proof {
        assert(t.take(end as int) =~= t);
        let j = (i % 4) as int;
        lemma_sextets_to_bytes_concat(vals.take(i - j), vals.skip(i - j));
        assert(vals.take(i - j) + vals.skip(i - j) =~= vals);
    }
    Ok(out)
}

/// The state of the decoder after some values: the bytes of every complete
/// group and of the incomplete one are out, and the bits that the next byte
/// still needs are the low bits of the accumulator.
pub open spec fn decode_state(vals: Seq<u8>, out: Seq<u8>, bits: u32, bit_count: u32) -> bool {
    let n = vals.len() as int;
    let j = n % 4;
    let g = vals.skip(n - j);
    &&& out == sextets_to_bytes(vals.take(n - j)) + sextets_to_bytes(g)
    &&& j == 0 ==> bit_count == 0
    &&& j == 1 ==> bit_count == 6 && (bits & 63) == g[0]
    &&& j == 2 ==> bit_count == 4 && (bits & 15) == g[1] % 16
    &&& j == 3 ==> bit_count == 2 && (bits & 3) == g[2] % 4
}

/// One step of the decoder keeps its state.
pub proof fn lemma_decode_step(
    vals: Seq<u8>,
    out: Seq<u8>,
    bits: u32,
    bit_count: u32,
    v: u32,
    out2: Seq<u8>,
    bits2: u32,
    bit_count2: u32,
)
    requires
        decode_state(vals, out, bits, bit_count),
        v < 64,
        bits2 == (bits << 6) | v,
        bit_count + 6 >= 8 ==> bit_count2 == bit_count + 6 - 8 && out2 == out.push(
            ((bits2 >> bit_count2) & 0xFF) as u8,
        ),
        bit_count + 6 < 8 ==> bit_count2 == bit_count + 6 && out2 == out,
    ensures
        decode_state(vals.push(v as u8), out2, bits2, bit_count2),
{
    let n = vals.len() as int;
    let j = n % 4;
    let g = vals.skip(n - j);
    let nv = vals.push(v as u8);
    let ob = bits;
    let nb = bits2;
    assert(nv.take(n - j) =~= vals.take(n - j));
    assert(nv.skip(n - j) =~= g.push(v as u8));
    lemma_group_push(g, v as u8);
    if j == 0 {
        assert((nb & 63) == v) by (bit_vector)
            requires
                v < 64 && nb == (ob << 6) | v,
        ;
    } else if j == 1 {
        assert(((nb >> 4) & 0xFF) == (ob & 63) * 4 + v / 16 && (nb & 15) == v % 16) by (bit_vector)
            requires
                v < 64 && nb == (ob << 6) | v,
        ;
    } else if j == 2 {
        assert(((nb >> 2) & 0xFF) == (ob & 15) * 16 + v / 4 && (nb & 3) == v % 4) by (bit_vector)
            requires
                v < 64 && nb == (ob << 6) | v,
        ;
    } else {
        assert(((nb >> 0) & 0xFF) == (ob & 3) * 64 + v) by (bit_vector)
            requires
                v < 64 && nb == (ob << 6) | v,
        ;
        let gg = g.push(v as u8);
        assert(nv.take(n + 1) =~= vals.take(n - j) + gg);
        lemma_sextets_to_bytes_concat(vals.take(n - j), gg);
        assert(nv.skip(n + 1) =~= Seq::<u8>::empty());
        assert(sextets_to_bytes(Seq::<u8>::empty()) =~= Seq::<u8>::empty());
        assert(out2 =~= sextets_to_bytes(nv.take(n + 1)) + sextets_to_bytes(nv.skip(n + 1)));
    }
}

/// The six-bit values that encoding writes, padding left out.
pub open spec fn b64_sextets(b: Seq<u8>) -> Seq<u8>
    decreases b.len(),
{
    if b.len() == 0 {
        Seq::empty()
    } else if b.len() == 1 {
        seq![(b[0] / 4) as u8, ((b[0] % 4) * 16) as u8]
    } else if b.len() == 2 {
        seq![(b[0] / 4) as u8, ((b[0] % 4) * 16 + b[1] / 16) as u8, ((b[1] % 16) * 4) as u8]
    } else {
        seq![
            (b[0] / 4) as u8,
            ((b[0] % 4) * 16 + b[1] / 16) as u8,
            ((b[1] % 16) * 4 + b[2] / 64) as u8,
            (b[2] % 64) as u8,
        ] + b64_sextets(b.skip(3))
    }
}

/// The digits of six-bit values.
pub open spec fn digits_of(v: Seq<u8>) -> Seq<char> {
    v.map_values(|x: u8| b64_char(x as int))
}

/// The padding that encoding adds after `n` bytes.
pub open spec fn b64_padding(n: nat) -> Seq<char> {
    if n % 3 == 1 {
        seq!['=', '=']
    } else if n % 3 == 2 {
        seq!['=']
    } else {
        Seq::empty()
    }
}

/// A digit decodes to its value, and no digit is `=`.
pub proof fn lemma_digit_value(v: int)
    requires
        0 <= v < 64,
    ensures
        b64_value(low_byte(b64_char(v))) == Some(v as u8),
        b64_char(v) != '=',
{
    let c = b64_char(v);
    assert(low_byte(c) == (c as u32) as u8);
}

/// Every value that encoding writes is below 64.
pub proof fn lemma_sextets_small(b: Seq<u8>)
    ensures
        forall|k: int| 0 <= k < b64_sextets(b).len() ==> b64_sextets(b)[k] < 64,
    decreases b.len(),
{
    if b.len() >= 3 {
        lemma_sextets_small(b.skip(3));
        let r = b64_sextets(b.skip(3));
        let h = b64_sextets(b);
        assert forall|k: int| 0 <= k < h.len() implies h[k] < 64 by {
            if k >= 4 {
                assert(h[k] == r[k - 4]);
            }
        }
    }
}

/// Encoding writes the digits of its values, then the padding.
pub proof fn lemma_encode_digits(b: Seq<u8>)
    ensures
        b64_encode(b) == digits_of(b64_sextets(b)) + b64_padding(b.len()),
    decreases b.len(),
{
    if b.len() >= 3 {
        lemma_encode_digits(b.skip(3));
        let r = b64_sextets(b.skip(3));
        let g = seq![
            (b[0] / 4) as u8,
            ((b[0] % 4) * 16 + b[1] / 16) as u8,
            ((b[1] % 16) * 4 + b[2] / 64) as u8,
            (b[2] % 64) as u8,
        ];
        assert(digits_of(g + r) =~= digits_of(g) + digits_of(r));
        assert((b.len() as nat) % 3 == (b.skip(3).len() as nat) % 3);
        assert(b64_encode(b) =~= digits_of(b64_sextets(b)) + b64_padding(b.len()));
    } else if b.len() == 2 {
        assert(b64_encode(b) =~= digits_of(b64_sextets(b)) + b64_padding(b.len()));
    } else if b.len() == 1 {
        assert(b64_encode(b) =~= digits_of(b64_sextets(b)) + b64_padding(b.len()));
    } else {
        assert(b64_encode(b) =~= digits_of(b64_sextets(b)) + b64_padding(b.len()));
    }
}

/// The digits of small values read back as those values.
pub proof fn lemma_sextets_of_digits(v: Seq<u8>)
    requires
        forall|k: int| 0 <= k < v.len() ==> v[k] < 64,
    ensures
        sextets(digits_of(v)) == Ok::<Seq<u8>, char>(v),
    decreases v.len(),
{
    let d = digits_of(v);
    if v.len() == 0 {
        assert(d =~= Seq::<char>::empty());
        assert(v =~= Seq::<u8>::empty());
    } else {
        lemma_digit_value(v[0] as int);
        assert(d[0] == b64_char(v[0] as int));
        assert(d.drop_first() =~= digits_of(v.drop_first()));
        lemma_sextets_of_digits(v.drop_first());
        assert(seq![v[0]] + v.drop_first() =~= v);
        assert(sextets(d) == Ok::<Seq<u8>, char>(seq![v[0]] + v.drop_first()));
    }
}

/// Dropping the padding leaves the digits.
pub proof fn lemma_trim_padding(d: Seq<char>, n: nat)
    requires
        d.len() > 0 ==> d.last() != '=',
    ensures
        trim_padding(d + b64_padding(n)) == d,
{
    let p = b64_padding(n);
    assert(trim_padding(d) == d);
    if n % 3 == 1 {
        assert((d + p).drop_last() =~= d + seq!['=']);
        assert((d + seq!['=']).drop_last() =~= d);
        assert((d + p).last() == '=');
        assert((d + seq!['=']).last() == '=');
        assert(trim_padding(d + seq!['=']) == trim_padding(d));
        assert(trim_padding(d + p) == trim_padding(d + seq!['=']));
    } else if n % 3 == 2 {
        assert((d + p).drop_last() =~= d);
        assert((d + p).last() == '=');
    } else {
        assert(d + p =~= d);
    }
}

/// Decoding the values that encoding writes gives the bytes back.
pub proof fn lemma_sextets_to_bytes_inverse(b: Seq<u8>)
    ensures
        sextets_to_bytes(b64_sextets(b)) == b,
    decreases b.len(),
{
    if b.len() == 0 {
        assert(sextets_to_bytes(b64_sextets(b)) =~= b);
    } else if b.len() == 1 {
        let b0 = b[0];
        assert((b0 / 4) * 4 + ((b0 % 4) * 16) / 16 == b0) by (bit_vector);
        assert(sextets_to_bytes(b64_sextets(b)) =~= b);
    } else if b.len() == 2 {
        let b0 = b[0];
        let b1 = b[1];
        assert((b0 / 4) * 4 + ((b0 % 4) * 16 + b1 / 16) / 16 == b0) by (bit_vector);
        assert(((((b0 % 4) * 16 + b1 / 16) % 16) * 16 + ((b1 % 16) * 4) / 4) == b1) by (
        bit_vector);
        assert(sextets_to_bytes(b64_sextets(b)) =~= b);
    } else {
        let b0 = b[0];
        let b1 = b[1];
        let b2 = b[2];
        assert((b0 / 4) * 4 + ((b0 % 4) * 16 + b1 / 16) / 16 == b0) by (bit_vector);
        assert(((((b0 % 4) * 16 + b1 / 16) % 16) * 16 + ((b1 % 16) * 4 + b2 / 64) / 4) == b1)
            by (bit_vector);
        assert(((((b1 % 16) * 4 + b2 / 64) % 4) * 64 + b2 % 64) == b2) by (bit_vector);
        let v = b64_sextets(b);
        lemma_sextets_to_bytes_inverse(b.skip(3));
        assert(v.skip(4) =~= b64_sextets(b.skip(3)));
        assert(sextets_to_bytes(v) =~= b);
    }
}

/// Decoding what encoding wrote gives the bytes back.
pub proof fn law_base64_roundtrip(b: Seq<u8>)
    ensures
        b64_decode(b64_encode(b)) == Ok::<Seq<u8>, Seq<char>>(b),
{
    let v = b64_sextets(b);
    let d = digits_of(v);
    lemma_encode_digits(b);
    lemma_sextets_small(b);
    if d.len() > 0 {
        lemma_digit_value(v[v.len() - 1] as int);
    }
    lemma_trim_padding(d, b.len());
    lemma_sextets_of_digits(v);
    lemma_sextets_to_bytes_inverse(b);
}

/// Whether a character is a digit of the standard base64 alphabet.
pub open spec fn b64_alphabet(c: char) -> bool {
    ('A' <= c <= 'Z') || ('a' <= c <= 'z') || ('0' <= c <= '9') || c == '+' || c == '/'
}

proof fn lemma_b64_char_in_alphabet(v: int)
    requires
        0 <= v < 64,
    ensures
        b64_alphabet(b64_char(v)),
{
}

/// Encoding `n` bytes gives `4 * ceil(n / 3)` characters, each a digit of
/// the alphabet except for at most two `=` of padding at the end.
pub proof fn law_base64_shape(b: Seq<u8>)
    ensures
        b64_encode(b).len() == 4 * ((b.len() + 2) / 3),
        forall|i: int|
            0 <= i < b64_encode(b).len() ==> (b64_alphabet(#[trigger] b64_encode(b)[i]) || (
            b64_encode(b)[i] == '=' && i >= b64_encode(b).len() - 2)),
    decreases b.len(),
{
    if b.len() == 0 {
    } else if b.len() == 1 {
        lemma_b64_char_in_alphabet((b[0] / 4) as int);
        lemma_b64_char_in_alphabet((b[0] % 4) * 16);
    } else if b.len() == 2 {
        lemma_b64_char_in_alphabet((b[0] / 4) as int);
        lemma_b64_char_in_alphabet((b[0] % 4) * 16 + b[1] / 16);
        lemma_b64_char_in_alphabet((b[1] % 16) * 4);
    } else {
        law_base64_shape(b.skip(3));
        lemma_b64_char_in_alphabet((b[0] / 4) as int);
        lemma_b64_char_in_alphabet((b[0] % 4) * 16 + b[1] / 16);
        lemma_b64_char_in_alphabet((b[1] % 16) * 4 + b[2] / 64);
        lemma_b64_char_in_alphabet((b[2] % 64) as int);
        let head = seq![
            b64_char((b[0] / 4) as int),
            b64_char((b[0] % 4) * 16 + b[1] / 16),
            b64_char((b[1] % 16) * 4 + b[2] / 64),
            b64_char((b[2] % 64) as int),
        ];
        let rest = b64_encode(b.skip(3));
        assert(b64_encode(b) == head + rest);
        assert forall|i: int| 0 <= i < b64_encode(b).len() implies (b64_alphabet(
            #[trigger] b64_encode(b)[i],
        ) || (b64_encode(b)[i] == '=' && i >= b64_encode(b).len() - 2)) by {
            if i >= 4 {
                assert(b64_encode(b)[i] == rest[i - 4]);
            }
        }
    }
}

// ---------------------------------------------------------------- digests

/// The lowercase hexadecimal digit of a value below sixteen.
pub open spec fn hex_digit(d: int) -> char {
    if d < 10 {
        (48 + d) as char
    } else {
        (87 + d) as char
    }
}

/// Two lowercase hexadecimal digits per byte, most significant first.
pub open spec fn hex_bytes(b: Seq<u8>) -> Seq<char>
    decreases b.len(),
{
    if b.len() == 0 {
        Seq::empty()
    } else {
        hex_bytes(b.drop_last()) + seq![hex_digit((b.last() / 16) as int), hex_digit((b.last() % 16) as int)]
    }
}

fn hex_char(d: u8) -> (c: char)
    requires
        d < 16,
    ensures
        c == hex_digit(d as int),
{
    if d < 10 {
        (48 + d) as char
    } else {
        (87 + d) as char
    }
}

/// The lowercase hexadecimal text of some bytes.
pub fn hex_string(b: &Vec<u8>) -> (r: String)
    ensures
        r@ == hex_bytes(b@),
{
    let mut out: Vec<char> = Vec::new();
    let mut i: usize = 0;
    while i < b.len()
        invariant
            i <= b@.len(),
            out@ == hex_bytes(b@.take(i as int)),
        decreases b.len() - i,
    {
        let x = b[i];
        out.push(hex_char(x / 16));
        out.push(hex_char(x % 16));
        proof {
            assert(b@.take(i + 1).drop_last() =~= b@.take(i as int));
            assert(b@.take(i + 1).last() == x);
        }
        i += 1;
    }
    proof {
        assert(b@.take(b@.len() as int) =~= b@);
    }
    string_of(&out)
}

/// The MD5 digest of some bytes.
pub uninterp spec fn md5_of(data: Seq<u8>) -> Seq<u8>;

/// The SHA-1 digest of some bytes.
pub uninterp spec fn sha1_of(data: Seq<u8>) -> Seq<u8>;

/// The SHA-256 digest of some bytes.
pub uninterp spec fn sha256_of(data: Seq<u8>) -> Seq<u8>;

/// The SHA-512 digest of some bytes.
pub uninterp spec fn sha512_of(data: Seq<u8>) -> Seq<u8>;

/// The SHA3-256 digest of some bytes.
pub uninterp spec fn sha3_256_of(data: Seq<u8>) -> Seq<u8>;

/// Calls `md5::compute`: its result is the 16-byte MD5 digest of the data.
#[verifier::external_body]
fn md5_digest(data: &[u8]) -> (d: Vec<u8>)
    ensures
        d@ == md5_of(data@),
        d@.len() == 16,
{
    md5::compute(data).0.to_vec()
}

/// Calls `sha1::Sha1::digest`: its result is the 20-byte SHA-1 digest of the data.
#[verifier::external_body]
fn sha1_digest(data: &[u8]) -> (d: Vec<u8>)
    ensures
        d@ == sha1_of(data@),
        d@.len() == 20,
{
    <sha1::Sha1 as sha1::Digest>::digest(data).as_slice().to_vec()
}

/// Calls `sha2::Sha256::digest`: its result is the 32-byte SHA-256 digest of the data.
#[verifier::external_body]
fn sha256_digest(data: &[u8]) -> (d: Vec<u8>)
    ensures
        d@ == sha256_of(data@),
        d@.len() == 32,
{
    <sha2::Sha256 as sha2::Digest>::digest(data).as_slice().to_vec()
}

/// Calls `sha2::Sha512::digest`: its result is the 64-byte SHA-512 digest of the data.
#[verifier::external_body]
fn sha512_digest(data: &[u8]) -> (d: Vec<u8>)
    ensures
        d@ == sha512_of(data@),
        d@.len() == 64,
{
    <sha2::Sha512 as sha2::Digest>::digest(data).as_slice().to_vec()
}

/// Calls `sha3::Sha3_256::digest`: its result is the 32-byte SHA3-256 digest of the data.
#[verifier::external_body]
fn sha3_256_digest(data: &[u8]) -> (d: Vec<u8>)
    ensures
        d@ == sha3_256_of(data@),
        d@.len() == 32,
{
    <sha3::Sha3_256 as sha3::Digest>::digest(data).as_slice().to_vec()
}

/// `std.md5`: the MD5 digest of the UTF-8 bytes of a string, in lowercase hex.
pub fn md5_hex(s: &str) -> (r: String)
    ensures
        r@ == hex_bytes(md5_of(s.spec_bytes())),
        r@.len() == 32,
{
    let d = md5_digest(s.as_bytes());
    let r = hex_string(&d);
    proof {
        lemma_hex_bytes_len(d@);
    }
    r
}

/// `std.sha1`: the SHA-1 digest of the UTF-8 bytes of a string, in lowercase hex.
pub fn sha1_hex(s: &str) -> (r: String)
    ensures
        r@ == hex_bytes(sha1_of(s.spec_bytes())),
        r@.len() == 40,
{
    let d = sha1_digest(s.as_bytes());
    let r = hex_string(&d);
    proof {
        lemma_hex_bytes_len(d@);
    }
    r
}

/// `std.sha256`: the SHA-256 digest of the UTF-8 bytes of a string, in lowercase hex.
pub fn sha256_hex(s: &str) -> (r: String)
    ensures
        r@ == hex_bytes(sha256_of(s.spec_bytes())),
        r@.len() == 64,
{
    let d = sha256_digest(s.as_bytes());
    let r = hex_string(&d);
    proof {
        lemma_hex_bytes_len(d@);
    }
    r
}

/// `std.sha512`: the SHA-512 digest of the UTF-8 bytes of a string, in lowercase hex.
pub fn sha512_hex(s: &str) -> (r: String)
    ensures
        r@ == hex_bytes(sha512_of(s.spec_bytes())),
        r@.len() == 128,
{
    let d = sha512_digest(s.as_bytes());
    let r = hex_string(&d);
    proof {
        lemma_hex_bytes_len(d@);
    }
    r
}

/// `std.sha3`: the SHA3-256 digest of the UTF-8 bytes of a string, in lowercase hex.
pub fn sha3_hex(s: &str) -> (r: String)
    ensures
        r@ == hex_bytes(sha3_256_of(s.spec_bytes())),
        r@.len() == 64,
{
    let d = sha3_256_digest(s.as_bytes());
    let r = hex_string(&d);
    proof {
        lemma_hex_bytes_len(d@);
    }
    r
}

/// Hex text has two digits per byte.
pub proof fn lemma_hex_bytes_len(b: Seq<u8>)
    ensures
        hex_bytes(b).len() == 2 * b.len(),
    decreases b.len(),
{
    if b.len() > 0 {
        lemma_hex_bytes_len(b.drop_last());
    }
}


// ---------------------------------------------------------------- `%` formatting

/// `n` copies of a character.
pub open spec fn repeat_char(c: char, n: nat) -> Seq<char> {
    Seq::new(n, |_i: int| c)
}

/// The index of the first occurrence of `c` in `s`, if any.
pub open spec fn find_char(s: Seq<char>, c: char) -> Option<int>
    decreases s.len(),
{
    if s.len() == 0 {
        None
    } else if s[0] == c {
        Some(0)
    } else {
        match find_char(s.drop_first(), c) {
            Some(k) => Some(k + 1),
            None => None,
        }
    }
}

/// `s` without its trailing copies of `c`.
pub open spec fn trim_end_char(s: Seq<char>, c: char) -> Seq<char>
    decreases s.len(),
{
    if s.len() > 0 && s.last() == c {
        trim_end_char(s.drop_last(), c)
    } else {
        s
    }
}

/// The first occurrence of a character is where the scan stops.
pub proof fn lemma_find_char(s: Seq<char>, c: char, i: int)
    requires
        0 <= i <= s.len(),
        forall|j: int| 0 <= j < i ==> s[j] != c,
    ensures
        i < s.len() && s[i] == c ==> find_char(s, c) == Some(i),
        i == s.len() ==> find_char(s, c) is None,
    decreases i,
{
    if i > 0 {
        lemma_find_char(s.drop_first(), c, i - 1);
    } else if s.len() > 0 && s[0] != c {
    }
}

/// Finds the first occurrence of a character.
pub fn find_first(s: &Vec<char>, c: char) -> (r: Option<usize>)
    ensures
        match find_char(s@, c) {
            Some(k) => r == Some(k as usize) && 0 <= k < s@.len() && s@[k] == c,
            None => r is None,
        },
{
    let mut i: usize = 0;
    while i < s.len()
        invariant
            i <= s@.len(),
            forall|j: int| 0 <= j < i ==> s@[j] != c,
        decreases s.len() - i,
    {
        if s[i] == c {
            proof {
                lemma_find_char(s@, c, i as int);
            }
            return Some(i);
        }
        i += 1;
    }
    proof {
        lemma_find_char(s@, c, i as int);
    }
    None
}

/// Whether a character occurs.
pub fn has_char(s: &Vec<char>, c: char) -> (r: bool)
    ensures
        r == s@.contains(c),
{
    let mut i: usize = 0;
    while i < s.len()
        invariant
            i <= s@.len(),
            forall|j: int| 0 <= j < i ==> s@[j] != c,
        decreases s.len() - i,
    {
        if s[i] == c {
            proof {
                assert(s@[i as int] == c);
            }
            return true;
        }
        i += 1;
    }
    false
}

/// Removes the trailing copies of a character.
pub fn trim_end(s: &Vec<char>, c: char) -> (r: Vec<char>)
    ensures
        r@ == trim_end_char(s@, c),
{
    let mut end = s.len();
    proof {
        assert(s@.take(s@.len() as int) =~= s@);
    }
    while end > 0 && s[end - 1] == c
        invariant
            end <= s@.len(),
            trim_end_char(s@, c) == trim_end_char(s@.take(end as int), c),
        decreases end,
    {
        proof {
            assert(s@.take(end as int).drop_last() =~= s@.take(end - 1));
        }
        end = end - 1;
    }
    slice_chars(s, 0, end)
}

/// The characters from `from` up to `to`.
pub fn slice_chars(s: &Vec<char>, from: usize, to: usize) -> (r: Vec<char>)
    requires
        from <= to <= s@.len(),
    ensures
        r@ == s@.subrange(from as int, to as int),
{
    let mut r: Vec<char> = Vec::new();
    let mut i = from;
    while i < to
        invariant
            from <= i <= to,
            to <= s@.len(),
            r@ == s@.subrange(from as int, i as int),
        decreases to - i,
    {
        r.push(s[i]);
        proof {
            assert(s@.subrange(from as int, i + 1) =~= s@.subrange(from as int, i as int).push(
                s@[i as int],
            ));
        }
        i += 1;
    }
    r
}

/// Appends the characters of `b` to `a`.
pub fn extend_chars(a: &mut Vec<char>, b: &Vec<char>)
    ensures
        final(a)@ == old(a)@ + b@,
{
    let mut i: usize = 0;
    while i < b.len()
        invariant
            i <= b@.len(),
            a@ == old(a)@ + b@.take(i as int),
        decreases b.len() - i,
    {
        a.push(b[i]);
        proof {
            assert(b@.take(i + 1) =~= b@.take(i as int).push(b@[i as int]));
        }
        i += 1;
    }
    proof {
        assert(b@.take(b@.len() as int) =~= b@);
    }
}

/// Appends `n` copies of a character.
pub fn push_repeated(a: &mut Vec<char>, c: char, n: usize)
    ensures
        final(a)@ == old(a)@ + repeat_char(c, n as nat),
{
    let mut i: usize = 0;
    while i < n
        invariant
            i <= n,
            a@ == old(a)@ + repeat_char(c, i as nat),
        decreases n - i,
    {
        a.push(c);
        proof {
            assert(repeat_char(c, (i + 1) as nat) =~= repeat_char(c, i as nat).push(c));
        }
        i += 1;
    }
}

/// The byte length of a string, with its characters.
fn chars_and_len(s: &str) -> (r: (Vec<char>, usize))
    ensures
        r.0@ == s@,
        r.1 == utf8_len(s@),
{
    let chars = chars_of(s);
    let n = s.as_bytes().len();
    proof {
        lemma_utf8_len_encode(s@);
    }
    (chars, n)
}

/// `s` padded with spaces to `width` bytes: on the right when the flags hold
/// `-`, else on the left; unchanged when it is already that long.
pub open spec fn width_aligned(s: Seq<char>, flags: Seq<char>, width: nat) -> Seq<char> {
    if width == 0 || utf8_len(s) >= width {
        s
    } else if flags.contains('-') {
        s + repeat_char(' ', (width - utf8_len(s)) as nat)
    } else {
        repeat_char(' ', (width - utf8_len(s)) as nat) + s
    }
}

/// Pads a formatted value to a width, as `%` formatting does.
pub fn apply_width_align(s: &str, flags: &str, width: usize) -> (r: String)
    ensures
        r@ == width_aligned(s@, flags@, width as nat),
{
    let (chars, n) = chars_and_len(s);
    if width == 0 || n >= width {
        return string_of(&chars);
    }
    let padding = width - n;
    let fl = chars_of(flags);
    let mut out: Vec<char> = Vec::new();
    if has_char(&fl, '-') {
        extend_chars(&mut out, &chars);
        push_repeated(&mut out, ' ', padding);
    } else {
        push_repeated(&mut out, ' ', padding);
        extend_chars(&mut out, &chars);
    }
    proof {
        assert(Seq::<char>::empty() + chars@ =~= chars@);
        assert(Seq::<char>::empty() + repeat_char(' ', padding as nat) =~= repeat_char(' ', padding as nat));
    }
    string_of(&out)
}

/// The sign that a formatted number shows and the rest of it.
pub open spec fn sign_split(s: Seq<char>, flags: Seq<char>) -> (Seq<char>, Seq<char>) {
    if s.len() > 0 && s[0] == '-' {
        (seq!['-'], s.drop_first())
    } else if flags.contains('+') {
        (seq!['+'], s)
    } else if flags.contains(' ') {
        (seq![' '], s)
    } else {
        (Seq::empty(), s)
    }
}

/// A formatted number with its sign and padding: spaces on the right for
/// `-`, zeros between sign and digits when zero padding is asked for, else
/// spaces on the left.
pub open spec fn numeric_formatted(s: Seq<char>, flags: Seq<char>, width: nat, zero_pad: bool) -> Seq<
    char,
> {
    let (sign, num) = sign_split(s, flags);
    let content = sign + num;
    if width == 0 || utf8_len(content) >= width {
        content
    } else if flags.contains('-') {
        content + repeat_char(' ', (width - utf8_len(content)) as nat)
    } else if zero_pad {
        sign + repeat_char('0', (width - utf8_len(content)) as nat) + num
    } else {
        repeat_char(' ', (width - utf8_len(content)) as nat) + content
    }
}

/// A character of one byte adds one to the byte length.
proof fn lemma_utf8_len_ascii_front(c: char, s: Seq<char>)
    requires
        (c as u32) < 128,
    ensures
        utf8_len(seq![c] + s) == 1 + utf8_len(s),
{
    crate::text::lemma_utf8_len_front(seq![c] + s);
    assert((seq![c] + s).drop_first() =~= s);
}

/// Signs and pads a formatted number, as `%d`, `%f` and the like do.
pub fn apply_numeric_format(s: &str, flags: &str, width: usize, zero_pad: bool) -> (r: String)
    ensures
        r@ == numeric_formatted(s@, flags@, width as nat, zero_pad),
{
    let (chars, n) = chars_and_len(s);
    let fl = chars_of(flags);
    let mut sign: Vec<char> = Vec::new();
    let num: Vec<char>;
    if chars.len() > 0 && chars[0] == '-' {
        sign.push('-');
        num = slice_chars(&chars, 1, chars.len());
        proof {
            assert(chars@.subrange(1, chars@.len() as int) =~= chars@.drop_first());
        }
    } else if has_char(&fl, '+') {
        sign.push('+');
        num = slice_chars(&chars, 0, chars.len());
    } else if has_char(&fl, ' ') {
        sign.push(' ');
        num = slice_chars(&chars, 0, chars.len());
    } else {
        num = slice_chars(&chars, 0, chars.len());
    }
    proof {
        assert(chars@.subrange(0, chars@.len() as int) =~= chars@);
        assert(sign@ == sign_split(s@, flags@).0);
        assert(num@ == sign_split(s@, flags@).1);
    }
    let mut content: Vec<char> = Vec::new();
    extend_chars(&mut content, &sign);
    extend_chars(&mut content, &num);
    // The byte length of the content: a sign is one byte, and the number is
    // the input without a leading minus.
    let clen: usize = if sign.len() > 0 && !(chars.len() > 0 && chars[0] == '-') {
        proof {
            lemma_utf8_len_ascii_front(sign@[0], num@);
            assert(seq![sign@[0]] =~= sign@);
        }
        if n == usize::MAX {
            n
        } else {
            n + 1
        }
    } else {
        proof {
            if sign.len() > 0 {
                assert(seq![sign@[0]] =~= sign@);
                assert(sign@ + num@ =~= chars@);
            } else {
                assert(sign@ + num@ =~= chars@);
            }
        }
        n
    };
    proof {
        assert(Seq::<char>::empty() + sign@ =~= sign@);
    }
    if width == 0 || clen >= width {
        return string_of(&content);
    }
    let padding = width - clen;
    let mut out: Vec<char> = Vec::new();
    if has_char(&fl, '-') {
        extend_chars(&mut out, &content);
        push_repeated(&mut out, ' ', padding);
    } else if zero_pad {
        extend_chars(&mut out, &sign);
        push_repeated(&mut out, '0', padding);
        extend_chars(&mut out, &num);
    } else {
        push_repeated(&mut out, ' ', padding);
        extend_chars(&mut out, &content);
    }
    proof {
        assert(Seq::<char>::empty() + content@ =~= content@);
        assert(Seq::<char>::empty() + repeat_char(' ', padding as nat) =~= repeat_char(' ', padding as nat));
    }
    string_of(&out)
}


/// Whether a character is an ASCII digit.
pub open spec fn is_digit_char(c: char) -> bool {
    '0' <= c <= '9'
}

/// The value of a string of decimal digits.
pub open spec fn decimal_value(ds: Seq<char>) -> int
    decreases ds.len(),
{
    if ds.len() == 0 {
        0
    } else {
        decimal_value(ds.drop_last()) * 10 + (ds.last() as int - 48)
    }
}

/// The text after a leading sign, if any.
pub open spec fn unsigned_part(s: Seq<char>) -> Seq<char> {
    if s.len() > 0 && (s[0] == '-' || s[0] == '+') {
        s.drop_first()
    } else {
        s
    }
}

/// What parsing text as an `i32` gives: an optional sign, then at least one
/// digit and nothing else, within the range of `i32`.
pub open spec fn parse_i32_spec(s: Seq<char>) -> Option<i32> {
    let neg = s.len() > 0 && s[0] == '-';
    let ds = unsigned_part(s);
    if ds.len() == 0 || !(forall|k: int| 0 <= k < ds.len() ==> is_digit_char(#[trigger] ds[k])) {
        None
    } else if neg {
        if decimal_value(ds) <= 2147483648 {
            Some((-decimal_value(ds)) as i32)
        } else {
            None
        }
    } else if decimal_value(ds) <= 2147483647 {
        Some(decimal_value(ds) as i32)
    } else {
        None
    }
}

/// The value of digits is never negative.
pub proof fn lemma_decimal_value_nonneg(ds: Seq<char>)
    requires
        forall|k: int| 0 <= k < ds.len() ==> is_digit_char(#[trigger] ds[k]),
    ensures
        decimal_value(ds) >= 0,
    decreases ds.len(),
{
    if ds.len() > 0 {
        assert(is_digit_char(ds[ds.len() - 1]));
        lemma_decimal_value_nonneg(ds.drop_last());
    }
}

/// Parses text as an `i32`.
pub fn parse_i32(s: &Vec<char>) -> (r: Option<i32>)
    ensures
        r == parse_i32_spec(s@),
{
    let n = s.len();
    let neg = n > 0 && s[0] == '-';
    let start: usize = if n > 0 && (s[0] == '-' || s[0] == '+') {
        1
    } else {
        0
    };
    let ghost ds = unsigned_part(s@);
    proof {
        assert(ds =~= s@.subrange(start as int, n as int));
    }
    if start == n {
        return None;
    }
    // The value so far, capped just above the largest magnitude that fits.
    let cap: u64 = 2147483649;
    let mut acc: u64 = 0;
    let mut i = start;
    while i < n
        invariant
            start <= i <= n,
            n == s@.len(),
            ds == s@.subrange(start as int, n as int),
            ds == unsigned_part(s@),
            neg == (s@.len() > 0 && s@[0] == '-'),
            cap == 2147483649,
            forall|k: int| start <= k < i ==> is_digit_char(#[trigger] s@[k]),
            acc as int == if decimal_value(s@.subrange(start as int, i as int)) < cap {
                decimal_value(s@.subrange(start as int, i as int))
            } else {
                cap as int
            },
            decimal_value(s@.subrange(start as int, i as int)) >= 0,
        decreases n - i,
    {
        let c = s[i];
        if !('0' <= c && c <= '9') {
            proof {
                assert(ds[i - start] == c);
                assert(!is_digit_char(ds[i - start]));
                assert(!(forall|k: int| 0 <= k < ds.len() ==> is_digit_char(#[trigger] ds[k])));
                assert(parse_i32_spec(s@) is None);
            }
            return None;
        }
        let d = (c as u32 - 48) as u64;
        let ghost pre = s@.subrange(start as int, i as int);
        proof {
            assert(s@.subrange(start as int, i + 1).drop_last() =~= pre);
            assert(s@.subrange(start as int, i + 1).last() == c);
        }
        acc = if acc >= cap {
            cap
        } else {
            let v = acc * 10 + d;
            if v >= cap {
                cap
            } else {
                v
            }
        };
        i += 1;
    }
    proof {
        assert(s@.subrange(start as int, n as int) == ds);
        assert forall|k: int| 0 <= k < ds.len() implies is_digit_char(#[trigger] ds[k]) by {
            assert(ds[k] == s@[start + k]);
        }
    }
    if neg {
        if acc <= 2147483648 {
            Some((0i64 - acc as i64) as i32)
        } else {
            None
        }
    } else if acc <= 2147483647 {
        Some(acc as i32)
    } else {
        None
    }
}

/// The decimal digits of a natural number.
pub open spec fn nat_decimal(v: nat) -> Seq<char>
    decreases v,
{
    if v < 10 {
        seq![(48 + v) as char]
    } else {
        nat_decimal(v / 10).push((48 + v % 10) as char)
    }
}

/// The decimal text of an integer, with a leading `-` when negative.
pub open spec fn int_decimal(v: int) -> Seq<char> {
    if v < 0 {
        seq!['-'] + nat_decimal((-v) as nat)
    } else {
        nat_decimal(v as nat)
    }
}

/// An integer in decimal, zero-padded to at least two characters.
pub open spec fn two_digit(v: int) -> Seq<char> {
    if 0 <= v < 10 {
        seq!['0'] + int_decimal(v)
    } else {
        int_decimal(v)
    }
}

/// The decimal digits of a natural number.
pub fn u64_decimal(v: u64) -> (r: Vec<char>)
    ensures
        r@ == nat_decimal(v as nat),
    decreases v,
{
    if v < 10 {
        let c = (48 + v) as u8 as char;
        vec![c]
    } else {
        let mut r = u64_decimal(v / 10);
        let c = (48 + v % 10) as u8 as char;
        r.push(c);
        r
    }
}

/// An `i32` in decimal, zero-padded to at least two characters.
pub fn two_digit_i32(v: i32) -> (r: Vec<char>)
    ensures
        r@ == two_digit(v as int),
{
    if v < 0 {
        let m = (0i64 - v as i64) as u64;
        let digits = u64_decimal(m);
        let mut r: Vec<char> = vec!['-'];
        extend_chars(&mut r, &digits);
        r
    } else if v < 10 {
        let digits = u64_decimal(v as u64);
        let mut r: Vec<char> = vec!['0'];
        extend_chars(&mut r, &digits);
        r
    } else {
        u64_decimal(v as u64)
    }
}

/// An exponent written the way C's `printf` writes it: the exponent letter
/// (`E` when `upper`), a sign, and at least two digits. Text without `e` is
/// kept; digits that do not parse count as zero.
pub open spec fn exp_normalized(s: Seq<char>, upper: bool) -> Seq<char> {
    match find_char(s, 'e') {
        None => s,
        Some(pos) => {
            let mantissa = s.take(pos);
            let exp_part = s.skip(pos + 1);
            let (sign, digits) = if exp_part.len() > 0 && exp_part[0] == '+' {
                ('+', exp_part.drop_first())
            } else if exp_part.len() > 0 && exp_part[0] == '-' {
                ('-', exp_part.drop_first())
            } else {
                ('+', exp_part)
            };
            let exp_num: int = match parse_i32_spec(digits) {
                Some(n) => n as int,
                None => 0,
            };
            mantissa + seq![
                if upper {
                    'E'
                } else {
                    'e'
                },
                sign,
            ] + two_digit(exp_num)
        },
    }
}

/// Rewrites the exponent of a number in scientific notation as `printf` does.
pub fn normalize_exp_notation(s: &str, upper: bool) -> (r: String)
    ensures
        r@ == exp_normalized(s@, upper),
{
    let chars = chars_of(s);
    let e_char = if upper {
        'E'
    } else {
        'e'
    };
    match find_first(&chars, 'e') {
        None => string_of(&chars),
        Some(pos) => {
            proof {
                assert(pos < chars@.len());
            }
            let mantissa = slice_chars(&chars, 0, pos);
            let exp_part = slice_chars(&chars, pos + 1, chars.len());
            let sign: char;
            let digits: Vec<char>;
            if exp_part.len() > 0 && exp_part[0] == '+' {
                sign = '+';
                digits = slice_chars(&exp_part, 1, exp_part.len());
            } else if exp_part.len() > 0 && exp_part[0] == '-' {
                sign = '-';
                digits = slice_chars(&exp_part, 1, exp_part.len());
            } else {
                sign = '+';
                digits = slice_chars(&exp_part, 0, exp_part.len());
            }
            proof {
                assert(mantissa@ =~= chars@.take(pos as int));
                assert(exp_part@ =~= chars@.skip(pos + 1));
                assert(exp_part@.subrange(1, exp_part@.len() as int) =~= exp_part@.drop_first());
                assert(exp_part@.subrange(0, exp_part@.len() as int) =~= exp_part@);
            }
            let exp_num: i32 = match parse_i32(&digits) {
                Some(n) => n,
                None => 0,
            };
            let mut out = mantissa;
            out.push(e_char);
            out.push(sign);
            let tail = two_digit_i32(exp_num);
            extend_chars(&mut out, &tail);
            proof {
                assert(out@ =~= exp_normalized(s@, upper));
            }
            string_of(&out)
        },
    }
}

/// The first `e`, else the first `E`.
pub open spec fn exp_position(s: Seq<char>) -> Option<int> {
    match find_char(s, 'e') {
        Some(p) => Some(p),
        None => find_char(s, 'E'),
    }
}

/// Scientific notation with the trailing zeros of the mantissa's fraction
/// dropped, and then a trailing point.
pub open spec fn zeros_stripped(s: Seq<char>) -> Seq<char> {
    match exp_position(s) {
        None => s,
        Some(pos) => {
            let mantissa = s.take(pos);
            let m = if mantissa.contains('.') {
                trim_end_char(trim_end_char(mantissa, '0'), '.')
            } else {
                mantissa
            };
            m + s.skip(pos)
        },
    }
}

/// Drops trailing zeros (and then a trailing point) from the mantissa of a
/// number in scientific notation.
pub fn strip_trailing_zeros_e(s: &str) -> (r: String)
    ensures
        r@ == zeros_stripped(s@),
{
    let chars = chars_of(s);
    let e_pos = match find_first(&chars, 'e') {
        Some(p) => Some(p),
        None => find_first(&chars, 'E'),
    };
    match e_pos {
        None => string_of(&chars),
        Some(pos) => {
            let mantissa = slice_chars(&chars, 0, pos);
            let exp_part = slice_chars(&chars, pos, chars.len());
            let mut m = if has_char(&mantissa, '.') {
                let t = trim_end(&mantissa, '0');
                trim_end(&t, '.')
            } else {
                mantissa
            };
            proof {
                assert(chars@.subrange(0, pos as int) =~= chars@.take(pos as int));
                assert(chars@.subrange(pos as int, chars@.len() as int) =~= chars@.skip(pos as int));
            }
            extend_chars(&mut m, &exp_part);
            string_of(&m)
        },
    }
}


// ---------------------------------------------------------------- string functions

/// Four lowercase hexadecimal digits of a value below 0x10000.
pub open spec fn hex4(v: int) -> Seq<char> {
    seq![hex_digit(v / 4096), hex_digit((v / 256) % 16), hex_digit((v / 16) % 16), hex_digit(v % 16)]
}

/// One character of a JSON string body.
pub open spec fn json_escape_char(c: char) -> Seq<char> {
    if c == '"' {
        seq!['\\', '"']
    } else if c == '\\' {
        seq!['\\', '\\']
    } else if c == '\n' {
        seq!['\\', 'n']
    } else if c == '\r' {
        seq!['\\', 'r']
    } else if c == '\t' {
        seq!['\\', 't']
    } else if (c as u32) < 32 {
        seq!['\\', 'u'] + hex4(c as u32 as int)
    } else {
        seq![c]
    }
}

/// One character of an XML text.
pub open spec fn xml_escape_char(c: char) -> Seq<char> {
    if c == '&' {
        "&amp;"@
    } else if c == '<' {
        "&lt;"@
    } else if c == '>' {
        "&gt;"@
    } else if c == '"' {
        "&quot;"@
    } else if c == '\'' {
        "&apos;"@
    } else {
        seq![c]
    }
}

/// One character inside a single-quoted shell word.
pub open spec fn bash_escape_char(c: char) -> Seq<char> {
    if c == '\'' {
        "'\"'\"'"@
    } else {
        seq![c]
    }
}

/// One character with `$` doubled.
pub open spec fn dollar_escape_char(c: char) -> Seq<char> {
    if c == '$' {
        seq!['$', '$']
    } else {
        seq![c]
    }
}

/// Which escaping to apply.
pub enum Escaping {
    Json,
    Xml,
    Bash,
    Dollars,
}

/// One character under an escaping.
pub open spec fn escape_char_with(e: Escaping, c: char) -> Seq<char> {
    match e {
        Escaping::Json => json_escape_char(c),
        Escaping::Xml => xml_escape_char(c),
        Escaping::Bash => bash_escape_char(c),
        Escaping::Dollars => dollar_escape_char(c),
    }
}

/// Every character of a text escaped, in order.
pub open spec fn escape_all(e: Escaping, s: Seq<char>) -> Seq<char>
    decreases s.len(),
{
    if s.len() == 0 {
        Seq::empty()
    } else {
        escape_all(e, s.drop_last()) + escape_char_with(e, s.last())
    }
}

fn push_escaped_char(out: &mut Vec<char>, e: &Escaping, c: char)
    ensures
        final(out)@ == old(out)@ + escape_char_with(*e, c),
{
    let ghost before = out@;
    match e {
        Escaping::Json => {
            if c == '"' {
                out.push('\\');
                out.push('"');
            } else if c == '\\' {
                out.push('\\');
                out.push('\\');
            } else if c == '\n' {
                out.push('\\');
                out.push('n');
            } else if c == '\r' {
                out.push('\\');
                out.push('r');
            } else if c == '\t' {
                out.push('\\');
                out.push('t');
            } else if (c as u32) < 32 {
                let v = c as u32;
                out.push('\\');
                out.push('u');
                out.push(hex_char((v / 4096) as u8));
                out.push(hex_char(((v / 256) % 16) as u8));
                out.push(hex_char(((v / 16) % 16) as u8));
                out.push(hex_char((v % 16) as u8));
            } else {
                out.push(c);
            }
        },
        Escaping::Xml => {
            if c == '&' {
                out.push('&');
                out.push('a');
                out.push('m');
                out.push('p');
                out.push(';');
                proof {
                    reveal_strlit("&amp;");
                }
            } else if c == '<' {
                out.push('&');
                out.push('l');
                out.push('t');
                out.push(';');
                proof {
                    reveal_strlit("&lt;");
                }
            } else if c == '>' {
                out.push('&');
                out.push('g');
                out.push('t');
                out.push(';');
                proof {
                    reveal_strlit("&gt;");
                }
            } else if c == '"' {
                out.push('&');
                out.push('q');
                out.push('u');
                out.push('o');
                out.push('t');
                out.push(';');
                proof {
                    reveal_strlit("&quot;");
                }
            } else if c == '\'' {
                out.push('&');
                out.push('a');
                out.push('p');
                out.push('o');
                out.push('s');
                out.push(';');
                proof {
                    reveal_strlit("&apos;");
                }
            } else {
                out.push(c);
            }
        },
        Escaping::Bash => {
            if c == '\'' {
                out.push('\'');
                out.push('"');
                out.push('\'');
                out.push('"');
                out.push('\'');
                proof {
                    reveal_strlit("'\"'\"'");
                }
            } else {
                out.push(c);
            }
        },
        Escaping::Dollars => {
            if c == '$' {
                out.push('$');
                out.push('$');
            } else {
                out.push(c);
            }
        },
    }
    proof {
        assert(out@ =~= before + escape_char_with(*e, c));
    }
}

fn escape_text(s: &str, e: Escaping) -> (r: Vec<char>)
    ensures
        r@ == escape_all(e, s@),
{
    let cs = chars_of(s);
    let mut out: Vec<char> = Vec::new();
    let mut i: usize = 0;
    while i < cs.len()
        invariant
            i <= cs@.len(),
            cs@ == s@,
            out@ == escape_all(e, s@.take(i as int)),
        decreases cs.len() - i,
    {
        push_escaped_char(&mut out, &e, cs[i]);
        proof {
            assert(s@.take(i + 1).drop_last() =~= s@.take(i as int));
            assert(s@.take(i + 1).last() == cs@[i as int]);
        }
        i += 1;
    }
    proof {
        assert(s@.take(s@.len() as int) =~= s@);
    }
    out
}

/// `std.escapeStringJson`: the text as a quoted JSON string.
pub fn escape_string_json(s: &str) -> (r: String)
    ensures
        r@ == seq!['"'] + escape_all(Escaping::Json, s@) + seq!['"'],
{
    let mut out: Vec<char> = vec!['"'];
    let body = escape_text(s, Escaping::Json);
    extend_chars(&mut out, &body);
    out.push('"');
    string_of(&out)
}

/// `std.escapeStringXml`: the text with `& < > " '` as entities.
pub fn escape_string_xml(s: &str) -> (r: String)
    ensures
        r@ == escape_all(Escaping::Xml, s@),
{
    let body = escape_text(s, Escaping::Xml);
    string_of(&body)
}

/// `std.escapeStringBash`: the text as one single-quoted shell word.
pub fn escape_string_bash(s: &str) -> (r: String)
    ensures
        r@ == seq!['\''] + escape_all(Escaping::Bash, s@) + seq!['\''],
{
    let mut out: Vec<char> = vec!['\''];
    let body = escape_text(s, Escaping::Bash);
    extend_chars(&mut out, &body);
    out.push('\'');
    string_of(&out)
}

/// `std.escapeStringDollars`: the text with every `$` doubled.
pub fn escape_string_dollars(s: &str) -> (r: String)
    ensures
        r@ == escape_all(Escaping::Dollars, s@),
{
    let body = escape_text(s, Escaping::Dollars);
    string_of(&body)
}

/// A character with ASCII letters made upper case.
pub open spec fn ascii_upper_char(c: char) -> char {
    if 'a' <= c <= 'z' {
        ((c as u32) - 32) as char
    } else {
        c
    }
}

/// A character with ASCII letters made lower case.
pub open spec fn ascii_lower_char(c: char) -> char {
    if 'A' <= c <= 'Z' {
        ((c as u32) + 32) as char
    } else {
        c
    }
}

fn upper_char(c: char) -> (r: char)
    ensures
        r == ascii_upper_char(c),
{
    if 'a' <= c && c <= 'z' {
        ((c as u32 - 32) as u8) as char
    } else {
        c
    }
}

fn lower_char(c: char) -> (r: char)
    ensures
        r == ascii_lower_char(c),
{
    if 'A' <= c && c <= 'Z' {
        ((c as u32 + 32) as u8) as char
    } else {
        c
    }
}

/// `std.asciiUpper`: ASCII letters upper-cased, all else kept.
pub fn ascii_upper(s: &str) -> (r: String)
    ensures
        r@ == s@.map_values(|c: char| ascii_upper_char(c)),
{
    let cs = chars_of(s);
    let mut out: Vec<char> = Vec::new();
    let mut i: usize = 0;
    while i < cs.len()
        invariant
            i <= cs@.len(),
            cs@ == s@,
            out@ == s@.take(i as int).map_values(|c: char| ascii_upper_char(c)),
        decreases cs.len() - i,
    {
        out.push(upper_char(cs[i]));
        proof {
            assert(s@.take(i + 1).map_values(|c: char| ascii_upper_char(c)) =~= s@.take(
                i as int,
            ).map_values(|c: char| ascii_upper_char(c)).push(ascii_upper_char(cs@[i as int])));
        }
        i += 1;
    }
    proof {
        assert(s@.take(s@.len() as int) =~= s@);
    }
    string_of(&out)
}

/// `std.asciiLower`: ASCII letters lower-cased, all else kept.
pub fn ascii_lower(s: &str) -> (r: String)
    ensures
        r@ == s@.map_values(|c: char| ascii_lower_char(c)),
{
    let cs = chars_of(s);
    let mut out: Vec<char> = Vec::new();
    let mut i: usize = 0;
    while i < cs.len()
        invariant
            i <= cs@.len(),
            cs@ == s@,
            out@ == s@.take(i as int).map_values(|c: char| ascii_lower_char(c)),
        decreases cs.len() - i,
    {
        out.push(lower_char(cs[i]));
        proof {
            assert(s@.take(i + 1).map_values(|c: char| ascii_lower_char(c)) =~= s@.take(
                i as int,
            ).map_values(|c: char| ascii_lower_char(c)).push(ascii_lower_char(cs@[i as int])));
        }
        i += 1;
    }
    proof {
        assert(s@.take(s@.len() as int) =~= s@);
    }
    string_of(&out)
}

/// `std.equalsIgnoreCase`: equal once ASCII letters are lower-cased.
pub fn equals_ignore_case(a: &str, b: &str) -> (r: bool)
    ensures
        r == (a@.map_values(|c: char| ascii_lower_char(c)) == b@.map_values(
            |c: char| ascii_lower_char(c),
        )),
{
    let x = chars_of(a);
    let y = chars_of(b);
    let ghost la = a@.map_values(|c: char| ascii_lower_char(c));
    let ghost lb = b@.map_values(|c: char| ascii_lower_char(c));
    if x.len() != y.len() {
        proof {
            assert(la.len() != lb.len());
        }
        return false;
    }
    let mut i: usize = 0;
    while i < x.len()
        invariant
            i <= x@.len(),
            x@.len() == y@.len(),
            x@ == a@,
            y@ == b@,
            la == a@.map_values(|c: char| ascii_lower_char(c)),
            lb == b@.map_values(|c: char| ascii_lower_char(c)),
            forall|k: int| 0 <= k < i ==> la[k] == lb[k],
        decreases x.len() - i,
    {
        if lower_char(x[i]) != lower_char(y[i]) {
            proof {
                assert(la[i as int] != lb[i as int]);
            }
            return false;
        }
        i += 1;
    }
    proof {
        assert(la =~= lb);
    }
    true
}


/// The text without leading Unicode white space.
pub open spec fn trim_start_ws(s: Seq<char>) -> Seq<char>
    decreases s.len(),
{
    if s.len() > 0 && crate::text::unicode_whitespace(s[0]) {
        trim_start_ws(s.drop_first())
    } else {
        s
    }
}

/// The text without trailing Unicode white space.
pub open spec fn trim_end_ws(s: Seq<char>) -> Seq<char>
    decreases s.len(),
{
    if s.len() > 0 && crate::text::unicode_whitespace(s.last()) {
        trim_end_ws(s.drop_last())
    } else {
        s
    }
}

/// The text without leading and trailing Unicode white space.
pub open spec fn trim_ws(s: Seq<char>) -> Seq<char> {
    trim_end_ws(trim_start_ws(s))
}

/// The value of a digit in a radix, if it is one: `0-9`, then letters of
/// either case.
pub open spec fn digit_in_radix(c: char, radix: nat) -> Option<nat> {
    let v: int = if '0' <= c <= '9' {
        c as int - 48
    } else if 'a' <= c <= 'z' {
        c as int - 87
    } else if 'A' <= c <= 'Z' {
        c as int - 55
    } else {
        -1
    };
    if 0 <= v < radix {
        Some(v as nat)
    } else {
        None
    }
}

/// Whether every character is a digit of the radix.
pub open spec fn all_digits(ds: Seq<char>, radix: nat) -> bool {
    forall|k: int| 0 <= k < ds.len() ==> digit_in_radix(#[trigger] ds[k], radix) is Some
}

/// The value of digits in a radix.
pub open spec fn radix_value(ds: Seq<char>, radix: nat) -> int
    decreases ds.len(),
{
    if ds.len() == 0 {
        0
    } else {
        radix_value(ds.drop_last(), radix) * radix + match digit_in_radix(ds.last(), radix) {
            Some(d) => d as int,
            None => 0,
        }
    }
}

/// What `i64::from_str_radix` gives: an optional sign, at least one digit of
/// the radix and nothing else, within the range of `i64`.
pub open spec fn parse_i64_spec(s: Seq<char>, radix: nat) -> Option<i64> {
    let neg = s.len() > 0 && s[0] == '-';
    let ds = unsigned_part(s);
    if ds.len() == 0 || !all_digits(ds, radix) {
        None
    } else if neg {
        if radix_value(ds, radix) <= 9223372036854775808 {
            Some((-radix_value(ds, radix)) as i64)
        } else {
            None
        }
    } else if radix_value(ds, radix) <= 9223372036854775807 {
        Some(radix_value(ds, radix) as i64)
    } else {
        None
    }
}

/// Values of digits are never negative.
pub proof fn lemma_radix_value_nonneg(ds: Seq<char>, radix: nat)
    ensures
        radix_value(ds, radix) >= 0,
    decreases ds.len(),
{
    if ds.len() > 0 {
        lemma_radix_value_nonneg(ds.drop_last(), radix);
        assert(radix_value(ds.drop_last(), radix) * radix >= 0) by (nonlinear_arith)
            requires
                radix_value(ds.drop_last(), radix) >= 0,
        ;
    }
}

fn radix_digit(c: char, radix: u32) -> (r: Option<u32>)
    requires
        2 <= radix <= 36,
    ensures
        match digit_in_radix(c, radix as nat) {
            Some(d) => r == Some(d as u32),
            None => r is None,
        },
{
    let v: i64 = if '0' <= c && c <= '9' {
        c as i64 - 48
    } else if 'a' <= c && c <= 'z' {
        c as i64 - 87
    } else if 'A' <= c && c <= 'Z' {
        c as i64 - 55
    } else {
        -1
    };
    if 0 <= v && v < radix as i64 {
        Some(v as u32)
    } else {
        None
    }
}

/// Parses text as an `i64` in a radix, as `i64::from_str_radix` does.
pub fn parse_i64_radix(s: &Vec<char>, radix: u32) -> (r: Option<i64>)
    requires
        2 <= radix <= 36,
    ensures
        r == parse_i64_spec(s@, radix as nat),
{
    let n = s.len();
    let neg = n > 0 && s[0] == '-';
    let start: usize = if n > 0 && (s[0] == '-' || s[0] == '+') {
        1
    } else {
        0
    };
    let ghost ds = unsigned_part(s@);
    proof {
        assert(ds =~= s@.subrange(start as int, n as int));
    }
    if start == n {
        return None;
    }
    // The value so far, capped just above the largest magnitude that fits.
    let cap: u128 = 9223372036854775809;
    let mut acc: u128 = 0;
    let mut i = start;
    while i < n
        invariant
            start <= i <= n,
            n == s@.len(),
            2 <= radix <= 36,
            ds == s@.subrange(start as int, n as int),
            ds == unsigned_part(s@),
            neg == (s@.len() > 0 && s@[0] == '-'),
            cap == 9223372036854775809,
            forall|k: int| start <= k < i ==> digit_in_radix(#[trigger] s@[k], radix as nat) is Some,
            acc as int == if radix_value(s@.subrange(start as int, i as int), radix as nat) < cap {
                radix_value(s@.subrange(start as int, i as int), radix as nat)
            } else {
                cap as int
            },
        decreases n - i,
    {
        let c = s[i];
        let d = match radix_digit(c, radix) {
            Some(d) => d,
            None => {
                proof {
                    assert(ds[i - start] == c);
                    assert(!all_digits(ds, radix as nat));
                }
                return None;
            },
        };
        let ghost pre = s@.subrange(start as int, i as int);
        proof {
            assert(s@.subrange(start as int, i + 1).drop_last() =~= pre);
            assert(s@.subrange(start as int, i + 1).last() == c);
            lemma_radix_value_nonneg(pre, radix as nat);
        }
        let next: u128 = if acc >= cap {
            cap
        } else {
            assert(acc * (radix as u128) <= 9223372036854775809u128 * 36) by (nonlinear_arith)
                requires
                    acc < 9223372036854775809u128,
                    radix <= 36,
            ;
            let v = acc * (radix as u128) + (d as u128);
            if v >= cap {
                cap
            } else {
                v
            }
        };
        proof {
            let rv = radix_value(pre, radix as nat);
            if acc >= cap {
                assert(rv >= cap);
                assert(rv * radix >= cap * radix) by (nonlinear_arith)
                    requires
                        rv >= cap,
                        radix >= 2,
                ;
            } else {
                assert(acc == rv);
            }
        }
        acc = next;
        i += 1;
    }
    proof {
        assert(s@.subrange(start as int, n as int) == ds);
        assert forall|k: int| 0 <= k < ds.len() implies digit_in_radix(#[trigger] ds[k], radix as nat)
            is Some by {
            assert(ds[k] == s@[start + k]);
        }
        lemma_radix_value_nonneg(ds, radix as nat);
    }
    if neg {
        if acc <= 9223372036854775808 {
            Some((0i128 - acc as i128) as i64)
        } else {
            None
        }
    } else if acc <= 9223372036854775807 {
        Some(acc as i64)
    } else {
        None
    }
}

/// Removes leading and trailing Unicode white space.
pub fn trim_whitespace(s: &Vec<char>) -> (r: Vec<char>)
    ensures
        r@ == trim_ws(s@),
{
    let mut a: usize = 0;
    proof {
        assert(s@.subrange(0, s@.len() as int) =~= s@);
    }
    while a < s.len() && crate::text::is_whitespace(s[a])
        invariant
            a <= s@.len(),
            trim_start_ws(s@) == trim_start_ws(s@.subrange(a as int, s@.len() as int)),
        decreases s.len() - a,
    {
        proof {
            assert(s@.subrange(a as int, s@.len() as int).drop_first() =~= s@.subrange(
                a + 1,
                s@.len() as int,
            ));
        }
        a += 1;
    }
    let ghost t = s@.subrange(a as int, s@.len() as int);
    let mut b: usize = s.len();
    proof {
        assert(trim_start_ws(s@) == t);
        assert(t.subrange(0, t.len() as int) =~= t);
    }
    while b > a && crate::text::is_whitespace(s[b - 1])
        invariant
            a <= b <= s@.len(),
            t == s@.subrange(a as int, s@.len() as int),
            trim_end_ws(t) == trim_end_ws(s@.subrange(a as int, b as int)),
        decreases b,
    {
        proof {
            assert(s@.subrange(a as int, b as int).drop_last() =~= s@.subrange(a as int, b - 1));
        }
        b -= 1;
    }
    slice_chars(s, a, b)
}

fn parse_error(prefix: &str, text: &Vec<char>, suffix: &str) -> (r: String)
    ensures
        r@ == prefix@ + text@ + suffix@,
{
    let mut out: Vec<char> = chars_of(prefix);
    extend_chars(&mut out, text);
    let tail = chars_of(suffix);
    extend_chars(&mut out, &tail);
    string_of(&out)
}

/// `std.parseInt`: the integer that the trimmed text spells in decimal.
pub fn parse_int(s: &str) -> (r: Result<i64, String>)
    ensures
        match parse_i64_spec(trim_ws(s@), 10) {
            Some(v) => r == Ok::<i64, String>(v),
            None => r matches Err(m) && m@ == "std.parseInt() failed to parse '"@ + trim_ws(s@)
                + "' as integer"@,
        },
{
    let cs = chars_of(s);
    let t = trim_whitespace(&cs);
    match parse_i64_radix(&t, 10) {
        Some(v) => Ok(v),
        None => Err(parse_error("std.parseInt() failed to parse '", &t, "' as integer")),
    }
}

/// `std.parseOctal`: the integer that the trimmed text spells in octal.
pub fn parse_octal(s: &str) -> (r: Result<i64, String>)
    ensures
        match parse_i64_spec(trim_ws(s@), 8) {
            Some(v) => r == Ok::<i64, String>(v),
            None => r matches Err(m) && m@ == "std.parseOctal() failed to parse '"@ + trim_ws(s@)
                + "' as octal"@,
        },
{
    let cs = chars_of(s);
    let t = trim_whitespace(&cs);
    match parse_i64_radix(&t, 8) {
        Some(v) => Ok(v),
        None => Err(parse_error("std.parseOctal() failed to parse '", &t, "' as octal")),
    }
}

/// `std.parseHex`: the integer that the trimmed, lower-cased text spells in
/// hexadecimal.
pub fn parse_hex(s: &str) -> (r: Result<i64, String>)
    ensures
        ({
            let t = crate::text::unicode_lowercase(trim_ws(s@));
            match parse_i64_spec(t, 16) {
                Some(v) => r == Ok::<i64, String>(v),
                None => r matches Err(m) && m@ == "std.parseHex() failed to parse '"@ + t
                    + "' as hex"@,
            }
        }),
{
    let cs = chars_of(s);
    let t = trim_whitespace(&cs);
    let ts = string_of(&t);
    let lower = crate::text::to_lowercase(ts.as_str());
    let l = chars_of(lower.as_str());
    match parse_i64_radix(&l, 16) {
        Some(v) => Ok(v),
        None => Err(parse_error("std.parseHex() failed to parse '", &l, "' as hex")),
    }
}


/// The character indices, in increasing order, where a pattern occurs in a
/// text, overlapping occurrences included; none for an empty pattern.
pub open spec fn substr_positions(pat: Seq<char>, s: Seq<char>, upto: int) -> Seq<int>
    decreases upto,
{
    if upto <= 0 || pat.len() == 0 {
        Seq::empty()
    } else if crate::text::occurs_at(s, pat, upto - 1) {
        substr_positions(pat, s, upto - 1).push(upto - 1)
    } else {
        substr_positions(pat, s, upto - 1)
    }
}

/// `std.findSubstr`: where the pattern occurs in the text, by character index.
pub fn find_substr(pat: &str, s: &str) -> (r: Vec<usize>)
    ensures
        r@.map_values(|i: usize| i as int) == substr_positions(pat@, s@, s@.len() as int),
{
    let p = chars_of(pat);
    let t = chars_of(s);
    let mut r: Vec<usize> = Vec::new();
    if p.len() == 0 {
        proof {
            assert(r@.map_values(|i: usize| i as int) =~= Seq::<int>::empty());
        }
        return r;
    }
    let mut i: usize = 0;
    while i < t.len()
        invariant
            i <= t@.len(),
            p@ == pat@,
            t@ == s@,
            p@.len() > 0,
            r@.map_values(|x: usize| x as int) == substr_positions(pat@, s@, i as int),
        decreases t.len() - i,
    {
        let ghost before = r@;
        if crate::text::matches_at(&t, &p, i) {
            r.push(i);
            proof {
                assert(r@.map_values(|x: usize| x as int) =~= before.map_values(|x: usize| x as int).push(
                    i as int,
                ));
            }
        }
        i += 1;
    }
    r
}


/// Whether two doubles, given by their bits, are equal as IEEE-754 numbers:
/// a NaN equals nothing, and the two zeros equal each other.
pub open spec fn double_eq(a: u64, b: u64) -> bool {
    let nan_a = a & 0x7ff0_0000_0000_0000u64 == 0x7ff0_0000_0000_0000u64 && a
        & 0x000f_ffff_ffff_ffffu64 != 0;
    let nan_b = b & 0x7ff0_0000_0000_0000u64 == 0x7ff0_0000_0000_0000u64 && b
        & 0x000f_ffff_ffff_ffffu64 != 0;
    !nan_a && !nan_b && (a == b || (a & 0x7fff_ffff_ffff_ffffu64 == 0 && b
        & 0x7fff_ffff_ffff_ffffu64 == 0))
}

/// `double_eq`, computed.
fn doubles_equal(a: u64, b: u64) -> (r: bool)
    ensures
        r == double_eq(a, b),
{
    let nan_a = a & 0x7ff0_0000_0000_0000u64 == 0x7ff0_0000_0000_0000u64 && a
        & 0x000f_ffff_ffff_ffffu64 != 0;
    let nan_b = b & 0x7ff0_0000_0000_0000u64 == 0x7ff0_0000_0000_0000u64 && b
        & 0x000f_ffff_ffff_ffffu64 != 0;
    !nan_a && !nan_b && (a == b || (a & 0x7fff_ffff_ffff_ffffu64 == 0 && b
        & 0x7fff_ffff_ffff_ffffu64 == 0))
}

/// The heap holds what a value refers to, with the value's kind, down to
/// `depth` levels of arrays and objects.
pub open spec fn present(h: Map<DefaultKey, HeapEntry>, v: Value, depth: nat) -> bool
    decreases depth,
{
    match v {
        Value::String(k) => h.dom().contains(k) && h[k] is String,
        Value::Array(k) => h.dom().contains(k) && h[k] is Array && (depth > 0 ==> forall|i: int|
            0 <= i < h[k]->Array_0.elements@.len() ==> present(
                h,
                #[trigger] h[k]->Array_0.elements@[i],
                (depth - 1) as nat,
            )),
        Value::Object(k) => h.dom().contains(k) && h[k] is Object && (depth > 0 ==> forall|i: int|
            0 <= i < h[k]->Object_0.properties@.len() ==> {
                let p = #[trigger] h[k]->Object_0.properties@[i];
                &&& h.dom().contains(p.0)
                &&& h[p.0] is String
                &&& present(h, p.1, (depth - 1) as nat)
            }),
        _ => true,
    }
}

/// Whether two values are equal, comparing at most `depth` levels of
/// arrays and objects: null, booleans and numbers (as doubles) by value,
/// strings by their text, arrays element by element, and objects by their
/// fields' names and values, whatever their order; anything else differs.
pub open spec fn values_eq(h: Map<DefaultKey, HeapEntry>, a: Value, b: Value, depth: nat) -> bool
    decreases depth,
{
    match (a, b) {
        (Value::Null, Value::Null) => true,
        (Value::Boolean(x), Value::Boolean(y)) => x == y,
        (Value::Number(x), Value::Number(y)) => double_eq(x, y),
        (Value::String(x), Value::String(y)) => h[x]->String_0.content@ == h[y]->String_0.content@,
        (Value::Array(x), Value::Array(y)) => {
            let ex = h[x]->Array_0.elements@;
            let ey = h[y]->Array_0.elements@;
            &&& depth > 0
            &&& ex.len() == ey.len()
            &&& forall|i: int| 0 <= i < ex.len() ==> values_eq(h, #[trigger] ex[i], ey[i], (depth - 1) as nat)
        },
        (Value::Object(x), Value::Object(y)) => {
            let px = h[x]->Object_0.properties@;
            let py = h[y]->Object_0.properties@;
            &&& depth > 0
            &&& px.len() == py.len()
            &&& forall|i: int|
                0 <= i < px.len() ==> exists|j: int|
                    0 <= j < py.len() && h[(#[trigger] px[i]).0]->String_0.content@ == h[py[j].0]->String_0.content@
                        && values_eq(h, px[i].1, py[j].1, (depth - 1) as nat)
        },
        _ => false,
    }
}

/// The index of the field with key `k`, if any.
fn find_key(props: &Vec<(DefaultKey, Value)>, k: DefaultKey) -> (r: Option<usize>)
    ensures
        r matches Some(j) ==> j < props@.len() && props@[j as int].0 == k,
        r is None ==> forall|j: int| 0 <= j < props@.len() ==> props@[j].0 != k,
{
    let mut j: usize = 0;
    while j < props.len()
        invariant
            j <= props@.len(),
            forall|m: int| 0 <= m < j ==> props@[m].0 != k,
        decreases props.len() - j,
    {
        if key_eq(props[j].0, k) {
            return Some(j);
        }
        j += 1;
    }
    None
}

/// `values_eq` to `depth` levels, computed.
fn equal_within(a: Value, b: Value, mm: &MemoryManager, depth: usize) -> (r: bool)
    requires
        mm.wf(),
        present(mm.heap_view(), a, depth as nat),
        present(mm.heap_view(), b, depth as nat),
    ensures
        r == values_eq(mm.heap_view(), a, b, depth as nat),
    decreases depth,
{
    let ghost h = mm.heap_view();
    match (a, b) {
        (Value::Null, Value::Null) => true,
        (Value::Boolean(x), Value::Boolean(y)) => x == y,
        (Value::Number(x), Value::Number(y)) => doubles_equal(x, y),
        (Value::String(x), Value::String(y)) => {
            proof {
                let sx = h[x]->String_0.content@;
                if sx == h[y]->String_0.content@ {
                    assert(string_at(h, x, sx) && string_at(h, y, sx));
                }
            }
            key_eq(x, y)
        },
        (Value::Array(x), Value::Array(y)) => {
            if depth == 0 {
                return false;
            }
            let ex = &mm.load_array(x).elements;
            let ey = &mm.load_array(y).elements;
            if ex.len() != ey.len() {
                return false;
            }
            let mut i: usize = 0;
            while i < ex.len()
                invariant
                    i <= ex@.len(),
                    ex@ == h[x]->Array_0.elements@,
                    ey@ == h[y]->Array_0.elements@,
                    ex@.len() == ey@.len(),
                    h == mm.heap_view(),
                    mm.wf(),
                    depth > 0,
                    present(h, a, depth as nat),
                    present(h, b, depth as nat),
                    a == Value::Array(x),
                    b == Value::Array(y),
                    forall|m: int| 0 <= m < i ==> values_eq(h, #[trigger] ex@[m], ey@[m], (depth - 1) as nat),
                decreases ex.len() - i,
            {
                assert(present(h, ex@[i as int], (depth - 1) as nat));
                assert(present(h, ey@[i as int], (depth - 1) as nat));
                if !equal_within(ex[i], ey[i], mm, depth - 1) {
                    return false;
                }
                i += 1;
            }
            true
        },
        (Value::Object(x), Value::Object(y)) => {
            if depth == 0 {
                return false;
            }
            let px = &mm.load_object(x).properties;
            let py = &mm.load_object(y).properties;
            if px.len() != py.len() {
                return false;
            }
            let mut i: usize = 0;
            while i < px.len()
                invariant
                    i <= px@.len(),
                    px@ == h[x]->Object_0.properties@,
                    py@ == h[y]->Object_0.properties@,
                    px@.len() == py@.len(),
                    h == mm.heap_view(),
                    mm.wf(),
                    depth > 0,
                    present(h, a, depth as nat),
                    present(h, b, depth as nat),
                    a == Value::Object(x),
                    b == Value::Object(y),
                    forall|m: int|
                        0 <= m < i ==> exists|j: int|
                            0 <= j < py@.len() && h[(#[trigger] px@[m]).0]->String_0.content@
                                == h[py@[j].0]->String_0.content@ && values_eq(
                                h,
                                px@[m].1,
                                py@[j].1,
                                (depth - 1) as nat,
                            ),
                decreases px.len() - i,
            {
                let p = px[i];
                assert(px@[i as int] == p);
                let ghost name = h[p.0]->String_0.content@;
                match find_key(py, p.0) {
                    None => {
                        proof {
                            assert forall|j: int| 0 <= j < py@.len() implies !(h[p.0]->String_0.content@
                                == h[py@[j].0]->String_0.content@) by {
                                let q = py@[j];
                                if h[p.0]->String_0.content@ == h[q.0]->String_0.content@ {
                                    assert(string_at(h, p.0, name) && string_at(h, q.0, name));
                                }
                            }
                        }
                        return false;
                    },
                    Some(j) => {
                        let q = py[j];
                        if !equal_within(p.1, q.1, mm, depth - 1) {
                            proof {
                                assert forall|j2: int| 0 <= j2 < py@.len() && h[p.0]->String_0.content@
                                    == h[py@[j2].0]->String_0.content@ implies !values_eq(
                                    h,
                                    p.1,
                                    py@[j2].1,
                                    (depth - 1) as nat,
                                ) by {
                                    let q2 = py@[j2];
                                    assert(string_at(h, p.0, name) && string_at(h, q2.0, name));
                                    assert(q2.0 == q.0);
                                    if j2 != j {
                                        if j2 < j {
                                            assert(crate::memory_manager::keys_unique(py@));
                                        } else {
                                            assert(crate::memory_manager::keys_unique(py@));
                                        }
                                    }
                                }
                            }
                            return false;
                        }
                    },
                }
                i += 1;
            }
            true
        },
        _ => false,
    }
}

/// Whether two values are equal as jsonnet compares them: null, booleans
/// and numbers (as doubles) by value, strings by their text, arrays element
/// by element, and objects by their fields' names and values, whatever
/// their order; values of other kinds are never equal.
pub fn values_equal(a: Value, b: Value, mm: &MemoryManager) -> (r: bool)
    requires
        mm.wf(),
        present(mm.heap_view(), a, usize::MAX as nat),
        present(mm.heap_view(), b, usize::MAX as nat),
    ensures
        r == values_eq(mm.heap_view(), a, b, usize::MAX as nat),
{
    equal_within(a, b, mm, usize::MAX)
}

} // verus!
