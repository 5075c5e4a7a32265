//! The text computations behind the standard library's string functions:
//! stripping, substrings, prefixes and suffixes, splitting, replacing,
//! repeating, code points and UTF-8.

use vstd::prelude::*;
use crate::native::has_char;
use crate::native::nat_decimal;
use crate::native::u64_decimal;
use crate::native::slice_chars;
use crate::text::char_from_u32;
use crate::text::chars_of;
use vstd::utf8::decode_utf8;
use vstd::utf8::encode_utf8;
use vstd::utf8::is_scalar;
use vstd::utf8::valid_utf8;
use crate::text::matches_at;
use crate::text::occurs_at;
use crate::text::string_of;
use crate::text::utf8_len;

verus! {

// ---------------------------------------------------------------- stripping

/// The text without its leading characters that belong to `set`.
pub open spec fn lstripped(s: Seq<char>, set: Seq<char>) -> Seq<char>
    decreases s.len(),
{
    if s.len() > 0 && set.contains(s[0]) {
        lstripped(s.drop_first(), set)
    } else {
        s
    }
}

/// The text without its trailing characters that belong to `set`.
pub open spec fn rstripped(s: Seq<char>, set: Seq<char>) -> Seq<char>
    decreases s.len(),
{
    if s.len() > 0 && set.contains(s.last()) {
        rstripped(s.drop_last(), set)
    } else {
        s
    }
}

/// The text without its leading and trailing characters that belong to `set`.
pub open spec fn stripped(s: Seq<char>, set: Seq<char>) -> Seq<char> {
    rstripped(lstripped(s, set), set)
}

/// The index of the first character outside `set` (the length if none).
fn leading_end(s: &Vec<char>, set: &Vec<char>) -> (k: usize)
    ensures
        k <= s@.len(),
        lstripped(s@, set@) == s@.skip(k as int),
{
    let mut k: usize = 0;
    proof {
        assert(s@.skip(0) =~= s@);
    }
    while k < s.len() && has_char(set, s[k])
        invariant
            k <= s@.len(),
            lstripped(s@, set@) == lstripped(s@.skip(k as int), set@),
        decreases s.len() - k,
    {
        proof {
            assert(s@.skip(k as int)[0] == s@[k as int]);
            assert(s@.skip(k as int).drop_first() =~= s@.skip(k + 1));
        }
        k += 1;
    }
    k
}

/// The index just past the last character outside `set` (zero if none).
fn trailing_start(s: &Vec<char>, set: &Vec<char>) -> (e: usize)
    ensures
        e <= s@.len(),
        rstripped(s@, set@) == s@.take(e as int),
{
    let mut e = s.len();
    proof {
        assert(s@.take(e as int) =~= s@);
    }
    while e > 0 && has_char(set, s[e - 1])
        invariant
            e <= s@.len(),
            rstripped(s@, set@) == rstripped(s@.take(e as int), set@),
        decreases e,
    {
        proof {
            assert(s@.take(e as int).last() == s@[e - 1]);
            assert(s@.take(e as int).drop_last() =~= s@.take(e - 1));
        }
        e -= 1;
    }
    e
}

/// Removes the characters of `chars` from both ends of `s`.
pub fn strip_chars(s: &str, chars: &str) -> (r: String)
    ensures
        r@ == stripped(s@, chars@),
{
    let cs = chars_of(s);
    let set = chars_of(chars);
    let k = leading_end(&cs, &set);
    let rest = slice_chars(&cs, k, cs.len());
    proof {
        assert(rest@ =~= cs@.skip(k as int));
    }
    let e = trailing_start(&rest, &set);
    let kept = slice_chars(&rest, 0, e);
    proof {
        assert(kept@ =~= rest@.take(e as int));
    }
    string_of(&kept)
}

/// Removes the characters of `chars` from the start of `s`.
pub fn lstrip_chars(s: &str, chars: &str) -> (r: String)
    ensures
        r@ == lstripped(s@, chars@),
{
    let cs = chars_of(s);
    let set = chars_of(chars);
    let k = leading_end(&cs, &set);
    let rest = slice_chars(&cs, k, cs.len());
    proof {
        assert(rest@ =~= cs@.skip(k as int));
    }
    string_of(&rest)
}

/// Removes the characters of `chars` from the end of `s`.
pub fn rstrip_chars(s: &str, chars: &str) -> (r: String)
    ensures
        r@ == rstripped(s@, chars@),
{
    let cs = chars_of(s);
    let set = chars_of(chars);
    let e = trailing_start(&cs, &set);
    let kept = slice_chars(&cs, 0, e);
    proof {
        assert(kept@ =~= cs@.take(e as int));
    }
    string_of(&kept)
}

// ---------------------------------------------------------------- substrings, prefixes

/// The smaller of two integers.
pub open spec fn min_int(a: int, b: int) -> int {
    if a < b {
        a
    } else {
        b
    }
}

/// The `len` characters of `s` from character `from`, cut off at the end
/// of `s`.
pub fn substr(s: &str, from: usize, len: usize) -> (r: String)
    requires
        from + len <= usize::MAX,
    ensures
        r@ == s@.subrange(min_int(from as int, s@.len() as int), min_int(from + len, s@.len() as int)),
{
    let cs = chars_of(s);
    let n = cs.len();
    let end = if from + len < n {
        from + len
    } else {
        n
    };
    let start = if from < n {
        from
    } else {
        n
    };
    let part = slice_chars(&cs, start, end);
    string_of(&part)
}

/// Whether `a` begins with `b`.
pub fn starts_with(a: &str, b: &str) -> (r: bool)
    ensures
        r == (b@.len() <= a@.len() && a@.take(b@.len() as int) == b@),
{
    let ac = chars_of(a);
    let bc = chars_of(b);
    if bc.len() > ac.len() {
        return false;
    }
    let mut i: usize = 0;
    while i < bc.len()
        invariant
            i <= bc@.len() <= ac@.len(),
            ac@ == a@,
            bc@ == b@,
            forall|j: int| 0 <= j < i ==> ac@[j] == bc@[j],
        decreases bc.len() - i,
    {
        if ac[i] != bc[i] {
            assert(ac@.take(bc@.len() as int)[i as int] != bc@[i as int]);
            return false;
        }
        i += 1;
    }
    assert(ac@.take(bc@.len() as int) =~= bc@);
    true
}

/// Whether `a` ends with `b`.
pub fn ends_with(a: &str, b: &str) -> (r: bool)
    ensures
        r == (b@.len() <= a@.len() && a@.skip(a@.len() - b@.len()) == b@),
{
    let ac = chars_of(a);
    let bc = chars_of(b);
    if bc.len() > ac.len() {
        return false;
    }
    let off = ac.len() - bc.len();
    let mut i: usize = 0;
    while i < bc.len()
        invariant
            i <= bc@.len() <= ac@.len(),
            off == ac@.len() - bc@.len(),
            off + bc@.len() <= usize::MAX,
            ac@ == a@,
            bc@ == b@,
            forall|j: int| 0 <= j < i ==> ac@[off + j] == bc@[j],
        decreases bc.len() - i,
    {
        if ac[off + i] != bc[i] {
            assert(ac@.skip(off as int)[i as int] != bc@[i as int]);
            return false;
        }
        i += 1;
    }
    assert(ac@.skip(off as int) =~= bc@);
    true
}

// ---------------------------------------------------------------- splitting

/// The texts of a list of strings.
pub open spec fn texts(v: Seq<String>) -> Seq<Seq<char>> {
    v.map_values(|x: String| x@)
}

/// The first index at or after `i` where `sep` occurs in `s`.
pub open spec fn find_from(s: Seq<char>, sep: Seq<char>, i: int) -> Option<int>
    decreases s.len() + 1 - i,
{
    if i < 0 || i + sep.len() > s.len() {
        None
    } else if occurs_at(s, sep, i) {
        Some(i)
    } else {
        find_from(s, sep, i + 1)
    }
}

/// The last index at which `sep` occurs wholly before `end`.
pub open spec fn rfind_before(s: Seq<char>, sep: Seq<char>, end: int) -> Option<int>
    decreases end + 1,
{
    if end < 0 || end > s.len() || end < sep.len() {
        None
    } else if occurs_at(s, sep, end - sep.len()) {
        Some(end - sep.len())
    } else {
        rfind_before(s, sep, end - 1)
    }
}

/// What `find_from` finds is an occurrence, the first from `i` on.
pub proof fn lemma_find_from(s: Seq<char>, sep: Seq<char>, i: int)
    requires
        0 <= i,
    ensures
        match find_from(s, sep, i) {
            Some(k) => i <= k && k + sep.len() <= s.len() && occurs_at(s, sep, k) && forall|j: int|
                i <= j < k ==> !occurs_at(s, sep, j),
            None => forall|j: int| i <= j ==> !occurs_at(s, sep, j),
        },
    decreases s.len() + 1 - i,
{
    if i < 0 || i + sep.len() > s.len() {
    } else if occurs_at(s, sep, i) {
    } else {
        lemma_find_from(s, sep, i + 1);
    }
}

/// What `rfind_before` finds is an occurrence ending by `end`, the last one.
pub proof fn lemma_rfind_before(s: Seq<char>, sep: Seq<char>, end: int)
    requires
        end <= s.len(),
    ensures
        match rfind_before(s, sep, end) {
            Some(k) => 0 <= k && k + sep.len() <= end && occurs_at(s, sep, k) && forall|j: int|
                k < j && j + sep.len() <= end ==> !occurs_at(s, sep, j),
            None => forall|j: int| 0 <= j && j + sep.len() <= end ==> !occurs_at(s, sep, j),
        },
    decreases end + 1,
{
    if end < 0 || end < sep.len() {
    } else if occurs_at(s, sep, end - sep.len()) {
    } else {
        lemma_rfind_before(s, sep, end - 1);
    }
}

/// The pieces of `s` from index `from` on between the occurrences of a
/// non-empty `sep`, found left to right.
pub open spec fn split_from(s: Seq<char>, sep: Seq<char>, from: int) -> Seq<Seq<char>>
    decreases s.len() - from,
{
    if sep.len() == 0 || from < 0 || from > s.len() {
        Seq::empty()
    } else {
        match find_from(s, sep, from) {
            None => seq![s.subrange(from, s.len() as int)],
            Some(k) => {
                proof {
                    lemma_find_from(s, sep, from);
                }
                seq![s.subrange(from, k)] + split_from(s, sep, k + sep.len())
            },
        }
    }
}

/// Like `split_from`, but with at most `n` pieces: the last one is the rest.
pub open spec fn splitn_from(s: Seq<char>, sep: Seq<char>, from: int, n: nat) -> Seq<Seq<char>>
    decreases s.len() - from,
{
    if sep.len() == 0 || from < 0 || from > s.len() {
        Seq::empty()
    } else if n <= 1 {
        seq![s.subrange(from, s.len() as int)]
    } else {
        match find_from(s, sep, from) {
            None => seq![s.subrange(from, s.len() as int)],
            Some(k) => {
                proof {
                    lemma_find_from(s, sep, from);
                }
                seq![s.subrange(from, k)] + splitn_from(s, sep, k + sep.len(), (n - 1) as nat)
            },
        }
    }
}

/// The pieces of `s` before `end` between the occurrences of a non-empty
/// `sep`, found right to left, at most `n` of them, rightmost first.
pub open spec fn rsplitn_upto(s: Seq<char>, sep: Seq<char>, end: int, n: nat) -> Seq<Seq<char>>
    decreases end,
{
    if sep.len() == 0 || end < 0 || end > s.len() {
        Seq::empty()
    } else if n <= 1 {
        seq![s.take(end)]
    } else {
        match rfind_before(s, sep, end) {
            None => seq![s.take(end)],
            Some(k) => {
                proof {
                    lemma_rfind_before(s, sep, end);
                }
                seq![s.subrange(k + sep.len(), end)] + rsplitn_upto(s, sep, k, (n - 1) as nat)
            },
        }
    }
}

/// Splitting by the empty text cuts before every character and at the end:
/// an empty piece, each character, an empty piece.
pub open spec fn split_empty(s: Seq<char>) -> Seq<Seq<char>> {
    seq![Seq::<char>::empty()] + s.map_values(|c: char| seq![c]) + seq![Seq::<char>::empty()]
}

/// The pieces of `s` between the occurrences of `sep`.
pub open spec fn split_seq(s: Seq<char>, sep: Seq<char>) -> Seq<Seq<char>> {
    if sep.len() == 0 {
        split_empty(s)
    } else {
        split_from(s, sep, 0)
    }
}

/// The pieces of `s` between the first occurrences of `sep`, at most `n`
/// (at least one) of them; the last piece holds the rest.
pub open spec fn splitn_seq(s: Seq<char>, sep: Seq<char>, n: nat) -> Seq<Seq<char>> {
    if sep.len() == 0 {
        if n <= 1 {
            seq![s]
        } else if n >= s.len() + 2 {
            split_empty(s)
        } else {
            split_empty(s).take(n - 1) + seq![s.skip(n - 2)]
        }
    } else {
        splitn_from(s, sep, 0, n)
    }
}

/// The pieces of `s` between the last occurrences of `sep`, at most `n`
/// (at least one) of them, rightmost first; the last piece holds the rest.
pub open spec fn rsplitn_seq(s: Seq<char>, sep: Seq<char>, n: nat) -> Seq<Seq<char>> {
    if sep.len() == 0 {
        if n <= 1 {
            seq![s]
        } else if n >= s.len() + 2 {
            split_empty(s).reverse()
        } else {
            split_empty(s).reverse().take(n - 1) + seq![s.take(s.len() - (n - 2))]
        }
    } else {
        rsplitn_upto(s, sep, s.len() as int, n)
    }
}

/// The first index at or after `from` where `sep` occurs.
fn find_at_or_after(s: &Vec<char>, sep: &Vec<char>, from: usize) -> (r: Option<usize>)
    requires
        from <= s@.len(),
    ensures
        match r {
            Some(k) => find_from(s@, sep@, from as int) == Some(k as int),
            None => find_from(s@, sep@, from as int) is None,
        },
{
    proof {
        lemma_find_from(s@, sep@, from as int);
    }
    if sep.len() > s.len() - from {
        return None;
    }
    let last = s.len() - sep.len();
    let mut i = from;
    while i < last
        invariant
            from <= i <= last,
            last + sep@.len() == s@.len(),
            find_from(s@, sep@, from as int) == find_from(s@, sep@, i as int),
        decreases last - i,
    {
        if matches_at(s, sep, i) {
            return Some(i);
        }
        i += 1;
    }
    if matches_at(s, sep, last) {
        Some(last)
    } else {
        assert(find_from(s@, sep@, last + 1) is None);
        None
    }
}

/// The last index at which `sep` occurs wholly before `end`.
fn rfind_ending_by(s: &Vec<char>, sep: &Vec<char>, end: usize) -> (r: Option<usize>)
    requires
        end <= s@.len(),
    ensures
        match r {
            Some(k) => rfind_before(s@, sep@, end as int) == Some(k as int),
            None => rfind_before(s@, sep@, end as int) is None,
        },
{
    proof {
        lemma_rfind_before(s@, sep@, end as int);
    }
    if sep.len() == 0 {
        proof {
            assert(s@.subrange(end as int, end as int) =~= sep@);
        }
        return Some(end);
    }
    let mut e = end;
    while e >= sep.len()
        invariant
            e <= end <= s@.len(),
            sep@.len() > 0,
            rfind_before(s@, sep@, end as int) == rfind_before(s@, sep@, e as int),
        decreases e,
    {
        if matches_at(s, sep, e - sep.len()) {
            return Some(e - sep.len());
        }
        e -= 1;
    }
    None
}

/// The pieces of a text cut by the empty text.
fn split_by_empty(cs: &Vec<char>) -> (r: Vec<String>)
    ensures
        texts(r@) == split_empty(cs@),
{
    let mut r: Vec<String> = Vec::new();
    r.push(String::new());
    let mut i: usize = 0;
    while i < cs.len()
        invariant
            i <= cs@.len(),
            texts(r@) == seq![Seq::<char>::empty()] + cs@.take(i as int).map_values(
                |c: char| seq![c],
            ),
        decreases cs.len() - i,
    {
        let mut one = String::new();
        crate::text::push_char(&mut one, cs[i]);
        let ghost prev = texts(r@);
        r.push(one);
        proof {
            assert(texts(r@) =~= prev.push(seq![cs@[i as int]]));
            assert(cs@.take(i + 1).map_values(|c: char| seq![c]) =~= cs@.take(i as int).map_values(
                |c: char| seq![c],
            ).push(seq![cs@[i as int]]));
            assert(texts(r@) =~= seq![Seq::<char>::empty()] + cs@.take(i + 1).map_values(
                |c: char| seq![c],
            ));
        }
        i += 1;
    }
    r.push(String::new());
    proof {
        assert(cs@.take(cs@.len() as int) =~= cs@);
        assert(texts(r@) =~= split_empty(cs@));
    }
    r
}

/// A string of the characters from `from` up to `to`.
fn piece(cs: &Vec<char>, from: usize, to: usize) -> (r: String)
    requires
        from <= to <= cs@.len(),
    ensures
        r@ == cs@.subrange(from as int, to as int),
{
    let part = slice_chars(cs, from, to);
    string_of(&part)
}

/// The pieces between the occurrences of a non-empty separator.
fn split_nonempty(cs: &Vec<char>, sc: &Vec<char>) -> (r: Vec<String>)
    requires
        sc@.len() > 0,
    ensures
        texts(r@) == split_from(cs@, sc@, 0),
{
    let mut r: Vec<String> = Vec::new();
    let total = cs.len();
    let mut from: usize = 0;
    loop
        invariant
            total == cs@.len(),
            from <= cs@.len(),
            sc@.len() > 0,
            texts(r@) + split_from(cs@, sc@, from as int) == split_from(cs@, sc@, 0),
        decreases cs@.len() - from,
    {
        let ghost prev = texts(r@);
        match find_at_or_after(cs, sc, from) {
            None => {
                r.push(piece(cs, from, cs.len()));
                proof {
                    assert(texts(r@) =~= prev + split_from(cs@, sc@, from as int));
                }
                return r;
            },
            Some(k) => {
                proof {
                    lemma_find_from(cs@, sc@, from as int);
                }
                r.push(piece(cs, from, k));
                proof {
                    assert(texts(r@) =~= prev.push(cs@.subrange(from as int, k as int)));
                    assert(texts(r@) + split_from(cs@, sc@, k + sc@.len()) =~= prev + split_from(
                        cs@,
                        sc@,
                        from as int,
                    ));
                }
                from = k + sc.len();
            },
        }
    }
}

/// At most `n` pieces between the first occurrences of a non-empty separator.
fn splitn_nonempty(cs: &Vec<char>, sc: &Vec<char>, n: u64) -> (r: Vec<String>)
    requires
        sc@.len() > 0,
        n >= 1,
    ensures
        texts(r@) == splitn_from(cs@, sc@, 0, n as nat),
{
    let mut r: Vec<String> = Vec::new();
    let total = cs.len();
    let mut from: usize = 0;
    let mut left: u64 = n;
    loop
        invariant
            total == cs@.len(),
            from <= cs@.len(),
            sc@.len() > 0,
            left >= 1,
            texts(r@) + splitn_from(cs@, sc@, from as int, left as nat) == splitn_from(
                cs@,
                sc@,
                0,
                n as nat,
            ),
        decreases cs@.len() - from,
    {
        let ghost prev = texts(r@);
        if left <= 1 {
            r.push(piece(cs, from, cs.len()));
            proof {
                assert(texts(r@) =~= prev + splitn_from(cs@, sc@, from as int, left as nat));
            }
            return r;
        }
        match find_at_or_after(cs, sc, from) {
            None => {
                r.push(piece(cs, from, cs.len()));
                proof {
                    assert(texts(r@) =~= prev + splitn_from(cs@, sc@, from as int, left as nat));
                }
                return r;
            },
            Some(k) => {
                proof {
                    lemma_find_from(cs@, sc@, from as int);
                }
                r.push(piece(cs, from, k));
                proof {
                    assert(texts(r@) =~= prev.push(cs@.subrange(from as int, k as int)));
                    assert(texts(r@) + splitn_from(cs@, sc@, k + sc@.len(), (left - 1) as nat)
                        =~= prev + splitn_from(cs@, sc@, from as int, left as nat));
                }
                from = k + sc.len();
                left = left - 1;
            },
        }
    }
}

/// At most `n` pieces between the last occurrences of a non-empty
/// separator, rightmost first.
fn rsplitn_nonempty(cs: &Vec<char>, sc: &Vec<char>, n: u64) -> (r: Vec<String>)
    requires
        sc@.len() > 0,
        n >= 1,
    ensures
        texts(r@) == rsplitn_upto(cs@, sc@, cs@.len() as int, n as nat),
{
    let mut r: Vec<String> = Vec::new();
    let mut end: usize = cs.len();
    let mut left: u64 = n;
    loop
        invariant
            end <= cs@.len(),
            sc@.len() > 0,
            left >= 1,
            texts(r@) + rsplitn_upto(cs@, sc@, end as int, left as nat) == rsplitn_upto(
                cs@,
                sc@,
                cs@.len() as int,
                n as nat,
            ),
        decreases end,
    {
        let ghost prev = texts(r@);
        if left <= 1 {
            r.push(piece(cs, 0, end));
            proof {
                assert(texts(r@) =~= prev + rsplitn_upto(cs@, sc@, end as int, left as nat));
            }
            return r;
        }
        match rfind_ending_by(cs, sc, end) {
            None => {
                r.push(piece(cs, 0, end));
                proof {
                    assert(texts(r@) =~= prev + rsplitn_upto(cs@, sc@, end as int, left as nat));
                }
                return r;
            },
            Some(k) => {
                proof {
                    lemma_rfind_before(cs@, sc@, end as int);
                }
                r.push(piece(cs, k + sc.len(), end));
                proof {
                    assert(texts(r@) =~= prev.push(cs@.subrange(k + sc@.len(), end as int)));
                    assert(texts(r@) + rsplitn_upto(cs@, sc@, k as int, (left - 1) as nat)
                        =~= prev + rsplitn_upto(cs@, sc@, end as int, left as nat));
                }
                end = k;
                left = left - 1;
            },
        }
    }
}

/// The strings in reverse order.
fn reversed(v: Vec<String>) -> (r: Vec<String>)
    ensures
        texts(r@) == texts(v@).reverse(),
{
    let ghost orig = v@;
    let mut v = v;
    let mut r: Vec<String> = Vec::new();
    while v.len() > 0
        invariant
            v@ == orig.take(v@.len() as int),
            v@.len() <= orig.len(),
            texts(r@) == texts(orig.skip(v@.len() as int)).reverse(),
        decreases v@.len(),
    {
        let ghost before = v@;
        let x = v.pop().unwrap();
        let ghost prev_r = texts(r@);
        r.push(x);
        proof {
            assert(texts(r@) =~= prev_r.push(x@));
            assert(v@ =~= orig.take(v@.len() as int));
            assert(texts(orig.skip(v@.len() as int)) =~= seq![x@] + texts(orig.skip(before.len() as int)));
            assert(texts(r@) =~= texts(orig.skip(v@.len() as int)).reverse());
        }
    }
    proof {
        assert(orig.skip(0) =~= orig);
    }
    r
}

/// At most `n` pieces of a text cut by the empty text, from the left.
fn splitn_by_empty(cs: &Vec<char>, n: u64) -> (r: Vec<String>)
    requires
        n >= 1,
    ensures
        texts(r@) == splitn_seq(cs@, Seq::empty(), n as nat),
{
    if n <= 1 {
        let mut r: Vec<String> = Vec::new();
        r.push(string_of(cs));
        proof {
            assert(texts(r@) =~= seq![cs@]);
        }
        return r;
    }
    if n - 2 >= cs.len() as u64 {
        return split_by_empty(cs);
    }
    let m = (n - 2) as usize;
    let all = split_by_empty(cs);
    let mut r: Vec<String> = Vec::new();
    r.push(String::new());
    let mut i: usize = 0;
    while i < m
        invariant
            i <= m < cs@.len(),
            texts(all@) == split_empty(cs@),
            texts(r@) == split_empty(cs@).take(i + 1),
        decreases m - i,
    {
        let ghost prev = texts(r@);
        let mut one = String::new();
        crate::text::push_char(&mut one, cs[i]);
        r.push(one);
        proof {
            assert(one@ =~= seq![cs@[i as int]]);
            assert(texts(r@) =~= prev.push(seq![cs@[i as int]]));
            assert(split_empty(cs@)[i + 1] =~= seq![cs@[i as int]]);
            assert(split_empty(cs@).take(i + 2) =~= split_empty(cs@).take(i + 1).push(
                split_empty(cs@)[i + 1],
            ));
            assert(texts(r@) =~= split_empty(cs@).take(i + 2));
        }
        i += 1;
    }
    let ghost prev = texts(r@);
    r.push(piece(cs, m, cs.len()));
    proof {
        assert(cs@.subrange(m as int, cs@.len() as int) =~= cs@.skip(m as int));
        assert(texts(r@) =~= prev.push(cs@.skip(m as int)));
    }
    r
}

/// At most `n` pieces of a text cut by the empty text, from the right,
/// rightmost first.
fn rsplitn_by_empty(cs: &Vec<char>, n: u64) -> (r: Vec<String>)
    requires
        n >= 1,
    ensures
        texts(r@) == rsplitn_seq(cs@, Seq::empty(), n as nat),
{
    if n <= 1 {
        let mut r: Vec<String> = Vec::new();
        r.push(string_of(cs));
        proof {
            assert(texts(r@) =~= seq![cs@]);
        }
        return r;
    }
    if n - 2 >= cs.len() as u64 {
        let all = split_by_empty(cs);
        return reversed(all);
    }
    let m = (n - 2) as usize;
    let len = cs.len();
    let mut r: Vec<String> = Vec::new();
    r.push(String::new());
    let mut i: usize = 0;
    while i < m
        invariant
            i <= m < cs@.len(),
            len == cs@.len(),
            texts(r@) == split_empty(cs@).reverse().take(i + 1),
        decreases m - i,
    {
        let mut one = String::new();
        crate::text::push_char(&mut one, cs[len - 1 - i]);
        let ghost prev = texts(r@);
        r.push(one);
        proof {
            assert(texts(r@) =~= prev.push(seq![cs@[len - 1 - i]]));
            assert(split_empty(cs@).reverse()[i + 1] == split_empty(cs@)[len - i]);
            assert(split_empty(cs@)[len - i] =~= seq![cs@[len - 1 - i]]);
            assert(split_empty(cs@).reverse().take(i + 2) =~= split_empty(cs@).reverse().take(
                i + 1,
            ).push(split_empty(cs@).reverse()[i + 1]));
            assert(texts(r@) =~= split_empty(cs@).reverse().take(i + 2));
        }
        i += 1;
    }
    let ghost prev = texts(r@);
    r.push(piece(cs, 0, len - m));
    proof {
        assert(cs@.subrange(0, len - m) =~= cs@.take(cs@.len() - m));
        assert(texts(r@) =~= prev.push(cs@.take(cs@.len() - m)));
    }
    r
}

/// Splits `s` at every occurrence of `sep`; an empty `sep` cuts before
/// every character and at the end.
pub fn split(s: &str, sep: &str) -> (r: Vec<String>)
    ensures
        texts(r@) == split_seq(s@, sep@),
{
    let cs = chars_of(s);
    let sc = chars_of(sep);
    if sc.len() == 0 {
        split_by_empty(&cs)
    } else {
        split_nonempty(&cs, &sc)
    }
}

/// Splits `s` at the first `max` occurrences of `sep` (at every one when
/// `max` is negative).
pub fn split_limit(s: &str, sep: &str, max: i64) -> (r: Vec<String>)
    ensures
        texts(r@) == (if max < 0 {
            split_seq(s@, sep@)
        } else {
            splitn_seq(s@, sep@, (max + 1) as nat)
        }),
{
    if max < 0 {
        return split(s, sep);
    }
    let n = (max as u64) + 1;
    let cs = chars_of(s);
    let sc = chars_of(sep);
    if sc.len() == 0 {
        splitn_by_empty(&cs, n)
    } else {
        splitn_nonempty(&cs, &sc, n)
    }
}

/// Splits `s` at the last `max` occurrences of `sep` (at every one when
/// `max` is negative); the pieces stay in text order.
pub fn split_limit_r(s: &str, sep: &str, max: i64) -> (r: Vec<String>)
    ensures
        texts(r@) == (if max < 0 {
            split_seq(s@, sep@)
        } else {
            rsplitn_seq(s@, sep@, (max + 1) as nat).reverse()
        }),
{
    if max < 0 {
        return split(s, sep);
    }
    let n = (max as u64) + 1;
    let cs = chars_of(s);
    let sc = chars_of(sep);
    let from_right = if sc.len() == 0 {
        rsplitn_by_empty(&cs, n)
    } else {
        rsplitn_nonempty(&cs, &sc, n)
    };
    reversed(from_right)
}

// ---------------------------------------------------------------- joining, replacing, repeating

/// The pieces with `sep` between each two.
pub open spec fn join_seq(parts: Seq<Seq<char>>, sep: Seq<char>) -> Seq<char>
    decreases parts.len(),
{
    if parts.len() == 0 {
        Seq::empty()
    } else if parts.len() == 1 {
        parts[0]
    } else {
        join_seq(parts.drop_last(), sep) + sep + parts.last()
    }
}

/// `s` with every occurrence of `from`, found left to right, replaced by
/// `to`: the pieces between the occurrences joined with `to`.
pub open spec fn replaced(s: Seq<char>, from: Seq<char>, to: Seq<char>) -> Seq<char> {
    join_seq(split_seq(s, from), to)
}

/// `n` copies of a text, one after another.
pub open spec fn repeated(s: Seq<char>, n: nat) -> Seq<char>
    decreases n,
{
    if n == 0 {
        Seq::empty()
    } else {
        repeated(s, (n - 1) as nat) + s
    }
}

/// Joins strings with a separator between each two.
pub fn join_strings(sep: &str, parts: &Vec<String>) -> (r: String)
    ensures
        r@ == join_seq(texts(parts@), sep@),
{
    let mut r = String::new();
    let mut i: usize = 0;
    while i < parts.len()
        invariant
            i <= parts@.len(),
            r@ == join_seq(texts(parts@.take(i as int)), sep@),
        decreases parts.len() - i,
    {
        let ghost before = parts@.take(i as int);
        if i > 0 {
            crate::text::push_str(&mut r, sep);
        }
        crate::text::push_str(&mut r, parts[i].as_str());
        proof {
            let next = texts(parts@.take(i + 1));
            assert(next.drop_last() =~= texts(before));
            assert(next.last() == parts@[i as int]@);
            if i == 0 {
                assert(r@ =~= next[0]);
            }
        }
        i += 1;
    }
    proof {
        assert(parts@.take(parts@.len() as int) =~= parts@);
    }
    r
}

/// Replaces every occurrence of `from`, found left to right, by `to`; an
/// empty `from` matches before every character and at the end.
pub fn str_replace(s: &str, from: &str, to: &str) -> (r: String)
    ensures
        r@ == replaced(s@, from@, to@),
{
    let parts = split(s, from);
    join_strings(to, &parts)
}

/// `count` copies of `s`; their bytes must be countable in a `usize`.
pub fn repeat_string(s: &str, count: usize) -> (r: String)
    requires
        utf8_len(s@) * count <= usize::MAX,
    ensures
        r@ == repeated(s@, count as nat),
{
    let mut r = String::new();
    let mut i: usize = 0;
    while i < count
        invariant
            i <= count,
            r@ == repeated(s@, i as nat),
        decreases count - i,
    {
        crate::text::push_str(&mut r, s);
        i += 1;
    }
    r
}

/// Each character of a text as a text of its own.
pub open spec fn single_chars(s: Seq<char>) -> Seq<Seq<char>> {
    s.map_values(|c: char| seq![c])
}

/// The characters of a text, each as a one-character string.
pub fn string_chars(s: &str) -> (r: Vec<String>)
    ensures
        texts(r@) == single_chars(s@),
{
    let cs = chars_of(s);
    let mut r: Vec<String> = Vec::new();
    let mut i: usize = 0;
    while i < cs.len()
        invariant
            i <= cs@.len(),
            cs@ == s@,
            texts(r@) == single_chars(cs@.take(i as int)),
        decreases cs.len() - i,
    {
        let mut one = String::new();
        crate::text::push_char(&mut one, cs[i]);
        let ghost prev = texts(r@);
        r.push(one);
        proof {
            assert(texts(r@) =~= prev.push(seq![cs@[i as int]]));
            assert(single_chars(cs@.take(i + 1)) =~= single_chars(cs@.take(i as int)).push(
                seq![cs@[i as int]],
            ));
        }
        i += 1;
    }
    proof {
        assert(cs@.take(cs@.len() as int) =~= cs@);
    }
    r
}

/// The texts, each followed by a line feed.
pub open spec fn lines_joined(parts: Seq<Seq<char>>) -> Seq<char>
    decreases parts.len(),
{
    if parts.len() == 0 {
        Seq::empty()
    } else {
        lines_joined(parts.drop_last()) + parts.last() + seq!['\n']
    }
}

/// Writes each string followed by a line feed.
pub fn lines_text(parts: &Vec<String>) -> (r: String)
    ensures
        r@ == lines_joined(texts(parts@)),
{
    let mut r = String::new();
    let mut i: usize = 0;
    while i < parts.len()
        invariant
            i <= parts@.len(),
            r@ == lines_joined(texts(parts@.take(i as int))),
        decreases parts.len() - i,
    {
        crate::text::push_str(&mut r, parts[i].as_str());
        crate::text::push_char(&mut r, '\n');
        proof {
            let next = texts(parts@.take(i + 1));
            assert(next.drop_last() =~= texts(parts@.take(i as int)));
            assert(next.last() == parts@[i as int]@);
        }
        i += 1;
    }
    proof {
        assert(parts@.take(parts@.len() as int) =~= parts@);
    }
    r
}

// ---------------------------------------------------------------- code points

/// The error text of `std.codepoint` for a text that is not one character.
pub open spec fn codepoint_error(s: Seq<char>) -> Seq<char> {
    "std.codepoint() expected string of length 1, got '"@ + s + "'"@
}

/// The code point of a one-character text.
pub fn codepoint(s: &str) -> (r: Result<u32, String>)
    ensures
        s@.len() == 1 ==> r == Ok::<u32, String>(s@[0] as u32),
        s@.len() != 1 ==> r is Err && r->Err_0@ == codepoint_error(s@),
{
    let cs = chars_of(s);
    if cs.len() == 1 {
        return Ok(cs[0] as u32);
    }
    let mut msg = String::new();
    crate::text::push_str(&mut msg, "std.codepoint() expected string of length 1, got '");
    crate::text::push_str(&mut msg, s);
    crate::text::push_str(&mut msg, "'");
    Err(msg)
}

/// The error text of `std.char` for a value that is no Unicode scalar value.
pub open spec fn invalid_codepoint_error(v: u32) -> Seq<char> {
    "std.char() invalid unicode codepoint "@ + nat_decimal(v as nat)
}

/// The one-character string of a code point.
pub fn char_string(v: u32) -> (r: Result<String, String>)
    ensures
        is_scalar(v) ==> r is Ok && r->Ok_0@ == seq![v as char],
        !is_scalar(v) ==> r is Err && r->Err_0@ == invalid_codepoint_error(v),
{
    match char_from_u32(v) {
        Some(c) => {
            let mut out = String::new();
            crate::text::push_char(&mut out, c);
            proof {
                assert(out@ =~= seq![v as char]);
            }
            Ok(out)
        },
        None => {
            let mut msg = String::new();
            crate::text::push_str(&mut msg, "std.char() invalid unicode codepoint ");
            let digits = u64_decimal(v as u64);
            crate::text::append_chars(&mut msg, &digits);
            Err(msg)
        },
    }
}

// ---------------------------------------------------------------- UTF-8

/// The UTF-8 bytes of a text.
pub fn encode_utf8_bytes(s: &str) -> (r: Vec<u8>)
    ensures
        r@ == encode_utf8(s@),
{
    let b = s.as_bytes();
    let mut r: Vec<u8> = Vec::new();
    let mut i: usize = 0;
    while i < b.len()
        invariant
            i <= b@.len(),
            b@ == encode_utf8(s@),
            r@ == b@.take(i as int),
        decreases b.len() - i,
    {
        r.push(b[i]);
        proof {
            assert(b@.take(i + 1) =~= b@.take(i as int).push(b@[i as int]));
        }
        i += 1;
    }
    proof {
        assert(b@.take(b@.len() as int) =~= b@);
    }
    r
}

/// The text of the error that `str::from_utf8` reports for invalid bytes.
pub uninterp spec fn utf8_error_text(bytes: Seq<u8>) -> Seq<char>;

/// Calls `std::str::from_utf8`, which accepts exactly the valid UTF-8
/// byte sequences and then gives the text they encode; for other bytes it
/// gives its error, written out with `Display`. The error text is named,
/// not described.
#[verifier::external_body]
fn str_from_utf8(bytes: &[u8]) -> (r: Result<String, String>)
    ensures
        valid_utf8(bytes@) ==> r is Ok && r->Ok_0@ == decode_utf8(bytes@),
        !valid_utf8(bytes@) ==> r is Err && r->Err_0@ == utf8_error_text(bytes@),
{
    match std::str::from_utf8(bytes) {
        Ok(s) => Ok(s.to_string()),
        Err(e) => Err(format!("{}", e)),
    }
}

/// The error text of `std.decodeUTF8` for a decoding failure described by
/// `detail`.
pub open spec fn decode_error_message(detail: Seq<char>) -> Seq<char> {
    "std.decodeUTF8() invalid UTF-8 sequence: "@ + detail
}

/// Turns the outcome of decoding into the result of `std.decodeUTF8`: the
/// text, or the error with its detail.
pub fn decode_outcome(outcome: Result<String, String>) -> (r: Result<String, String>)
    ensures
        outcome is Ok ==> r == outcome,
        outcome is Err ==> r is Err && r->Err_0@ == decode_error_message(outcome->Err_0@),
{
    match outcome {
        Ok(s) => Ok(s),
        Err(detail) => {
            let mut msg = String::new();
            crate::text::push_str(&mut msg, "std.decodeUTF8() invalid UTF-8 sequence: ");
            crate::text::push_str(&mut msg, detail.as_str());
            Err(msg)
        },
    }
}

/// Decodes UTF-8 bytes into text.
pub fn decode_utf8_bytes(bytes: &Vec<u8>) -> (r: Result<String, String>)
    ensures
        valid_utf8(bytes@) ==> r is Ok && r->Ok_0@ == decode_utf8(bytes@),
        !valid_utf8(bytes@) ==> r is Err && r->Err_0@ == decode_error_message(
            utf8_error_text(bytes@),
        ),
{
    let outcome = str_from_utf8(bytes.as_slice());
    decode_outcome(outcome)
}

// ---------------------------------------------------------------- laws

/// Joining after a first piece adds it, then the separator, in front.
proof fn lemma_join_cons(a: Seq<char>, rest: Seq<Seq<char>>, sep: Seq<char>)
    requires
        rest.len() > 0,
    ensures
        join_seq(seq![a] + rest, sep) == a + sep + join_seq(rest, sep),
    decreases rest.len(),
{
    let all = seq![a] + rest;
    if rest.len() == 1 {
        assert(all.drop_last() =~= seq![a]);
        assert(join_seq(all.drop_last(), sep) == a);
        assert(join_seq(rest, sep) == rest[0]);
        assert(all.last() == rest[0]);
        assert(join_seq(all, sep) =~= a + sep + join_seq(rest, sep));
    } else {
        assert(all.drop_last() =~= seq![a] + rest.drop_last());
        lemma_join_cons(a, rest.drop_last(), sep);
        assert(all.last() == rest.last());
        assert(join_seq(all, sep) =~= a + sep + join_seq(rest, sep));
    }
}

/// The pieces from `from` on, joined with the separator, give the text
/// from `from` on.
proof fn lemma_split_from_join(s: Seq<char>, sep: Seq<char>, from: int)
    requires
        sep.len() > 0,
        0 <= from <= s.len(),
    ensures
        join_seq(split_from(s, sep, from), sep) == s.subrange(from, s.len() as int),
    decreases s.len() - from,
{
    lemma_find_from(s, sep, from);
    match find_from(s, sep, from) {
        None => {
            assert(join_seq(seq![s.subrange(from, s.len() as int)], sep) == s.subrange(
                from,
                s.len() as int,
            ));
        },
        Some(k) => {
            let next = k + sep.len();
            lemma_split_from_join(s, sep, next);
            let rest = split_from(s, sep, next);
            lemma_split_from_nonempty(s, sep, next);
            lemma_join_cons(s.subrange(from, k), rest, sep);
            assert(s.subrange(k, next) =~= sep);
            assert(s.subrange(from, s.len() as int) =~= s.subrange(from, k) + sep + s.subrange(
                next,
                s.len() as int,
            ));
        },
    }
}

/// Splitting gives at least one piece.
proof fn lemma_split_from_nonempty(s: Seq<char>, sep: Seq<char>, from: int)
    requires
        sep.len() > 0,
        0 <= from <= s.len(),
    ensures
        split_from(s, sep, from).len() > 0,
{
    lemma_find_from(s, sep, from);
}

/// Joining the pieces of a split with the separator gives the text back,
/// so replacing a text by itself changes nothing.
pub proof fn law_split_join_round_trip(s: Seq<char>, sep: Seq<char>)
    ensures
        join_seq(split_seq(s, sep), sep) == s,
        replaced(s, sep, sep) == s,
{
    if sep.len() == 0 {
        let p = split_empty(s);
        let mid = s.map_values(|c: char| seq![c]);
        assert(sep =~= Seq::<char>::empty());
        assert forall|k: int| 0 <= k <= s.len() implies #[trigger] join_seq(
            (seq![Seq::<char>::empty()] + mid).take(k + 1),
            sep,
        ) == s.take(k) by {
            lemma_join_prefix(s, k);
        }
        assert((seq![Seq::<char>::empty()] + mid).take(s.len() + 1int) =~= seq![Seq::<char>::empty()]
            + mid);
        assert(p.drop_last() =~= seq![Seq::<char>::empty()] + mid);
        assert(p.last() =~= Seq::<char>::empty());
        assert(s.take(s.len() as int) =~= s);
        assert(join_seq(p.drop_last(), sep) == s.take(s.len() as int));
        assert(p.len() >= 2);
        assert(join_seq(p, sep) =~= s);
    } else {
        lemma_split_from_join(s, sep, 0);
        assert(s.subrange(0, s.len() as int) =~= s);
    }
}

/// Joining the empty piece and the first `k` characters, each alone, with
/// the empty separator gives the first `k` characters.
proof fn lemma_join_prefix(s: Seq<char>, k: int)
    requires
        0 <= k <= s.len(),
    ensures
        join_seq(
            (seq![Seq::<char>::empty()] + s.map_values(|c: char| seq![c])).take(k + 1),
            Seq::<char>::empty(),
        ) == s.take(k),
    decreases k,
{
    let parts = (seq![Seq::<char>::empty()] + s.map_values(|c: char| seq![c])).take(k + 1);
    if k == 0 {
        assert(parts =~= seq![Seq::<char>::empty()]);
        assert(s.take(0) =~= Seq::<char>::empty());
    } else {
        lemma_join_prefix(s, k - 1);
        assert(parts.drop_last() =~= (seq![Seq::<char>::empty()] + s.map_values(
            |c: char| seq![c],
        )).take(k));
        assert(parts.last() =~= seq![s[k - 1]]);
        assert(s.take(k) =~= s.take(k - 1) + Seq::<char>::empty() + seq![s[k - 1]]);
    }
}

/// Stripping the left is idempotent.
proof fn lemma_lstripped_idempotent(s: Seq<char>, set: Seq<char>)
    ensures
        lstripped(lstripped(s, set), set) == lstripped(s, set),
        lstripped(s, set).len() > 0 ==> !set.contains(lstripped(s, set)[0]),
    decreases s.len(),
{
    if s.len() > 0 && set.contains(s[0]) {
        lemma_lstripped_idempotent(s.drop_first(), set);
    }
}

/// Stripping the right is idempotent.
proof fn lemma_rstripped_idempotent(s: Seq<char>, set: Seq<char>)
    ensures
        rstripped(rstripped(s, set), set) == rstripped(s, set),
        rstripped(s, set).len() > 0 ==> !set.contains(rstripped(s, set).last()),
    decreases s.len(),
{
    if s.len() > 0 && set.contains(s.last()) {
        lemma_rstripped_idempotent(s.drop_last(), set);
    }
}

/// Stripping the right of a text that starts outside the set keeps that
/// start.
proof fn lemma_rstripped_keeps_start(s: Seq<char>, set: Seq<char>)
    requires
        s.len() > 0 ==> !set.contains(s[0]),
    ensures
        rstripped(s, set).len() > 0 ==> rstripped(s, set)[0] == s[0],
        lstripped(rstripped(s, set), set) == rstripped(s, set),
    decreases s.len(),
{
    if s.len() > 0 && set.contains(s.last()) {
        if s.len() > 1 {
            assert(s.drop_last()[0] == s[0]);
        }
        lemma_rstripped_keeps_start(s.drop_last(), set);
    }
}

/// Stripping a stripped text changes nothing, from either end or both.
pub proof fn law_strip_idempotent(s: Seq<char>, set: Seq<char>)
    ensures
        lstripped(lstripped(s, set), set) == lstripped(s, set),
        rstripped(rstripped(s, set), set) == rstripped(s, set),
        stripped(stripped(s, set), set) == stripped(s, set),
{
    lemma_lstripped_idempotent(s, set);
    lemma_rstripped_idempotent(s, set);
    let l = lstripped(s, set);
    lemma_rstripped_keeps_start(l, set);
    lemma_rstripped_idempotent(l, set);
}

/// Decoding the UTF-8 bytes of a text gives the text back.
pub proof fn law_utf8_round_trip(s: Seq<char>)
    ensures
        valid_utf8(encode_utf8(s)),
        decode_utf8(encode_utf8(s)) == s,
{
    vstd::utf8::encode_utf8_valid_utf8(s);
    vstd::utf8::encode_utf8_decode_utf8(s);
}

/// The code point of a character is a Unicode scalar value, and the
/// one-character text of that value is the character again.
pub proof fn law_codepoint_round_trip(c: char)
    ensures
        is_scalar(c as u32),
        (c as u32) as char == c,
{
    vstd::utf8::char_is_scalar(c);
    vstd::utf8::char_u32_cast(c, c as u32);
}

} // verus!
