//! LCOV records: which lines of a source are executable, and which of them
//! the recorded spans touched.

use vstd::prelude::*;
use crate::native::nat_decimal;
use crate::native::u64_decimal;
use crate::text::append_chars;
use crate::text::chars_of;

verus! {

// ---------------------------------------------------------------- order of sources

/// Lexicographic order of texts by code point (the order of their UTF-8 bytes).
pub open spec fn text_lt(a: Seq<char>, b: Seq<char>) -> bool
    decreases a.len(),
{
    if a.len() == 0 {
        b.len() > 0
    } else if b.len() == 0 {
        false
    } else if a[0] != b[0] {
        (a[0] as u32) < (b[0] as u32)
    } else {
        text_lt(a.drop_first(), b.drop_first())
    }
}

/// The order is transitive.
pub proof fn lemma_text_lt_transitive(a: Seq<char>, b: Seq<char>, c: Seq<char>)
    requires
        text_lt(a, b),
        text_lt(b, c),
    ensures
        text_lt(a, c),
    decreases a.len(),
{
    if a.len() > 0 && b.len() > 0 && c.len() > 0 && a[0] == b[0] && b[0] == c[0] {
        lemma_text_lt_transitive(a.drop_first(), b.drop_first(), c.drop_first());
    }
}

/// The order is irreflexive.
pub proof fn lemma_text_lt_irreflexive(a: Seq<char>)
    ensures
        !text_lt(a, a),
    decreases a.len(),
{
    if a.len() > 0 {
        lemma_text_lt_irreflexive(a.drop_first());
    }
}

/// Whether `a` comes before `b`.
pub fn str_lt(a: &str, b: &str) -> (r: bool)
    ensures
        r == text_lt(a@, b@),
{
    let x = chars_of(a);
    let y = chars_of(b);
    let mut i: usize = 0;
    proof {
        assert(a@.skip(0) =~= a@);
        assert(b@.skip(0) =~= b@);
    }
    while i < x.len() && i < y.len() && x[i] == y[i]
        invariant
            i <= x@.len(),
            i <= y@.len(),
            x@ == a@,
            y@ == b@,
            forall|k: int| 0 <= k < i ==> x@[k] == y@[k],
            text_lt(a@, b@) == text_lt(a@.skip(i as int), b@.skip(i as int)),
        decreases x.len() - i,
    {
        proof {
            assert(a@.skip(i as int).drop_first() =~= a@.skip(i + 1));
            assert(b@.skip(i as int).drop_first() =~= b@.skip(i + 1));
        }
        i += 1;
    }
    if i == x.len() {
        i < y.len()
    } else if i == y.len() {
        false
    } else {
        (x[i] as u32) < (y[i] as u32)
    }
}

/// The texts in `v` are in order, each no greater than the next.
pub open spec fn sorted_texts(v: Seq<&str>) -> bool {
    forall|i: int, j: int| 0 <= i < j < v.len() ==> !text_lt(#[trigger] v[j]@, #[trigger] v[i]@)
}

/// The source names in order, each as often as given.
pub fn sort_source_ids<'a>(ids: Vec<&'a str>) -> (r: Vec<&'a str>)
    ensures
        r@.to_multiset() == ids@.to_multiset(),
        sorted_texts(r@),
{
    let mut r: Vec<&'a str> = Vec::new();
    let mut k: usize = 0;
    proof {
        assert(ids@.take(0) =~= Seq::<&'a str>::empty());
    }
    while k < ids.len()
        invariant
            k <= ids@.len(),
            r@.to_multiset() == ids@.take(k as int).to_multiset(),
            sorted_texts(r@),
        decreases ids.len() - k,
    {
        let x = ids[k];
        let mut p: usize = 0;
        while p < r.len() && !str_lt(x, r[p])
            invariant
                p <= r@.len(),
                forall|q: int| 0 <= q < p ==> !text_lt(x@, #[trigger] r@[q]@),
            decreases r.len() - p,
        {
            p += 1;
        }
        let ghost before = r@;
        r.insert(p, x);
        proof {
            vstd::seq_lib::to_multiset_insert(before, p as int, x);
            assert(ids@.take(k + 1) =~= ids@.take(k as int).push(x));
            vstd::seq_lib::to_multiset_build(ids@.take(k as int), x);
            assert forall|i: int, j: int| 0 <= i < j < r@.len() implies !text_lt(
                #[trigger] r@[j]@,
                #[trigger] r@[i]@,
            ) by {
                if i < p && j == p {
                    assert(r@[i] == before[i]);
                } else if i == p && j > p {
                    assert(r@[j] == before[j - 1]);
                    assert(text_lt(x@, before[p as int]@));
                    if p < j - 1 {
                        assert(!text_lt(before[j - 1]@, before[p as int]@));
                    }
                    if text_lt(before[j - 1]@, x@) {
                        lemma_text_lt_transitive(before[j - 1]@, x@, before[p as int]@);
                        if p == j - 1 {
                            lemma_text_lt_irreflexive(before[p as int]@);
                        }
                    }
                } else if j < p {
                    assert(r@[i] == before[i] && r@[j] == before[j]);
                } else if i < p && j > p {
                    assert(r@[i] == before[i] && r@[j] == before[j - 1]);
                } else {
                    assert(i > p);
                    assert(r@[i] == before[i - 1] && r@[j] == before[j - 1]);
                }
            }
        }
        k += 1;
    }
    proof {
        assert(ids@.take(ids@.len() as int) =~= ids@);
    }
    r
}

// ---------------------------------------------------------------- lines of a source

/// A line feed.
pub open spec fn is_newline(b: u8) -> bool {
    b == 10
}

/// A space, tab or carriage return.
pub open spec fn is_blank(b: u8) -> bool {
    b == 32 || b == 9 || b == 13
}

/// A brace or square bracket.
pub open spec fn is_bracket(b: u8) -> bool {
    b == 123 || b == 125 || b == 91 || b == 93
}

/// A byte that makes its line executable: neither a line feed, a blank,
/// nor a bracket.
pub open spec fn is_code_byte(b: u8) -> bool {
    !is_newline(b) && !is_blank(b) && !is_bracket(b)
}

/// The line (from 1) of byte offset `b`: one more than the line feeds before it.
pub open spec fn line_of(c: Seq<u8>, b: int) -> nat
    decreases b,
{
    if b <= 0 {
        1
    } else {
        line_of(c, b - 1) + if c[b - 1] == 10 {
            1nat
        } else {
            0nat
        }
    }
}

/// The number of lines: a final line feed ends the last line and starts none.
pub open spec fn line_count(c: Seq<u8>) -> nat {
    if c.len() > 0 && c.last() == 10 {
        (line_of(c, c.len() as int) - 1) as nat
    } else {
        line_of(c, c.len() as int)
    }
}

/// A line with a byte that is not blank and not a bracket.
pub open spec fn executable(c: Seq<u8>, l: nat) -> bool {
    exists|b: int| 0 <= b < c.len() && line_of(c, b) == l && is_code_byte(c[b])
}

/// A span `start..end` touches line `l`: one of its bytes (up to the end of
/// the source) is on it, or its start is.
pub open spec fn span_touches(c: Seq<u8>, start: usize, end: usize, l: nat) -> bool {
    let stop: int = if end < c.len() + 1 {
        end as int
    } else {
        c.len() + 1int
    };
    ||| exists|b: int| start <= b < stop && line_of(c, b) == l
    ||| start < c.len() + 1 && line_of(c, start as int) == l
}

/// Some span touches line `l`.
pub open spec fn line_hit(c: Seq<u8>, spans: Seq<(usize, usize)>, l: nat) -> bool {
    exists|k: int| 0 <= k < spans.len() && span_touches(c, spans[k].0, spans[k].1, l)
}

/// The `DA` records of lines `1..=n`: one per executable line, with 1 when
/// hit and 0 when not.
pub open spec fn da_records(c: Seq<u8>, spans: Seq<(usize, usize)>, n: nat) -> Seq<char>
    decreases n,
{
    if n == 0 {
        Seq::empty()
    } else {
        da_records(c, spans, (n - 1) as nat) + if executable(c, n) {
            "DA:"@ + nat_decimal(n) + ","@ + (if line_hit(c, spans, n) {
                "1"@
            } else {
                "0"@
            }) + "\n"@
        } else {
            Seq::empty()
        }
    }
}

/// The number of executable lines among `1..=n`.
pub open spec fn lines_found(c: Seq<u8>, n: nat) -> nat
    decreases n,
{
    if n == 0 {
        0
    } else {
        lines_found(c, (n - 1) as nat) + if executable(c, n) {
            1nat
        } else {
            0nat
        }
    }
}

/// The number of executable lines among `1..=n` that were hit.
pub open spec fn lines_hit(c: Seq<u8>, spans: Seq<(usize, usize)>, n: nat) -> nat
    decreases n,
{
    if n == 0 {
        0
    } else {
        lines_hit(c, spans, (n - 1) as nat) + if executable(c, n) && line_hit(c, spans, n) {
            1nat
        } else {
            0nat
        }
    }
}

/// The LCOV record of one source.
pub open spec fn lcov_record_text(
    test_name: Seq<char>,
    source_id: Seq<char>,
    c: Seq<u8>,
    spans: Seq<(usize, usize)>,
) -> Seq<char> {
    let n = line_count(c);
    "TN:"@ + test_name + "\n"@ + "SF:"@ + source_id + "\n"@ + da_records(c, spans, n) + "LH:"@
        + nat_decimal(lines_hit(c, spans, n)) + "\n"@ + "LF:"@ + nat_decimal(lines_found(c, n))
        + "\n"@ + "end_of_record\n"@
}

/// The note written for a source that could not be read.
pub open spec fn unreadable_note(source_id: Seq<char>) -> Seq<char> {
    "# Could not read source: "@ + source_id + "\n"@
}

/// A line is at most one more than the offset.
pub proof fn lemma_line_of_bound(c: Seq<u8>, b: int)
    requires
        0 <= b <= c.len(),
    ensures
        1 <= line_of(c, b) <= b + 1,
    decreases b,
{
    if b > 0 {
        lemma_line_of_bound(c, b - 1);
    }
}

/// Lines do not go down.
pub proof fn lemma_line_of_mono(c: Seq<u8>, a: int, b: int)
    requires
        0 <= a <= b <= c.len(),
    ensures
        line_of(c, a) <= line_of(c, b),
    decreases b - a,
{
    if a < b {
        lemma_line_of_mono(c, a, b - 1);
    }
}

fn push_text(out: &mut Vec<char>, s: &str)
    ensures
        final(out)@ == old(out)@ + s@,
{
    let cs = chars_of(s);
    let mut i: usize = 0;
    while i < cs.len()
        invariant
            i <= cs@.len(),
            cs@ == s@,
            out@ == old(out)@ + cs@.take(i as int),
        decreases cs.len() - i,
    {
        out.push(cs[i]);
        proof {
            assert(cs@.take(i + 1) =~= cs@.take(i as int).push(cs@[i as int]));
        }
        i += 1;
    }
    proof {
        assert(cs@.take(cs@.len() as int) =~= cs@);
    }
}

fn push_vec(out: &mut Vec<char>, s: &Vec<char>)
    ensures
        final(out)@ == old(out)@ + s@,
{
    let mut i: usize = 0;
    while i < s.len()
        invariant
            i <= s@.len(),
            out@ == old(out)@ + s@.take(i as int),
        decreases s.len() - i,
    {
        out.push(s[i]);
        proof {
            assert(s@.take(i + 1) =~= s@.take(i as int).push(s@[i as int]));
        }
        i += 1;
    }
    proof {
        assert(s@.take(s@.len() as int) =~= s@);
    }
}

/// Marking the line of one more byte of a span keeps the marks equal to the
/// lines that the bytes so far touch.
proof fn lemma_mark_step(
    c: Seq<u8>,
    h0: Seq<bool>,
    hold: Seq<bool>,
    hnew: Seq<bool>,
    start: int,
    ob: int,
    last_line: int,
)
    requires
        0 <= line_of(c, ob) <= last_line,
        hold.len() == last_line + 1,
        hnew == hold.update(line_of(c, ob) as int, true),
        forall|l: int|
            0 <= l <= last_line ==> (hold[l] <==> (h0[l] || exists|x: int|
                start <= x < ob && line_of(c, x) == l)),
        start <= ob,
    ensures
        forall|m: int|
            0 <= m <= last_line ==> (hnew[m] <==> (h0[m] || exists|x: int|
                start <= x < ob + 1 && line_of(c, x) == m)),
{
    assert forall|m: int|
        0 <= m <= last_line implies (hnew[m] <==> (h0[m] || exists|x: int|
            start <= x < ob + 1 && line_of(c, x) == m)) by {
        if m == line_of(c, ob) {
            assert(start <= ob < ob + 1 && line_of(c, ob) == m);
        } else {
            assert(hnew[m] == hold[m]);
            if exists|x: int| start <= x < ob + 1 && line_of(c, x) == m {
                let x = choose|x: int| start <= x < ob + 1 && line_of(c, x) == m;
                assert(start <= x < ob);
            }
            if exists|x: int| start <= x < ob && line_of(c, x) == m {
                let x = choose|x: int| start <= x < ob && line_of(c, x) == m;
                assert(start <= x < ob + 1);
            }
        }
    }
}

/// The LCOV record of a source: its test name, its name, one `DA` line per
/// executable line with whether a span touched it, and the hit and found
/// counts.
pub fn lcov_record(test_name: &str, source_id: &str, content: &Vec<u8>, spans: &Vec<(usize, usize)>) -> (r:
    String)
    requires
        content@.len() + 1 < usize::MAX,
    ensures
        r@ == lcov_record_text(test_name@, source_id@, content@, spans@),
{
    let c = content;
    let n = c.len();
    // The line of each byte offset, the end included.
    let mut line_at: Vec<usize> = Vec::new();
    let mut current: usize = 1;
    let mut i: usize = 0;
    while i < n
        invariant
            i <= n,
            n == c@.len(),
            n + 1 < usize::MAX,
            line_at@.len() == i,
            current == line_of(c@, i as int),
            forall|b: int| 0 <= b < i ==> line_at@[b] == line_of(c@, b),
        decreases n - i,
    {
        proof {
            lemma_line_of_bound(c@, i as int);
        }
        line_at.push(current);
        if c[i] == 10 {
            current = current + 1;
        }
        i += 1;
    }
    line_at.push(current);
    let last_line = current;
    proof {
        lemma_line_of_bound(c@, n as int);
    }
    let total: usize = if n > 0 && c[n - 1] == 10 {
        proof {
            lemma_line_of_mono(c@, 0, (n - 1) as int);
        }
        last_line - 1
    } else {
        last_line
    };
    // Which lines are executable.
    let mut code_line: Vec<bool> = Vec::new();
    let mut z: usize = 0;
    while z <= last_line
        invariant
            z <= last_line + 1,
            last_line < usize::MAX,
            code_line@.len() == z,
            forall|l: int| 0 <= l < z ==> !code_line@[l],
        decreases last_line + 1 - z,
    {
        code_line.push(false);
        z += 1;
    }
    let mut i: usize = 0;
    while i < n
        invariant
            i <= n,
            n == c@.len(),
            line_at@.len() == n + 1,
            forall|b: int| 0 <= b <= n ==> line_at@[b] == line_of(c@, b),
            last_line == line_of(c@, n as int),
            last_line < usize::MAX,
            code_line@.len() == last_line + 1,
            forall|l: int|
                0 <= l <= last_line ==> (code_line@[l] <==> exists|b: int|
                    0 <= b < i && line_of(c@, b) == l && is_code_byte(c@[b])),
        decreases n - i,
    {
        let byte = c[i];
        if byte != 10 && byte != 32 && byte != 9 && byte != 13 && byte != 123 && byte != 125
            && byte != 91 && byte != 93 {
            let l = line_at[i];
            proof {
                lemma_line_of_mono(c@, i as int, n as int);
            }
            code_line.set(l, true);
        }
        proof {
            assert forall|l: int|
                0 <= l <= last_line implies (code_line@[l] <==> exists|b: int|
                    0 <= b < i + 1 && line_of(c@, b) == l && is_code_byte(c@[b])) by {
                if line_of(c@, i as int) == l && is_code_byte(c@[i as int]) {
                    assert(code_line@[l]);
                }
            }
        }
        i += 1;
    }
    // Which lines a span touched.
    let mut hit: Vec<bool> = Vec::new();
    let mut z: usize = 0;
    while z <= last_line
        invariant
            z <= last_line + 1,
            last_line < usize::MAX,
            hit@.len() == z,
            forall|l: int| 0 <= l < z ==> !hit@[l],
        decreases last_line + 1 - z,
    {
        hit.push(false);
        z += 1;
    }
    let mut k: usize = 0;
    while k < spans.len()
        invariant
            k <= spans@.len(),
            n == c@.len(),
            line_at@.len() == n + 1,
            forall|b: int| 0 <= b <= n ==> line_at@[b] == line_of(c@, b),
            last_line == line_of(c@, n as int),
            hit@.len() == last_line + 1,
            forall|l: int|
                0 <= l <= last_line ==> (hit@[l] <==> exists|q: int|
                    0 <= q < k && span_touches(c@, spans@[q].0, spans@[q].1, l as nat)),
        decreases spans.len() - k,
    {
        let (start, end) = spans[k];
        let stop: usize = if end < n + 1 {
            end
        } else {
            n + 1
        };
        let ghost h0 = hit@;
        let mut b = start;
        while b < stop
            invariant
                start <= b,
                b <= stop || b == start,
                stop <= n + 1,
                n == c@.len(),
                line_at@.len() == n + 1,
                forall|x: int| 0 <= x <= n ==> line_at@[x] == line_of(c@, x),
                last_line == line_of(c@, n as int),
                hit@.len() == last_line + 1,
                h0.len() == last_line + 1,
                forall|l: int|
                    0 <= l <= last_line ==> (hit@[l] <==> (h0[l] || exists|x: int|
                        start <= x < b && line_of(c@, x) == l)),
            decreases stop - b,
        {
            let l = line_at[b];
            proof {
                lemma_line_of_mono(c@, b as int, n as int);
            }
            let ghost hold = hit@;
            hit.set(l, true);
            let ghost ob = b;
            b += 1;
            proof {
                lemma_mark_step(c@, h0, hold, hit@, start as int, ob as int, last_line as int);
            }
        }
        let ghost hmid = hit@;
        assert(forall|l: int|
            0 <= l <= last_line ==> (hmid[l] <==> (h0[l] || exists|x: int|
                start <= x < b && line_of(c@, x) == l)));
        if start < n + 1 {
            let l = line_at[start];
            proof {
                lemma_line_of_mono(c@, start as int, n as int);
            }
            hit.set(l, true);
        }
        proof {
            let sp = spans@[k as int];
            assert(sp.0 == start && sp.1 == end);
            assert forall|l: int|
                0 <= l <= last_line implies (hit@[l] <==> (h0[l] || span_touches(
                    c@,
                    start,
                    end,
                    l as nat,
                ))) by {
                let on_start = start < n + 1 && line_of(c@, start as int) == l;
                assert(hit@[l] == (hmid[l] || on_start));
                assert(span_touches(c@, start, end, l as nat) == ((exists|x: int|
                    start <= x < stop && line_of(c@, x) == l) || on_start));
                assert(hmid[l] == (h0[l] || exists|x: int| start <= x < b && line_of(c@, x) == l));
                assert(b == stop || start >= stop);
                if exists|x: int| start <= x < b && line_of(c@, x) == l {
                    let x = choose|x: int| start <= x < b && line_of(c@, x) == l;
                    assert(start <= x < stop);
                }
                if exists|x: int| start <= x < stop && line_of(c@, x) == l {
                    let x = choose|x: int| start <= x < stop && line_of(c@, x) == l;
                    assert(start <= x < b);
                }
            }
            assert forall|l: int|
                0 <= l <= last_line implies (hit@[l] <==> exists|q: int|
                    0 <= q < k + 1 && span_touches(c@, spans@[q].0, spans@[q].1, l as nat)) by {
                if span_touches(c@, start, end, l as nat) {
                    assert(0 <= k < k + 1 && span_touches(c@, spans@[k as int].0, spans@[k as int].1, l as nat));
                }
                if h0[l] {
                    let q = choose|q: int|
                        0 <= q < k && span_touches(c@, spans@[q].0, spans@[q].1, l as nat);
                    assert(0 <= q < k + 1);
                }
                if exists|q: int|
                    0 <= q < k + 1 && span_touches(c@, spans@[q].0, spans@[q].1, l as nat) {
                    let q = choose|q: int|
                        0 <= q < k + 1 && span_touches(c@, spans@[q].0, spans@[q].1, l as nat);
                    if q < k {
                        assert(h0[l]);
                    }
                }
            }
        }
        k += 1;
    }
    // The text of the record.
    let mut out: Vec<char> = Vec::new();
    push_text(&mut out, "TN:");
    push_text(&mut out, test_name);
    push_text(&mut out, "\n");
    push_text(&mut out, "SF:");
    push_text(&mut out, source_id);
    push_text(&mut out, "\n");
    let ghost head = out@;
    let mut found: usize = 0;
    let mut hits: usize = 0;
    let mut line: usize = 1;
    proof {
        lemma_line_of_bound(c@, n as int);
    }
    while line <= total
        invariant
            1 <= line <= total + 1,
            total <= last_line,
            last_line == line_of(c@, n as int),
            last_line <= n + 1,
            n + 1 < usize::MAX,
            code_line@.len() == last_line + 1,
            hit@.len() == last_line + 1,
            forall|l: int|
                0 <= l <= last_line ==> (code_line@[l] <==> executable(c@, l as nat)),
            forall|l: int| 0 <= l <= last_line ==> (hit@[l] <==> line_hit(c@, spans@, l as nat)),
            out@ == head + da_records(c@, spans@, (line - 1) as nat),
            found == lines_found(c@, (line - 1) as nat),
            hits == lines_hit(c@, spans@, (line - 1) as nat),
            found <= line,
            hits <= found,
        decreases total + 1 - line,
    {
        let ghost before = out@;
        if code_line[line] {
            push_text(&mut out, "DA:");
            let digits = u64_decimal(line as u64);
            push_vec(&mut out, &digits);
            push_text(&mut out, ",");
            if hit[line] {
                push_text(&mut out, "1");
                hits = hits + 1;
            } else {
                push_text(&mut out, "0");
            }
            push_text(&mut out, "\n");
            found = found + 1;
        }
        proof {
            assert(out@ =~= head + da_records(c@, spans@, line as nat));
        }
        line = line + 1;
    }
    push_text(&mut out, "LH:");
    let d1 = u64_decimal(hits as u64);
    push_vec(&mut out, &d1);
    push_text(&mut out, "\n");
    push_text(&mut out, "LF:");
    let d2 = u64_decimal(found as u64);
    push_vec(&mut out, &d2);
    push_text(&mut out, "\n");
    push_text(&mut out, "end_of_record\n");
    proof {
        assert(total == line_count(c@));
        assert(out@ =~= lcov_record_text(test_name@, source_id@, c@, spans@));
    }
    let mut r = String::new();
    append_chars(&mut r, &out);
    r
}

/// The note for a source that could not be read.
pub fn unreadable_source_note(source_id: &str) -> (r: String)
    ensures
        r@ == unreadable_note(source_id@),
{
    let mut out: Vec<char> = Vec::new();
    push_text(&mut out, "# Could not read source: ");
    push_text(&mut out, source_id);
    push_text(&mut out, "\n");
    proof {
        assert(out@ =~= unreadable_note(source_id@));
    }
    let mut r = String::new();
    append_chars(&mut r, &out);
    r
}


/// No more lines are hit than are found, and no more are found than there are.
pub proof fn law_hit_within_found(c: Seq<u8>, spans: Seq<(usize, usize)>, n: nat)
    ensures
        lines_hit(c, spans, n) <= lines_found(c, n) <= n,
    decreases n,
{
    if n > 0 {
        law_hit_within_found(c, spans, (n - 1) as nat);
    }
}

/// A source that ends with a line feed has exactly as many lines as line feeds.
pub proof fn law_final_newline_ends_last_line(c: Seq<u8>)
    requires
        c.len() > 0,
        c.last() == 10,
    ensures
        line_count(c) == line_of(c.drop_last(), c.len() - 1),
{
    lemma_line_of_prefix(c, c.drop_last(), c.len() - 1);
}

/// Lines of a prefix agree with those of the whole.
pub proof fn lemma_line_of_prefix(c: Seq<u8>, p: Seq<u8>, b: int)
    requires
        0 <= b <= p.len() <= c.len(),
        forall|i: int| 0 <= i < p.len() ==> p[i] == c[i],
    ensures
        line_of(p, b) == line_of(c, b),
    decreases b,
{
    if b > 0 {
        lemma_line_of_prefix(c, p, b - 1);
    }
}

} // verus!
