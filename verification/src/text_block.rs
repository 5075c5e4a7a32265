//! The pieces of a `|||` text block: indentation, dedenting and joining.

use vstd::prelude::*;
use crate::lexical::{
    block_indent, block_text, dedent, escape_char, escape_default, hex_lower, is_blank, join_lines,
    ws_prefix,
};
use crate::text::{is_whitespace, push_char, unicode_whitespace};

verus! {

/// The character sequences of a list of lines.
pub open spec fn lines_view(lines: Seq<Vec<char>>) -> Seq<Seq<char>> {
    lines.map_values(|l: Vec<char>| l@)
}

/// Leading whitespace of a line is counted one character at a time.
proof fn lemma_ws_prefix_skip(line: Seq<char>, i: int)
    requires
        0 <= i < line.len(),
        unicode_whitespace(line[i]),
    ensures
        ws_prefix(line.skip(i)) == 1 + ws_prefix(line.skip(i + 1)),
{
    assert(line.skip(i).drop_first() =~= line.skip(i + 1));
}

/// Number of leading whitespace characters of a line.
pub fn ws_prefix_len(line: &Vec<char>) -> (r: usize)
    ensures
        r == ws_prefix(line@),
        r <= line.len(),
        forall|m: int| 0 <= m < r ==> unicode_whitespace(#[trigger] line@[m]),
{
    let mut i: usize = 0;
    proof {
        assert(line@.skip(0) =~= line@);
    }
    while i < line.len() && is_whitespace(line[i])
        invariant
            i <= line.len(),
            ws_prefix(line@) == i + ws_prefix(line@.skip(i as int)),
            forall|m: int| 0 <= m < i ==> unicode_whitespace(#[trigger] line@[m]),
        decreases line.len() - i,
    {
        proof {
            lemma_ws_prefix_skip(line@, i as int);
        }
        i += 1;
    }
    proof {
        if i < line.len() {
            assert(line@.skip(i as int)[0] == line@[i as int]);
        }
    }
    i
}

/// Whether a line holds whitespace only.
pub fn is_blank_line(line: &Vec<char>) -> (r: bool)
    ensures
        r == is_blank(line@),
{
    let mut i: usize = 0;
    while i < line.len()
        invariant
            i <= line.len(),
            forall|m: int| 0 <= m < i ==> unicode_whitespace(#[trigger] line@[m]),
        decreases line.len() - i,
    {
        if !is_whitespace(line[i]) {
            return false;
        }
        i += 1;
    }
    true
}

/// The indentation of a text block: the leading whitespace of its first non-blank line.
pub fn block_indent_of(lines: &Vec<Vec<char>>) -> (r: Vec<char>)
    ensures
        r@ == block_indent(lines_view(lines@)),
{
    let ghost all = lines_view(lines@);
    let mut i: usize = 0;
    proof {
        assert(all.skip(0) =~= all);
    }
    while i < lines.len()
        invariant
            i <= lines.len(),
            all == lines_view(lines@),
            block_indent(all) == block_indent(all.skip(i as int)),
        decreases lines.len() - i,
    {
        let ghost rest = all.skip(i as int);
        proof {
            assert(rest[0] == lines@[i as int]@);
            assert(rest.drop_first() =~= all.skip(i + 1));
        }
        if !is_blank_line(&lines[i]) {
            let line = &lines[i];
            let w = ws_prefix_len(line);
            let mut r: Vec<char> = Vec::new();
            let mut m: usize = 0;
            while m < w
                invariant
                    m <= w <= line.len(),
                    r@ == line@.take(m as int),
                decreases w - m,
            {
                r.push(line[m]);
                assert(line@.take(m + 1) =~= line@.take(m as int).push(line@[m as int]));
                m += 1;
            }
            return r;
        }
        i += 1;
    }
    proof {
        assert(all.skip(i as int).len() == 0);
    }
    Vec::new()
}

/// Whether a line starts with the given indentation.
fn starts_with_chars(line: &Vec<char>, indent: &Vec<char>) -> (r: bool)
    ensures
        r == (indent.len() <= line.len() && line@.take(indent.len() as int) == indent@),
{
    if indent.len() > line.len() {
        return false;
    }
    let mut i: usize = 0;
    while i < indent.len()
        invariant
            i <= indent.len() <= line.len(),
            forall|m: int| 0 <= m < i ==> line@[m] == indent@[m],
        decreases indent.len() - i,
    {
        if line[i] != indent[i] {
            assert(line@.take(indent.len() as int)[i as int] != indent@[i as int]);
            return false;
        }
        i += 1;
    }
    assert(line@.take(indent.len() as int) =~= indent@);
    true
}

/// Removes the indentation from each line; `None` if a non-blank line lacks it.
pub fn dedent_lines(lines: &Vec<Vec<char>>, indent: &Vec<char>) -> (r: Option<Vec<Vec<char>>>)
    ensures
        match dedent(lines_view(lines@), indent@) {
            Some(d) => r matches Some(v) && lines_view(v@) == d,
            None => r is None,
        },
{
    let ghost all = lines_view(lines@);
    let mut out: Vec<Vec<char>> = Vec::new();
    let mut i: usize = 0;
    while i < lines.len()
        invariant
            i <= lines.len(),
            all == lines_view(lines@),
            dedent(all.take(i as int), indent@) == Some(lines_view(out@)),
        decreases lines.len() - i,
    {
        let ghost pre = all.take(i as int);
        proof {
            assert(all.take(i + 1).drop_last() =~= pre);
            assert(all.take(i + 1).last() == lines@[i as int]@);
        }
        let line = &lines[i];
        if is_blank_line(line) {
            out.push(Vec::new());
            proof {
                assert(lines_view(out@) =~= lines_view(out@.drop_last()).push(Seq::<char>::empty()));
            }
        } else if starts_with_chars(line, indent) {
            let mut rest: Vec<char> = Vec::new();
            let mut m: usize = indent.len();
            while m < line.len()
                invariant
                    indent.len() <= m <= line.len(),
                    rest@ == line@.subrange(indent.len() as int, m as int),
                decreases line.len() - m,
            {
                rest.push(line[m]);
                assert(line@.subrange(indent.len() as int, m + 1) =~= line@.subrange(
                    indent.len() as int,
                    m as int,
                ).push(line@[m as int]));
                m += 1;
            }
            proof {
                assert(rest@ =~= line@.skip(indent.len() as int));
            }
            out.push(rest);
            proof {
                assert(lines_view(out@) =~= lines_view(out@.drop_last()).push(rest@));
            }
        } else {
            proof {
                lemma_dedent_prefix_none(all, indent@, i as int);
            }
            return None;
        }
        i += 1;
    }
    proof {
        assert(all.take(lines.len() as int) =~= all);
    }
    Some(out)
}

/// Dedenting fails as soon as one line lacks the indentation.
proof fn lemma_dedent_prefix_none(all: Seq<Seq<char>>, indent: Seq<char>, n: int)
    requires
        0 <= n < all.len(),
        dedent(all.take(n + 1), indent) is None,
    ensures
        dedent(all, indent) is None,
    decreases all.len() - n,
{
    if n + 1 < all.len() {
        assert(all.take(n + 2).drop_last() =~= all.take(n + 1));
        lemma_dedent_prefix_none(all, indent, n + 1);
    } else {
        assert(all.take(n + 1) =~= all);
    }
}

/// The text of a block: lines joined by newlines, with a final newline that `|||-` strips.
pub fn block_text_of(lines: &Vec<Vec<char>>, strip: bool) -> (r: Vec<char>)
    ensures
        r@ == block_text(lines_view(lines@), strip),
{
    let ghost all = lines_view(lines@);
    let mut joined: Vec<char> = Vec::new();
    let mut i: usize = 0;
    while i < lines.len()
        invariant
            i <= lines.len(),
            all == lines_view(lines@),
            joined@ == join_lines(all.take(i as int)),
        decreases lines.len() - i,
    {
        let ghost pre = all.take(i as int);
        proof {
            assert(all.take(i + 1).drop_last() =~= pre);
            assert(all.take(i + 1).last() == lines@[i as int]@);
        }
        if i > 0 {
            joined.push('\n');
        }
        let line = &lines[i];
        let ghost before = joined@;
        let mut m: usize = 0;
        while m < line.len()
            invariant
                m <= line.len(),
                joined@ == before + line@.take(m as int),
            decreases line.len() - m,
        {
            joined.push(line[m]);
            assert(line@.take(m + 1) =~= line@.take(m as int).push(line@[m as int]));
            m += 1;
        }
        proof {
            assert(line@.take(line.len() as int) =~= line@);
            if i == 0 {
                assert(all.take(1) =~= seq![lines@[0]@]);
                assert(joined@ =~= lines@[0]@);
            }
        }
        i += 1;
    }
    proof {
        assert(all.take(lines.len() as int) =~= all);
    }
    let mut result = joined;
    if result.len() > 0 {
        result.push('\n');
    }
    if strip && result.len() > 0 && result[result.len() - 1] == '\n' {
        result.pop();
        proof {
            assert(result@ =~= block_text(all, strip));
        }
    }
    result
}

/// Lower-case hexadecimal digits of a number, without leading zeros.
pub fn hex_lower_of(v: u32) -> (r: Vec<char>)
    ensures
        r@ == hex_lower(v as nat),
    decreases v,
{
    let d = v % 16;
    let c = if d < 10 {
        char_of_digit(d)
    } else {
        char_of_hex_letter(d - 10)
    };
    if v < 16 {
        let mut r: Vec<char> = Vec::new();
        r.push(c);
        proof {
            assert(r@ =~= seq![c]);
        }
        r
    } else {
        let mut r = hex_lower_of(v / 16);
        r.push(c);
        r
    }
}

/// The decimal digit character for a value below ten.
pub fn char_of_digit(d: u32) -> (c: char)
    requires
        d < 10,
    ensures
        c == ('0' as u32 + d) as char,
{
    if d == 0 {
        '0'
    } else if d == 1 {
        '1'
    } else if d == 2 {
        '2'
    } else if d == 3 {
        '3'
    } else if d == 4 {
        '4'
    } else if d == 5 {
        '5'
    } else if d == 6 {
        '6'
    } else if d == 7 {
        '7'
    } else if d == 8 {
        '8'
    } else {
        '9'
    }
}

/// The lower-case hexadecimal letter for a value below six.
fn char_of_hex_letter(d: u32) -> (c: char)
    requires
        d < 6,
    ensures
        c == ('a' as u32 + d) as char,
{
    if d == 0 {
        'a'
    } else if d == 1 {
        'b'
    } else if d == 2 {
        'c'
    } else if d == 3 {
        'd'
    } else if d == 4 {
        'e'
    } else {
        'f'
    }
}

/// `char::escape_default` of one character.
pub fn escape_char_of(c: char) -> (r: Vec<char>)
    ensures
        r@ == escape_char(c),
{
    let mut r: Vec<char> = Vec::new();
    if c == '\t' {
        r.push('\\');
        r.push('t');
    } else if c == '\r' {
        r.push('\\');
        r.push('r');
    } else if c == '\n' {
        r.push('\\');
        r.push('n');
    } else if c == '\\' || c == '\'' || c == '"' {
        r.push('\\');
        r.push(c);
    } else if ' ' <= c && c <= '~' {
        r.push(c);
    } else {
        r.push('\\');
        r.push('u');
        r.push('{');
        let h = hex_lower_of(c as u32);
        let mut m: usize = 0;
        while m < h.len()
            invariant
                m <= h.len(),
                r@ == seq!['\\', 'u', '{'] + h@.take(m as int),
            decreases h.len() - m,
        {
            r.push(h[m]);
            assert(h@.take(m + 1) =~= h@.take(m as int).push(h@[m as int]));
            m += 1;
        }
        r.push('}');
        proof {
            assert(h@.take(h.len() as int) =~= h@);
            assert(r@ =~= seq!['\\', 'u', '{'] + h@ + seq!['}']);
        }
        return r;
    }
    proof {
        assert(r@ =~= escape_char(c));
    }
    r
}

/// `str::escape_default` of a character sequence, appended to a string.
pub fn push_escaped(out: &mut String, s: &Vec<char>)
    ensures
        final(out)@ == old(out)@ + escape_default(s@),
{
    let mut i: usize = 0;
    while i < s.len()
        invariant
            i <= s.len(),
            out@ == old(out)@ + escape_default(s@.take(i as int)),
        decreases s.len() - i,
    {
        let e = escape_char_of(s[i]);
        let ghost before = out@;
        let mut m: usize = 0;
        while m < e.len()
            invariant
                m <= e.len(),
                out@ == before + e@.take(m as int),
            decreases e.len() - m,
        {
            push_char(out, e[m]);
            assert(e@.take(m + 1) =~= e@.take(m as int).push(e@[m as int]));
            m += 1;
        }
        proof {
            assert(e@.take(e.len() as int) =~= e@);
            assert(s@.take(i + 1).drop_last() =~= s@.take(i as int));
            assert(s@.take(i + 1).last() == s@[i as int]);
        }
        i += 1;
    }
    proof {
        assert(s@.take(s.len() as int) =~= s@);
    }
}

} // verus!
