//! Standard-library functions on heap values: they read their string
//! arguments from the heap and store the strings and arrays they build
//! there.

use vstd::prelude::*;
use std::ops::Range;
use crate::chunk::Value;
use crate::memory_manager::{heap_extends, string_at, MemoryManager};
use crate::scanner::{error_is, ScanError};
use crate::string_natives::{
    lstrip_chars, lstripped, rstrip_chars, rstripped, strip_chars, stripped, join_seq, join_strings, lines_joined, lines_text, ends_with, replaced, single_chars, split, split_seq, starts_with, str_replace, string_chars,
    texts,
};
use crate::text::utf8_len;
use crate::text::{append_chars, push_str};
use crate::native::{nat_decimal, u64_decimal};
use crate::native::{hex_bytes, md5_of, sha1_of, sha256_of, sha512_of, sha3_256_of};
use crate::native::{md5_hex, sha1_hex, sha256_hex, sha512_hex, sha3_hex};
use vstd::utf8::encode_utf8;
use crate::text::{ascii_lowercase, ascii_lowered, char_from_u32, chars_of, string_of};

verus! {

/// An error of a native function is a scan error at the call's span.
pub type RuntimeError = ScanError;

/// Whether a value that names a string names one the heap holds.
pub open spec fn string_valid(mm: &MemoryManager, v: Value) -> bool {
    v matches Value::String(k) ==> mm.heap_view().dom().contains(k) && mm.heap_view()[k] is String
}

/// The text of a string value.
pub open spec fn text_of(mm: &MemoryManager, v: Value) -> Seq<char> {
    mm.heap_view()[v->String_0]->String_0.content@
}

/// The bytes that storing each of `parts` as a new string would take.
pub open spec fn strings_bytes(parts: Seq<Seq<char>>) -> nat
    decreases parts.len(),
{
    if parts.len() == 0 {
        0
    } else {
        strings_bytes(parts.drop_last()) + 32 + utf8_len(parts.last())
    }
}

/// Whether a heap can take `n` more entries of `bytes` bytes in all.
pub open spec fn has_room(mm: &MemoryManager, n: nat, bytes: nat) -> bool {
    &&& mm.bytes() + bytes <= usize::MAX
    &&& mm.heap_view().dom().len() + n + 2 < u32::MAX
}

/// Whether `after` is `before` with new entries only, and the same
/// threshold and extra roots.
pub open spec fn grown(before: &MemoryManager, after: &MemoryManager) -> bool {
    &&& after.wf()
    &&& heap_extends(before.heap_view(), after.heap_view())
    &&& after.threshold() == before.threshold()
    &&& after.external_roots_view() == before.external_roots_view()
    &&& after.external_upvalue_roots_view() == before.external_upvalue_roots_view()
}

/// Whether `vals` are string values holding `parts`, in order.
pub open spec fn strings_hold(mm: &MemoryManager, vals: Seq<Value>, parts: Seq<Seq<char>>) -> bool {
    &&& vals.len() == parts.len()
    &&& forall|i: int|
        0 <= i < vals.len() ==> (#[trigger] vals[i]) is String && string_at(
            mm.heap_view(),
            vals[i]->String_0,
            parts[i],
        )
}

/// Whether `v` is an array of strings holding `parts`.
pub open spec fn array_of_strings(mm: &MemoryManager, v: Value, parts: Seq<Seq<char>>) -> bool {
    &&& v is Array
    &&& mm.heap_view().dom().contains(v->Array_0)
    &&& mm.heap_view()[v->Array_0] is Array
    &&& strings_hold(mm, mm.heap_view()[v->Array_0]->Array_0.elements@, parts)
}

proof fn lemma_strings_bytes_prefix(parts: Seq<Seq<char>>, i: int)
    requires
        0 <= i < parts.len(),
    ensures
        strings_bytes(parts.take(i + 1)) == strings_bytes(parts.take(i)) + 32 + utf8_len(parts[i]),
        strings_bytes(parts.take(i + 1)) <= strings_bytes(parts),
    decreases parts.len() - i,
{
    assert(parts.take(i + 1).drop_last() =~= parts.take(i));
    if i + 1 < parts.len() {
        lemma_strings_bytes_prefix(parts, i + 1);
    } else {
        assert(parts.take(i + 1) =~= parts);
    }
}

/// Stores each part as a string and gives their values in order.
fn allocate_strings(mm: &mut MemoryManager, parts: &Vec<String>) -> (vals: Vec<Value>)
    requires
        old(mm).wf(),
        has_room(old(mm), parts@.len(), strings_bytes(texts(parts@))),
    ensures
        grown(old(mm), final(mm)),
        final(mm).bytes() <= old(mm).bytes() + strings_bytes(texts(parts@)),
        final(mm).heap_view().dom().len() <= old(mm).heap_view().dom().len() + parts@.len(),
        strings_hold(final(mm), vals@, texts(parts@)),
{
    let ghost ps = texts(parts@);
    let mut vals: Vec<Value> = Vec::new();
    let mut i: usize = 0;
    while i < parts.len()
        invariant
            i <= parts@.len(),
            ps == texts(parts@),
            ps.len() == parts@.len(),
            old(mm).wf(),
            has_room(old(mm), parts@.len(), strings_bytes(ps)),
            grown(old(mm), mm),
            mm.bytes() <= old(mm).bytes() + strings_bytes(ps.take(i as int)),
            mm.heap_view().dom().len() <= old(mm).heap_view().dom().len() + i,
            strings_hold(mm, vals@, ps.take(i as int)),
        decreases parts@.len() - i,
    {
        proof {
            lemma_strings_bytes_prefix(ps, i as int);
            assert(ps[i as int] == parts@[i as int]@);
        }
        let ghost before = *mm;
        let r = mm.allocate_string(parts[i].as_str());
        vals.push(Value::String(r.index));
        proof {
            let hb = before.heap_view();
            let ha = mm.heap_view();
            if !crate::memory_manager::is_interned(hb, parts@[i as int]@) {
                assert(ha.dom() =~= hb.dom().insert(r.index));
            }
            assert forall|k: slotmap::DefaultKey| #[trigger] hb.dom().contains(k) implies ha.dom().contains(
                k,
            ) && ha[k] == hb[k] by {
                if !crate::memory_manager::is_interned(hb, parts@[i as int]@) {
                    assert(k != r.index);
                }
            }
            assert(ps.take(i + 1) =~= ps.take(i as int).push(ps[i as int]));
            assert forall|j: int| 0 <= j < vals@.len() implies (#[trigger] vals@[j]) is String
                && string_at(ha, vals@[j]->String_0, ps.take(i + 1)[j]) by {
                if j < i {
                    assert(string_at(hb, vals@[j]->String_0, ps.take(i as int)[j]));
                }
            }
        }
        i += 1;
    }
    proof {
        assert(ps.take(parts@.len() as int) =~= ps);
    }
    vals
}

/// Stores the parts as strings and an array of them.
fn allocate_string_array(mm: &mut MemoryManager, parts: &Vec<String>) -> (v: Value)
    requires
        old(mm).wf(),
        has_room(old(mm), parts@.len() + 1, strings_bytes(texts(parts@)) + 32 + 16 * parts@.len()),
    ensures
        grown(old(mm), final(mm)),
        array_of_strings(final(mm), v, texts(parts@)),
{
    let ghost h0 = mm.heap_view();
    let vals = allocate_strings(mm, parts);
    let ghost before = *mm;
    let r = mm.allocate_array(vals);
    proof {
        let hb = before.heap_view();
        let ha = mm.heap_view();
        assert forall|k: slotmap::DefaultKey| #[trigger] h0.dom().contains(k) implies ha.dom().contains(
            k,
        ) && ha[k] == h0[k] by {
            assert(hb.dom().contains(k));
            assert(k != r.index);
        }
        assert forall|j: int| 0 <= j < vals@.len() implies string_at(ha, (#[trigger] vals@[j])->String_0, texts(parts@)[j]) by {
            assert(string_at(hb, vals@[j]->String_0, texts(parts@)[j]));
            assert(vals@[j]->String_0 != r.index);
        }
    }
    Value::Array(r.index)
}

/// What `std_starts_with` requires.
pub open spec fn starts_with_pre(pre: MemoryManager, a_val: Value, b_val: Value) -> bool {
    &&& string_valid(&pre, a_val)
    &&& string_valid(&pre, b_val)
}

/// What `std_starts_with` gives.
pub open spec fn starts_with_post(
    pre: MemoryManager,
    post: MemoryManager,
    a_val: Value, b_val: Value,
    span: Range<usize>,
    source_id: String,
    r: Result<Value, RuntimeError>,
) -> bool {
    &&& post == pre
    &&& (a_val is String && b_val is String) ==> r == Ok::<Value, RuntimeError>(
                Value::Boolean(
                    {
                        let a = text_of(&pre, a_val);
                        let b = text_of(&pre, b_val);
                        b.len() <= a.len() && a.take(b.len() as int) == b
                    },
                ),
            )
    &&& !(a_val is String && b_val is String) ==> (r matches Err(e) && error_is(
                e,
                span.start as int,
                span.end as int,
                "std.startsWith() expected two strings"@,
                source_id@,
            ))
}

/// `std.startsWith(a, b)`: whether the string `a` begins with the string `b`.
pub fn std_starts_with(
    a_val: Value,
    b_val: Value,
    memory_manager: &mut MemoryManager,
    span: Range<usize>,
    source_id: String,
) -> (r: Result<Value, RuntimeError>)
    requires
        starts_with_pre(*old(memory_manager), a_val, b_val),
    ensures
        starts_with_post(*old(memory_manager), *final(memory_manager), a_val, b_val, span, source_id, r),
{
    match (a_val, b_val) {
        (Value::String(a_idx), Value::String(b_idx)) => {
            let a = memory_manager.load_string(a_idx);
            let b = memory_manager.load_string(b_idx);
            Ok(Value::Boolean(starts_with(a, b)))
        },
        _ => {
            proof {
                reveal_strlit("std.startsWith() expected two strings");
            }
            Err(ScanError::new(span, String::from_str("std.startsWith() expected two strings"), source_id))
        },
    }
}

/// What `std_ends_with` requires.
pub open spec fn ends_with_pre(pre: MemoryManager, a_val: Value, b_val: Value) -> bool {
    &&& string_valid(&pre, a_val)
    &&& string_valid(&pre, b_val)
}

/// What `std_ends_with` gives.
pub open spec fn ends_with_post(
    pre: MemoryManager,
    post: MemoryManager,
    a_val: Value, b_val: Value,
    span: Range<usize>,
    source_id: String,
    r: Result<Value, RuntimeError>,
) -> bool {
    &&& post == pre
    &&& (a_val is String && b_val is String) ==> r == Ok::<Value, RuntimeError>(
                Value::Boolean(
                    {
                        let a = text_of(&pre, a_val);
                        let b = text_of(&pre, b_val);
                        b.len() <= a.len() && a.skip(a.len() - b.len()) == b
                    },
                ),
            )
    &&& !(a_val is String && b_val is String) ==> (r matches Err(e) && error_is(
                e,
                span.start as int,
                span.end as int,
                "std.endsWith() expected two strings"@,
                source_id@,
            ))
}

/// `std.endsWith(a, b)`: whether the string `a` ends with the string `b`.
pub fn std_ends_with(
    a_val: Value,
    b_val: Value,
    memory_manager: &mut MemoryManager,
    span: Range<usize>,
    source_id: String,
) -> (r: Result<Value, RuntimeError>)
    requires
        ends_with_pre(*old(memory_manager), a_val, b_val),
    ensures
        ends_with_post(*old(memory_manager), *final(memory_manager), a_val, b_val, span, source_id, r),
{
    match (a_val, b_val) {
        (Value::String(a_idx), Value::String(b_idx)) => {
            let a = memory_manager.load_string(a_idx);
            let b = memory_manager.load_string(b_idx);
            Ok(Value::Boolean(ends_with(a, b)))
        },
        _ => {
            proof {
                reveal_strlit("std.endsWith() expected two strings");
            }
            Err(ScanError::new(span, String::from_str("std.endsWith() expected two strings"), source_id))
        },
    }
}

/// What `std_split` requires.
pub open spec fn split_pre(pre: MemoryManager, str_val: Value, c_val: Value) -> bool {
    &&& pre.wf()
    &&& string_valid(&pre, str_val)
    &&& string_valid(&pre, c_val)
    &&& (str_val is String && c_val is String) ==> {
                let parts = split_seq(
                    text_of(&pre, str_val),
                    text_of(&pre, c_val),
                );
                has_room(&pre, parts.len() + 1, strings_bytes(parts) + 32 + 16 * parts.len())
            }
}

/// What `std_split` gives.
pub open spec fn split_post(
    pre: MemoryManager,
    post: MemoryManager,
    str_val: Value, c_val: Value,
    span: Range<usize>,
    source_id: String,
    r: Result<Value, RuntimeError>,
) -> bool {
    &&& (str_val is String && c_val is String) ==> {
                &&& grown(&pre, &post)
                &&& r matches Ok(v) && array_of_strings(
                    &post,
                    v,
                    split_seq(text_of(&pre, str_val), text_of(&pre, c_val)),
                )
            }
    &&& !(str_val is String && c_val is String) ==> {
                &&& post == pre
                &&& r matches Err(e) && error_is(
                    e,
                    span.start as int,
                    span.end as int,
                    "std.split() expects (string, string)"@,
                    source_id@,
                )
            }
}

/// `std.split(s, c)`: the pieces of the string `s` between the occurrences
/// of the string `c`, as an array of strings.
pub fn std_split(
    str_val: Value,
    c_val: Value,
    memory_manager: &mut MemoryManager,
    span: Range<usize>,
    source_id: String,
) -> (r: Result<Value, RuntimeError>)
    requires
        split_pre(*old(memory_manager), str_val, c_val),
    ensures
        split_post(*old(memory_manager), *final(memory_manager), str_val, c_val, span, source_id, r),
{
    match (str_val, c_val) {
        (Value::String(s_idx), Value::String(c_idx)) => {
            let parts = split(memory_manager.load_string(s_idx), memory_manager.load_string(c_idx));
            Ok(allocate_string_array(memory_manager, &parts))
        },
        _ => {
            proof {
                reveal_strlit("std.split() expects (string, string)");
            }
            Err(ScanError::new(span, String::from_str("std.split() expects (string, string)"), source_id))
        },
    }
}

/// What `std_string_chars` requires.
pub open spec fn string_chars_pre(pre: MemoryManager, str_val: Value) -> bool {
    &&& pre.wf()
    &&& string_valid(&pre, str_val)
    &&& str_val is String ==> {
                let parts = single_chars(text_of(&pre, str_val));
                has_room(&pre, parts.len() + 1, strings_bytes(parts) + 32 + 16 * parts.len())
            }
}

/// What `std_string_chars` gives.
pub open spec fn string_chars_post(
    pre: MemoryManager,
    post: MemoryManager,
    str_val: Value,
    span: Range<usize>,
    source_id: String,
    r: Result<Value, RuntimeError>,
) -> bool {
    &&& str_val is String ==> {
                &&& grown(&pre, &post)
                &&& r matches Ok(v) && array_of_strings(
                    &post,
                    v,
                    single_chars(text_of(&pre, str_val)),
                )
            }
    &&& !(str_val is String) ==> {
                &&& post == pre
                &&& r matches Err(e) && error_is(
                    e,
                    span.start as int,
                    span.end as int,
                    "std.stringChars() expected string, but got something else"@,
                    source_id@,
                )
            }
}

/// `std.stringChars(s)`: the characters of the string `s`, each as a
/// string, in an array.
pub fn std_string_chars(
    str_val: Value,
    memory_manager: &mut MemoryManager,
    span: Range<usize>,
    source_id: String,
) -> (r: Result<Value, RuntimeError>)
    requires
        string_chars_pre(*old(memory_manager), str_val),
    ensures
        string_chars_post(*old(memory_manager), *final(memory_manager), str_val, span, source_id, r),
{
    match str_val {
        Value::String(s_idx) => {
            let parts = string_chars(memory_manager.load_string(s_idx));
            Ok(allocate_string_array(memory_manager, &parts))
        },
        _ => {
            proof {
                reveal_strlit("std.stringChars() expected string, but got something else");
            }
            Err(
                ScanError::new(
                    span,
                    String::from_str("std.stringChars() expected string, but got something else"),
                    source_id,
                ),
            )
        },
    }
}

/// What `std_str_replace` requires.
pub open spec fn str_replace_pre(pre: MemoryManager, str_val: Value, from_val: Value, to_val: Value) -> bool {
    &&& pre.wf()
    &&& string_valid(&pre, str_val)
    &&& string_valid(&pre, from_val)
    &&& string_valid(&pre, to_val)
    &&& (str_val is String && from_val is String && to_val is String) ==> has_room(
                &pre,
                1,
                32 + utf8_len(
                    replaced(
                        text_of(&pre, str_val),
                        text_of(&pre, from_val),
                        text_of(&pre, to_val),
                    ),
                ),
            )
}

/// What `std_str_replace` gives.
pub open spec fn str_replace_post(
    pre: MemoryManager,
    post: MemoryManager,
    str_val: Value, from_val: Value, to_val: Value,
    span: Range<usize>,
    source_id: String,
    r: Result<Value, RuntimeError>,
) -> bool {
    &&& (str_val is String && from_val is String && to_val is String) ==> {
                &&& grown(&pre, &post)
                &&& r matches Ok(v) && v is String && string_at(
                    post.heap_view(),
                    v->String_0,
                    replaced(
                        text_of(&pre, str_val),
                        text_of(&pre, from_val),
                        text_of(&pre, to_val),
                    ),
                )
            }
    &&& !(str_val is String && from_val is String && to_val is String) ==> {
                &&& post == pre
                &&& r matches Err(e) && error_is(
                    e,
                    span.start as int,
                    span.end as int,
                    "std.strReplace() expected three strings"@,
                    source_id@,
                )
            }
}

/// `std.strReplace(s, from, to)`: the string `s` with every occurrence of
/// `from` replaced by `to`.
pub fn std_str_replace(
    str_val: Value,
    from_val: Value,
    to_val: Value,
    memory_manager: &mut MemoryManager,
    span: Range<usize>,
    source_id: String,
) -> (r: Result<Value, RuntimeError>)
    requires
        str_replace_pre(*old(memory_manager), str_val, from_val, to_val),
    ensures
        str_replace_post(*old(memory_manager), *final(memory_manager), str_val, from_val, to_val, span, source_id, r),
{
    match (str_val, from_val, to_val) {
        (Value::String(s_idx), Value::String(from_idx), Value::String(to_idx)) => {
            let result = str_replace(
                memory_manager.load_string(s_idx),
                memory_manager.load_string(from_idx),
                memory_manager.load_string(to_idx),
            );
            let ghost h0 = memory_manager.heap_view();
            let alloc = memory_manager.allocate_string(result.as_str());
            proof {
                let h = memory_manager.heap_view();
                assert forall|k: slotmap::DefaultKey| #[trigger] h0.dom().contains(k) implies h.dom().contains(
                    k,
                ) && h[k] == h0[k] by {
                    if !crate::memory_manager::is_interned(h0, result@) {
                        assert(k != alloc.index);
                    }
                }
            }
            Ok(Value::String(alloc.index))
        },
        _ => {
            proof {
                reveal_strlit("std.strReplace() expected three strings");
            }
            Err(ScanError::new(span, String::from_str("std.strReplace() expected three strings"), source_id))
        },
    }
}

/// Whether a value that names an array names one the heap holds, whose
/// string elements the heap holds too.
pub open spec fn array_valid(mm: &MemoryManager, v: Value) -> bool {
    v matches Value::Array(k) ==> {
        &&& mm.heap_view().dom().contains(k)
        &&& mm.heap_view()[k] is Array
        &&& forall|i: int|
            0 <= i < mm.heap_view()[k]->Array_0.elements@.len() ==> ref_valid(
                mm,
                #[trigger] mm.heap_view()[k]->Array_0.elements@[i],
            )
    }
}

/// Whether a string or array value names an entry of its kind that the heap
/// holds.
pub open spec fn ref_valid(mm: &MemoryManager, v: Value) -> bool {
    &&& string_valid(mm, v)
    &&& v matches Value::Array(k) ==> mm.heap_view().dom().contains(k) && mm.heap_view()[k] is Array
}

/// The elements of an array value.
pub open spec fn elements_of(mm: &MemoryManager, v: Value) -> Seq<Value> {
    mm.heap_view()[v->Array_0]->Array_0.elements@
}

/// The texts of the string elements, nulls skipped; none when another kind
/// of value occurs.
pub open spec fn collect_strings(mm: &MemoryManager, elems: Seq<Value>) -> Option<Seq<Seq<char>>>
    decreases elems.len(),
{
    if elems.len() == 0 {
        Some(Seq::empty())
    } else {
        match collect_strings(mm, elems.drop_last()) {
            None => None,
            Some(p) => match elems.last() {
                Value::Null => Some(p),
                Value::String(_) => Some(p.push(text_of(mm, elems.last()))),
                _ => None,
            },
        }
    }
}

/// The texts of the string elements of an array, nulls skipped; none when
/// another kind of value occurs.
fn gather_strings(mm: &MemoryManager, elems: &Vec<Value>) -> (r: Option<Vec<String>>)
    requires
        forall|i: int| 0 <= i < elems@.len() ==> ref_valid(mm, #[trigger] elems@[i]),
    ensures
        r is None <==> collect_strings(mm, elems@) is None,
        r matches Some(v) ==> collect_strings(mm, elems@) == Some(texts(v@)),
{
    let mut parts: Vec<String> = Vec::new();
    let mut i: usize = 0;
    while i < elems.len()
        invariant
            i <= elems@.len(),
            forall|j: int| 0 <= j < elems@.len() ==> ref_valid(mm, #[trigger] elems@[j]),
            collect_strings(mm, elems@.take(i as int)) == Some(texts(parts@)),
        decreases elems@.len() - i,
    {
        assert(elems@.take(i + 1).drop_last() =~= elems@.take(i as int));
        assert(elems@.take(i + 1).last() == elems@[i as int]);
        match elems[i] {
            Value::Null => {},
            Value::String(k) => {
                assert(ref_valid(mm, elems@[i as int]));
                let t = String::from_str(mm.load_string(k));
                let ghost before = parts@;
                parts.push(t);
                assert(texts(parts@) =~= texts(before).push(t@));
            },
            _ => {
                proof {
                    lemma_collect_none_stays(mm, elems@, (i + 1) as int);
                }
                return None;
            },
        }
        i += 1;
    }
    assert(elems@.take(elems@.len() as int) =~= elems@);
    Some(parts)
}

proof fn lemma_collect_none_stays(mm: &MemoryManager, elems: Seq<Value>, n: int)
    requires
        0 <= n <= elems.len(),
        collect_strings(mm, elems.take(n)) is None,
    ensures
        collect_strings(mm, elems) is None,
    decreases elems.len() - n,
{
    if n == elems.len() {
        assert(elems.take(n) =~= elems);
    } else {
        assert(elems.take(n + 1).drop_last() =~= elems.take(n));
        lemma_collect_none_stays(mm, elems, n + 1);
    }
}

/// What `std_lines` requires.
pub open spec fn lines_pre(pre: MemoryManager, arr_val: Value) -> bool {
    &&& pre.wf()
    &&& array_valid(&pre, arr_val)
    &&& arr_val is Array ==> (collect_strings(
                &pre,
                elements_of(&pre, arr_val),
            ) matches Some(ps) ==> has_room(&pre, 1, 32 + utf8_len(lines_joined(ps))))
}

/// What `std_lines` gives.
pub open spec fn lines_post(
    pre: MemoryManager,
    post: MemoryManager,
    arr_val: Value,
    span: Range<usize>,
    source_id: String,
    r: Result<Value, RuntimeError>,
) -> bool {
    &&& arr_val is Array && collect_strings(
                &pre,
                elements_of(&pre, arr_val),
            ) is Some ==> {
                &&& grown(&pre, &post)
                &&& r matches Ok(v) && v is String && string_at(
                    post.heap_view(),
                    v->String_0,
                    lines_joined(
                        collect_strings(
                            &pre,
                            elements_of(&pre, arr_val),
                        )->Some_0,
                    ),
                )
            }
    &&& arr_val is Array && collect_strings(
                &pre,
                elements_of(&pre, arr_val),
            ) is None ==> {
                &&& post == pre
                &&& r matches Err(e) && error_is(
                    e,
                    span.start as int,
                    span.end as int,
                    "std.lines() expected array of strings"@,
                    source_id@,
                )
            }
    &&& !(arr_val is Array) ==> {
                &&& post == pre
                &&& r matches Err(e) && error_is(
                    e,
                    span.start as int,
                    span.end as int,
                    "std.lines() expected array, but got something else"@,
                    source_id@,
                )
            }
}

/// `std.lines(arr)`: the strings of `arr`, each followed by a line feed,
/// nulls skipped.
pub fn std_lines(
    arr_val: Value,
    memory_manager: &mut MemoryManager,
    span: Range<usize>,
    source_id: String,
) -> (r: Result<Value, RuntimeError>)
    requires
        lines_pre(*old(memory_manager), arr_val),
    ensures
        lines_post(*old(memory_manager), *final(memory_manager), arr_val, span, source_id, r),
{
    let arr_idx = match arr_val {
        Value::Array(a) => a,
        _ => {
            proof {
                reveal_strlit("std.lines() expected array, but got something else");
            }
            return Err(
                ScanError::new(
                    span,
                    String::from_str("std.lines() expected array, but got something else"),
                    source_id,
                ),
            );
        },
    };
    let gathered = gather_strings(memory_manager, &memory_manager.load_array(arr_idx).elements);
    match gathered {
        Some(parts) => {
            let text = lines_text(&parts);
            let ghost h0 = memory_manager.heap_view();
            let alloc = memory_manager.allocate_string(text.as_str());
            proof {
                let h = memory_manager.heap_view();
                assert forall|k: slotmap::DefaultKey| #[trigger] h0.dom().contains(k) implies h.dom().contains(
                    k,
                ) && h[k] == h0[k] by {
                    if !crate::memory_manager::is_interned(h0, text@) {
                        assert(k != alloc.index);
                    }
                }
            }
            Ok(Value::String(alloc.index))
        },
        None => {
            proof {
                reveal_strlit("std.lines() expected array of strings");
            }
            Err(ScanError::new(span, String::from_str("std.lines() expected array of strings"), source_id))
        },
    }
}

/// The elements of the array elements, nulls skipped; none when another
/// kind of value occurs.
pub open spec fn collect_arrays(mm: &MemoryManager, elems: Seq<Value>) -> Option<Seq<Seq<Value>>>
    decreases elems.len(),
{
    if elems.len() == 0 {
        Some(Seq::empty())
    } else {
        match collect_arrays(mm, elems.drop_last()) {
            None => None,
            Some(p) => match elems.last() {
                Value::Null => Some(p),
                Value::Array(_) => Some(p.push(elements_of(mm, elems.last()))),
                _ => None,
            },
        }
    }
}

/// The parts one after another with `sep` between each two.
pub open spec fn join_values(parts: Seq<Seq<Value>>, sep: Seq<Value>) -> Seq<Value>
    decreases parts.len(),
{
    if parts.len() == 0 {
        Seq::empty()
    } else if parts.len() == 1 {
        parts[0]
    } else {
        join_values(parts.drop_last(), sep) + sep + parts.last()
    }
}

proof fn lemma_collect_arrays_none_stays(mm: &MemoryManager, elems: Seq<Value>, n: int)
    requires
        0 <= n <= elems.len(),
        collect_arrays(mm, elems.take(n)) is None,
    ensures
        collect_arrays(mm, elems) is None,
    decreases elems.len() - n,
{
    if n == elems.len() {
        assert(elems.take(n) =~= elems);
    } else {
        assert(elems.take(n + 1).drop_last() =~= elems.take(n));
        lemma_collect_arrays_none_stays(mm, elems, n + 1);
    }
}

/// The sub-arrays' elements joined with `sep`, nulls skipped; none when
/// another kind of value occurs.
fn join_arrays(mm: &MemoryManager, elems: &Vec<Value>, sep: &Vec<Value>) -> (r: Option<Vec<Value>>)
    requires
        forall|i: int| 0 <= i < elems@.len() ==> ref_valid(mm, #[trigger] elems@[i]),
    ensures
        r is None <==> collect_arrays(mm, elems@) is None,
        r matches Some(v) ==> v@ == join_values(collect_arrays(mm, elems@)->Some_0, sep@),
{
    let mut result: Vec<Value> = Vec::new();
    let mut first = true;
    let mut i: usize = 0;
    while i < elems.len()
        invariant
            i <= elems@.len(),
            forall|j: int| 0 <= j < elems@.len() ==> ref_valid(mm, #[trigger] elems@[j]),
            collect_arrays(mm, elems@.take(i as int)) is Some,
            result@ == join_values(collect_arrays(mm, elems@.take(i as int))->Some_0, sep@),
            first == (collect_arrays(mm, elems@.take(i as int))->Some_0.len() == 0),
        decreases elems@.len() - i,
    {
        assert(elems@.take(i + 1).drop_last() =~= elems@.take(i as int));
        assert(elems@.take(i + 1).last() == elems@[i as int]);
        let ghost p = collect_arrays(mm, elems@.take(i as int))->Some_0;
        match elems[i] {
            Value::Null => {},
            Value::Array(k) => {
                assert(ref_valid(mm, elems@[i as int]));
                let sub = &mm.load_array(k).elements;
                let ghost before = result@;
                if !first {
                    let mut j: usize = 0;
                    while j < sep.len()
                        invariant
                            j <= sep@.len(),
                            result@ == before + sep@.take(j as int),
                        decreases sep@.len() - j,
                    {
                        result.push(sep[j]);
                        assert(result@ =~= before + sep@.take(j + 1));
                        j += 1;
                    }
                    assert(sep@.take(sep@.len() as int) =~= sep@);
                }
                let ghost mid = result@;
                let mut j: usize = 0;
                while j < sub.len()
                    invariant
                        j <= sub@.len(),
                        result@ == mid + sub@.take(j as int),
                    decreases sub@.len() - j,
                {
                    result.push(sub[j]);
                    assert(result@ =~= mid + sub@.take(j + 1));
                    j += 1;
                }
                assert(sub@.take(sub@.len() as int) =~= sub@);
                proof {
                    let np = p.push(sub@);
                    assert(np.drop_last() =~= p);
                    if first {
                        assert(p.len() == 0);
                        assert(result@ =~= join_values(np, sep@));
                    } else {
                        assert(result@ =~= join_values(np, sep@));
                    }
                }
                first = false;
            },
            _ => {
                proof {
                    lemma_collect_arrays_none_stays(mm, elems@, (i + 1) as int);
                }
                return None;
            },
        }
        i += 1;
    }
    assert(elems@.take(elems@.len() as int) =~= elems@);
    Some(result)
}

/// What `std_join` requires.
pub open spec fn join_pre(pre: MemoryManager, sep_val: Value, arr_val: Value) -> bool {
    &&& pre.wf()
    &&& ref_valid(&pre, sep_val)
    &&& array_valid(&pre, arr_val)
    &&& (arr_val is Array && sep_val is String) ==> (collect_strings(
                &pre,
                elements_of(&pre, arr_val),
            ) matches Some(ps) ==> has_room(
                &pre,
                1,
                32 + utf8_len(join_seq(ps, text_of(&pre, sep_val))),
            ))
    &&& (arr_val is Array && sep_val is Array) ==> (collect_arrays(
                &pre,
                elements_of(&pre, arr_val),
            ) matches Some(ps) ==> has_room(
                &pre,
                1,
                32 + 16 * join_values(ps, elements_of(&pre, sep_val)).len(),
            ))
}

/// What `std_join` gives.
pub open spec fn join_post(
    pre: MemoryManager,
    post: MemoryManager,
    sep_val: Value, arr_val: Value,
    span: Range<usize>,
    source_id: String,
    r: Result<Value, RuntimeError>,
) -> bool {
    &&& !(arr_val is Array) ==> {
                &&& post == pre
                &&& r matches Err(e) && error_is(
                    e,
                    span.start as int,
                    span.end as int,
                    "std.join() second argument must be an array"@,
                    source_id@,
                )
            }
    &&& arr_val is Array && sep_val is String ==> match collect_strings(
                &pre,
                elements_of(&pre, arr_val),
            ) {
                Some(ps) => {
                    &&& grown(&pre, &post)
                    &&& r matches Ok(v) && v is String && string_at(
                        post.heap_view(),
                        v->String_0,
                        join_seq(ps, text_of(&pre, sep_val)),
                    )
                },
                None => {
                    &&& post == pre
                    &&& r matches Err(e) && error_is(
                        e,
                        span.start as int,
                        span.end as int,
                        "std.join() with string separator requires array of strings"@,
                        source_id@,
                    )
                },
            }
    &&& arr_val is Array && sep_val is Array ==> match collect_arrays(
                &pre,
                elements_of(&pre, arr_val),
            ) {
                Some(ps) => {
                    &&& grown(&pre, &post)
                    &&& r matches Ok(v) && v is Array && post.heap_view().dom().contains(
                        v->Array_0,
                    ) && post.heap_view()[v->Array_0] is Array
                        && post.heap_view()[v->Array_0]->Array_0.elements@
                        == join_values(ps, elements_of(&pre, sep_val))
                },
                None => {
                    &&& post == pre
                    &&& r matches Err(e) && error_is(
                        e,
                        span.start as int,
                        span.end as int,
                        "std.join() with array separator requires array of arrays"@,
                        source_id@,
                    )
                },
            }
    &&& arr_val is Array && !(sep_val is String) && !(sep_val is Array) ==> {
                &&& post == pre
                &&& r matches Err(e) && error_is(
                    e,
                    span.start as int,
                    span.end as int,
                    "std.join() first argument must be a string or array"@,
                    source_id@,
                )
            }
}

/// `std.join(sep, arr)`: with a string separator, the strings of `arr`
/// joined by it; with an array separator, the arrays of `arr` one after
/// another with its elements between each two. Nulls in `arr` are skipped.
pub fn std_join(
    sep_val: Value,
    arr_val: Value,
    memory_manager: &mut MemoryManager,
    span: Range<usize>,
    source_id: String,
) -> (r: Result<Value, RuntimeError>)
    requires
        join_pre(*old(memory_manager), sep_val, arr_val),
    ensures
        join_post(*old(memory_manager), *final(memory_manager), sep_val, arr_val, span, source_id, r),
{
    let arr_idx = match arr_val {
        Value::Array(a) => a,
        _ => {
            proof {
                reveal_strlit("std.join() second argument must be an array");
            }
            return Err(
                ScanError::new(
                    span,
                    String::from_str("std.join() second argument must be an array"),
                    source_id,
                ),
            );
        },
    };
    match sep_val {
        Value::String(sep_idx) => {
            let gathered = gather_strings(memory_manager, &memory_manager.load_array(arr_idx).elements);
            match gathered {
                Some(parts) => {
                    let text = join_strings(memory_manager.load_string(sep_idx), &parts);
                    let ghost h0 = memory_manager.heap_view();
                    let alloc = memory_manager.allocate_string(text.as_str());
                    proof {
                        let h = memory_manager.heap_view();
                        assert forall|k: slotmap::DefaultKey| #[trigger] h0.dom().contains(k) implies h.dom().contains(
                            k,
                        ) && h[k] == h0[k] by {
                            if !crate::memory_manager::is_interned(h0, text@) {
                                assert(k != alloc.index);
                            }
                        }
                    }
                    Ok(Value::String(alloc.index))
                },
                None => {
                    proof {
                        reveal_strlit("std.join() with string separator requires array of strings");
                    }
                    Err(
                        ScanError::new(
                            span,
                            String::from_str(
                                "std.join() with string separator requires array of strings",
                            ),
                            source_id,
                        ),
                    )
                },
            }
        },
        Value::Array(sep_idx) => {
            let joined = join_arrays(
                memory_manager,
                &memory_manager.load_array(arr_idx).elements,
                &memory_manager.load_array(sep_idx).elements,
            );
            match joined {
                Some(elements) => {
                    let ghost h0 = memory_manager.heap_view();
                    let alloc = memory_manager.allocate_array(elements);
                    proof {
                        let h = memory_manager.heap_view();
                        assert forall|k: slotmap::DefaultKey| #[trigger] h0.dom().contains(k) implies h.dom().contains(
                            k,
                        ) && h[k] == h0[k] by {
                            assert(k != alloc.index);
                        }
                    }
                    Ok(Value::Array(alloc.index))
                },
                None => {
                    proof {
                        reveal_strlit("std.join() with array separator requires array of arrays");
                    }
                    Err(
                        ScanError::new(
                            span,
                            String::from_str("std.join() with array separator requires array of arrays"),
                            source_id,
                        ),
                    )
                },
            }
        },
        _ => {
            proof {
                reveal_strlit("std.join() first argument must be a string or array");
            }
            Err(
                ScanError::new(
                    span,
                    String::from_str("std.join() first argument must be a string or array"),
                    source_id,
                ),
            )
        },
    }
}

/// The name `std.type` gives the kind of a value.
pub open spec fn kind_name(v: Value) -> Seq<char> {
    match v {
        Value::Null => "null"@,
        Value::Boolean(_) => "boolean"@,
        Value::Number(_) => "number"@,
        Value::String(_) => "string"@,
        Value::Object(_) => "object"@,
        Value::Array(_) => "array"@,
        Value::Function(_) => "function"@,
        Value::Closure(_) => "function"@,
        Value::Import(_) => "import"@,
    }
}

fn kind_name_of(v: Value) -> (r: &'static str)
    ensures
        r@ == kind_name(v),
{
    proof {
        reveal_strlit("null");
        reveal_strlit("boolean");
        reveal_strlit("number");
        reveal_strlit("string");
        reveal_strlit("object");
        reveal_strlit("array");
        reveal_strlit("function");
        reveal_strlit("import");
    }
    match v {
        Value::Null => "null",
        Value::Boolean(_) => "boolean",
        Value::Number(_) => "number",
        Value::String(_) => "string",
        Value::Object(_) => "object",
        Value::Array(_) => "array",
        Value::Function(_) => "function",
        Value::Closure(_) => "function",
        Value::Import(_) => "import",
    }
}

/// `std.type(v)`: the name of the kind of `v`, as a string.
pub fn std_type(val: Value, memory_manager: &mut MemoryManager, _span: Range<usize>) -> (r: Result<
    Value,
    RuntimeError,
>)
    requires
        old(memory_manager).wf(),
        has_room(old(memory_manager), 1, 32 + utf8_len(kind_name(val))),
    ensures
        grown(old(memory_manager), final(memory_manager)),
        r matches Ok(v) && v is String && string_at(
            final(memory_manager).heap_view(),
            v->String_0,
            kind_name(val),
        ),
{
    let name = kind_name_of(val);
    let ghost h0 = memory_manager.heap_view();
    let alloc = memory_manager.allocate_string(name);
    proof {
        let h = memory_manager.heap_view();
        assert forall|k: slotmap::DefaultKey| #[trigger] h0.dom().contains(k) implies h.dom().contains(k)
            && h[k] == h0[k] by {
            if !crate::memory_manager::is_interned(h0, name@) {
                assert(k != alloc.index);
            }
        }
    }
    Ok(Value::String(alloc.index))
}

/// `std.isArray(v)`.
pub fn std_is_array(val: Value) -> (r: Result<Value, RuntimeError>)
    ensures
        r == Ok::<Value, RuntimeError>(Value::Boolean(val is Array)),
{
    Ok(Value::Boolean(matches!(val, Value::Array(_))))
}

/// `std.isBoolean(v)`.
pub fn std_is_boolean(val: Value) -> (r: Result<Value, RuntimeError>)
    ensures
        r == Ok::<Value, RuntimeError>(Value::Boolean(val is Boolean)),
{
    Ok(Value::Boolean(matches!(val, Value::Boolean(_))))
}

/// `std.isNumber(v)`.
pub fn std_is_number(val: Value) -> (r: Result<Value, RuntimeError>)
    ensures
        r == Ok::<Value, RuntimeError>(Value::Boolean(val is Number)),
{
    Ok(Value::Boolean(matches!(val, Value::Number(_))))
}

/// `std.isObject(v)`.
pub fn std_is_object(val: Value) -> (r: Result<Value, RuntimeError>)
    ensures
        r == Ok::<Value, RuntimeError>(Value::Boolean(val is Object)),
{
    Ok(Value::Boolean(matches!(val, Value::Object(_))))
}

/// `std.isString(v)`.
pub fn std_is_string(val: Value) -> (r: Result<Value, RuntimeError>)
    ensures
        r == Ok::<Value, RuntimeError>(Value::Boolean(val is String)),
{
    Ok(Value::Boolean(matches!(val, Value::String(_))))
}

/// `std.isNull(v)`.
pub fn std_is_null(val: Value) -> (r: Result<Value, RuntimeError>)
    ensures
        r == Ok::<Value, RuntimeError>(Value::Boolean(val is Null)),
{
    Ok(Value::Boolean(matches!(val, Value::Null)))
}

/// `std.isFunction(v)`: functions and closures.
pub fn std_is_function(val: Value) -> (r: Result<Value, RuntimeError>)
    ensures
        r == Ok::<Value, RuntimeError>(Value::Boolean(val is Function || val is Closure)),
{
    Ok(Value::Boolean(matches!(val, Value::Function(_) | Value::Closure(_))))
}

/// Stores `text` as a string of the heap and gives its value.
fn store_text(mm: &mut MemoryManager, text: &String) -> (v: Value)
    requires
        old(mm).wf(),
        has_room(old(mm), 1, 32 + utf8_len(text@)),
    ensures
        grown(old(mm), final(mm)),
        v is String && string_at(final(mm).heap_view(), v->String_0, text@),
{
    let ghost h0 = mm.heap_view();
    let alloc = mm.allocate_string(text.as_str());
    proof {
        let h = mm.heap_view();
        assert forall|k: slotmap::DefaultKey| #[trigger] h0.dom().contains(k) implies h.dom().contains(k)
            && h[k] == h0[k] by {
            if !crate::memory_manager::is_interned(h0, text@) {
                assert(k != alloc.index);
            }
        }
    }
    Value::String(alloc.index)
}

/// What `std_strip_chars` requires.
pub open spec fn strip_chars_pre(pre: MemoryManager, str_val: Value, chars_val: Value) -> bool {
    &&& pre.wf()
    &&& string_valid(&pre, str_val)
    &&& string_valid(&pre, chars_val)
    &&& (str_val is String && chars_val is String) ==> has_room(
                &pre,
                1,
                32 + utf8_len(
                    stripped(text_of(&pre, str_val), text_of(&pre, chars_val)),
                ),
            )
}

/// What `std_strip_chars` gives.
pub open spec fn strip_chars_post(
    pre: MemoryManager,
    post: MemoryManager,
    str_val: Value, chars_val: Value,
    span: Range<usize>,
    source_id: String,
    r: Result<Value, RuntimeError>,
) -> bool {
    &&& (str_val is String && chars_val is String) ==> {
                &&& grown(&pre, &post)
                &&& r matches Ok(v) && v is String && string_at(
                    post.heap_view(),
                    v->String_0,
                    stripped(text_of(&pre, str_val), text_of(&pre, chars_val)),
                )
            }
    &&& !(str_val is String && chars_val is String) ==> {
                &&& post == pre
                &&& r matches Err(e) && error_is(
                    e,
                    span.start as int,
                    span.end as int,
                    "std.stripChars() expects (string, string)"@,
                    source_id@,
                )
            }
}

/// `std.stripChars(s, chars)`: `s` without the characters of `chars` at
/// either end.
pub fn std_strip_chars(
    str_val: Value,
    chars_val: Value,
    memory_manager: &mut MemoryManager,
    span: Range<usize>,
    source_id: String,
) -> (r: Result<Value, RuntimeError>)
    requires
        strip_chars_pre(*old(memory_manager), str_val, chars_val),
    ensures
        strip_chars_post(*old(memory_manager), *final(memory_manager), str_val, chars_val, span, source_id, r),
{
    match (str_val, chars_val) {
        (Value::String(s_idx), Value::String(c_idx)) => {
            let t = strip_chars(memory_manager.load_string(s_idx), memory_manager.load_string(c_idx));
            Ok(store_text(memory_manager, &t))
        },
        _ => {
            proof {
                reveal_strlit("std.stripChars() expects (string, string)");
            }
            Err(ScanError::new(span, String::from_str("std.stripChars() expects (string, string)"), source_id))
        },
    }
}

/// What `std_lstrip_chars` requires.
pub open spec fn lstrip_chars_pre(pre: MemoryManager, str_val: Value, chars_val: Value) -> bool {
    &&& pre.wf()
    &&& string_valid(&pre, str_val)
    &&& string_valid(&pre, chars_val)
    &&& (str_val is String && chars_val is String) ==> has_room(
                &pre,
                1,
                32 + utf8_len(
                    lstripped(text_of(&pre, str_val), text_of(&pre, chars_val)),
                ),
            )
}

/// What `std_lstrip_chars` gives.
pub open spec fn lstrip_chars_post(
    pre: MemoryManager,
    post: MemoryManager,
    str_val: Value, chars_val: Value,
    span: Range<usize>,
    source_id: String,
    r: Result<Value, RuntimeError>,
) -> bool {
    &&& (str_val is String && chars_val is String) ==> {
                &&& grown(&pre, &post)
                &&& r matches Ok(v) && v is String && string_at(
                    post.heap_view(),
                    v->String_0,
                    lstripped(text_of(&pre, str_val), text_of(&pre, chars_val)),
                )
            }
    &&& !(str_val is String && chars_val is String) ==> {
                &&& post == pre
                &&& r matches Err(e) && error_is(
                    e,
                    span.start as int,
                    span.end as int,
                    "std.lstripChars() expects (string, string)"@,
                    source_id@,
                )
            }
}

/// `std.lstripChars(s, chars)`: `s` without the characters of `chars` at
/// its start.
pub fn std_lstrip_chars(
    str_val: Value,
    chars_val: Value,
    memory_manager: &mut MemoryManager,
    span: Range<usize>,
    source_id: String,
) -> (r: Result<Value, RuntimeError>)
    requires
        lstrip_chars_pre(*old(memory_manager), str_val, chars_val),
    ensures
        lstrip_chars_post(*old(memory_manager), *final(memory_manager), str_val, chars_val, span, source_id, r),
{
    match (str_val, chars_val) {
        (Value::String(s_idx), Value::String(c_idx)) => {
            let t = lstrip_chars(memory_manager.load_string(s_idx), memory_manager.load_string(c_idx));
            Ok(store_text(memory_manager, &t))
        },
        _ => {
            proof {
                reveal_strlit("std.lstripChars() expects (string, string)");
            }
            Err(ScanError::new(span, String::from_str("std.lstripChars() expects (string, string)"), source_id))
        },
    }
}

/// What `std_rstrip_chars` requires.
pub open spec fn rstrip_chars_pre(pre: MemoryManager, str_val: Value, chars_val: Value) -> bool {
    &&& pre.wf()
    &&& string_valid(&pre, str_val)
    &&& string_valid(&pre, chars_val)
    &&& (str_val is String && chars_val is String) ==> has_room(
                &pre,
                1,
                32 + utf8_len(
                    rstripped(text_of(&pre, str_val), text_of(&pre, chars_val)),
                ),
            )
}

/// What `std_rstrip_chars` gives.
pub open spec fn rstrip_chars_post(
    pre: MemoryManager,
    post: MemoryManager,
    str_val: Value, chars_val: Value,
    span: Range<usize>,
    source_id: String,
    r: Result<Value, RuntimeError>,
) -> bool {
    &&& (str_val is String && chars_val is String) ==> {
                &&& grown(&pre, &post)
                &&& r matches Ok(v) && v is String && string_at(
                    post.heap_view(),
                    v->String_0,
                    rstripped(text_of(&pre, str_val), text_of(&pre, chars_val)),
                )
            }
    &&& !(str_val is String && chars_val is String) ==> {
                &&& post == pre
                &&& r matches Err(e) && error_is(
                    e,
                    span.start as int,
                    span.end as int,
                    "std.rstripChars() expects (string, string)"@,
                    source_id@,
                )
            }
}

/// `std.rstripChars(s, chars)`: `s` without the characters of `chars` at
/// its end.
pub fn std_rstrip_chars(
    str_val: Value,
    chars_val: Value,
    memory_manager: &mut MemoryManager,
    span: Range<usize>,
    source_id: String,
) -> (r: Result<Value, RuntimeError>)
    requires
        rstrip_chars_pre(*old(memory_manager), str_val, chars_val),
    ensures
        rstrip_chars_post(*old(memory_manager), *final(memory_manager), str_val, chars_val, span, source_id, r),
{
    match (str_val, chars_val) {
        (Value::String(s_idx), Value::String(c_idx)) => {
            let t = rstrip_chars(memory_manager.load_string(s_idx), memory_manager.load_string(c_idx));
            Ok(store_text(memory_manager, &t))
        },
        _ => {
            proof {
                reveal_strlit("std.rstripChars() expects (string, string)");
            }
            Err(ScanError::new(span, String::from_str("std.rstripChars() expects (string, string)"), source_id))
        },
    }
}

/// What `std_is_empty` requires.
pub open spec fn is_empty_pre(pre: MemoryManager, str_val: Value) -> bool {
    &&& string_valid(&pre, str_val)
}

/// What `std_is_empty` gives.
pub open spec fn is_empty_post(
    pre: MemoryManager,
    post: MemoryManager,
    str_val: Value,
    span: Range<usize>,
    source_id: String,
    r: Result<Value, RuntimeError>,
) -> bool {
    &&& post == pre
    &&& str_val is String ==> r == Ok::<Value, RuntimeError>(
                Value::Boolean(text_of(&pre, str_val).len() == 0),
            )
    &&& !(str_val is String) ==> (r matches Err(e) && error_is(
                e,
                span.start as int,
                span.end as int,
                "std.isEmpty() expected string, but got something else"@,
                source_id@,
            ))
}

/// `std.isEmpty(s)`: whether the string `s` is empty.
pub fn std_is_empty(
    str_val: Value,
    memory_manager: &mut MemoryManager,
    span: Range<usize>,
    source_id: String,
) -> (r: Result<Value, RuntimeError>)
    requires
        is_empty_pre(*old(memory_manager), str_val),
    ensures
        is_empty_post(*old(memory_manager), *final(memory_manager), str_val, span, source_id, r),
{
    match str_val {
        Value::String(s_idx) => {
            let s = memory_manager.load_string(s_idx);
            Ok(Value::Boolean(s.unicode_len() == 0))
        },
        _ => {
            proof {
                reveal_strlit("std.isEmpty() expected string, but got something else");
            }
            Err(
                ScanError::new(
                    span,
                    String::from_str("std.isEmpty() expected string, but got something else"),
                    source_id,
                ),
            )
        },
    }
}

/// Stores an array of `elements` and gives its value.
fn store_array(mm: &mut MemoryManager, elements: Vec<Value>) -> (v: Value)
    requires
        old(mm).wf(),
        has_room(old(mm), 1, 32 + 16 * elements@.len()),
    ensures
        grown(old(mm), final(mm)),
        v is Array && final(mm).heap_view().dom().contains(v->Array_0) && final(mm).heap_view()[v->Array_0] is Array && final(mm).heap_view()[v->Array_0]->Array_0.elements@
            == elements@,
{
    let ghost h0 = mm.heap_view();
    let ghost es = elements@;
    let alloc = mm.allocate_array(elements);
    proof {
        let h = mm.heap_view();
        assert forall|k: slotmap::DefaultKey| #[trigger] h0.dom().contains(k) implies h.dom().contains(k)
            && h[k] == h0[k] by {
            assert(k != alloc.index);
        }
    }
    Value::Array(alloc.index)
}

/// What `std_reverse` requires.
pub open spec fn reverse_pre(pre: MemoryManager, arr_val: Value) -> bool {
    &&& pre.wf()
    &&& array_valid(&pre, arr_val)
    &&& arr_val is Array ==> has_room(
                &pre,
                1,
                32 + 16 * elements_of(&pre, arr_val).len(),
            )
}

/// What `std_reverse` gives.
pub open spec fn reverse_post(
    pre: MemoryManager,
    post: MemoryManager,
    arr_val: Value,
    span: Range<usize>,
    source_id: String,
    r: Result<Value, RuntimeError>,
) -> bool {
    &&& arr_val is Array ==> {
                &&& grown(&pre, &post)
                &&& r matches Ok(v) && v is Array && post.heap_view().dom().contains(
                    v->Array_0,
                ) && post.heap_view()[v->Array_0] is Array
                    && post.heap_view()[v->Array_0]->Array_0.elements@
                    == elements_of(&pre, arr_val).reverse()
            }
    &&& !(arr_val is Array) ==> {
                &&& post == pre
                &&& r matches Err(e) && error_is(
                    e,
                    span.start as int,
                    span.end as int,
                    "std.reverse() expected array, but got something else"@,
                    source_id@,
                )
            }
}

/// `std.reverse(arr)`: a new array with the elements of `arr` in reverse
/// order.
pub fn std_reverse(
    arr_val: Value,
    memory_manager: &mut MemoryManager,
    span: Range<usize>,
    source_id: String,
) -> (r: Result<Value, RuntimeError>)
    requires
        reverse_pre(*old(memory_manager), arr_val),
    ensures
        reverse_post(*old(memory_manager), *final(memory_manager), arr_val, span, source_id, r),
{
    let arr_idx = match arr_val {
        Value::Array(a) => a,
        _ => {
            proof {
                reveal_strlit("std.reverse() expected array, but got something else");
            }
            return Err(
                ScanError::new(
                    span,
                    String::from_str("std.reverse() expected array, but got something else"),
                    source_id,
                ),
            );
        },
    };
    let elements = &memory_manager.load_array(arr_idx).elements;
    let mut reversed: Vec<Value> = Vec::new();
    let mut i: usize = elements.len();
    while i > 0
        invariant
            i <= elements@.len(),
            reversed@ == elements@.subrange(i as int, elements@.len() as int).reverse(),
        decreases i,
    {
        i -= 1;
        reversed.push(elements[i]);
        assert(reversed@ =~= elements@.subrange(i as int, elements@.len() as int).reverse());
    }
    assert(elements@.subrange(0, elements@.len() as int) =~= elements@);
    Ok(store_array(memory_manager, reversed))
}

/// What `std_flatten_arrays` requires.
pub open spec fn flatten_arrays_pre(pre: MemoryManager, arr_val: Value) -> bool {
    &&& pre.wf()
    &&& array_valid(&pre, arr_val)
    &&& arr_val is Array ==> (all_arrays(&pre, elements_of(&pre, arr_val))
                matches Some(ps) ==> has_room(&pre, 1, 32 + 16 * ps.flatten().len()))
}

/// What `std_flatten_arrays` gives.
pub open spec fn flatten_arrays_post(
    pre: MemoryManager,
    post: MemoryManager,
    arr_val: Value,
    span: Range<usize>,
    source_id: String,
    r: Result<Value, RuntimeError>,
) -> bool {
    &&& arr_val is Array ==> match all_arrays(
                &pre,
                elements_of(&pre, arr_val),
            ) {
                Some(ps) => {
                    &&& grown(&pre, &post)
                    &&& r matches Ok(v) && v is Array && post.heap_view().dom().contains(
                        v->Array_0,
                    ) && post.heap_view()[v->Array_0] is Array
                        && post.heap_view()[v->Array_0]->Array_0.elements@
                        == ps.flatten()
                },
                None => {
                    &&& post == pre
                    &&& r matches Err(e) && error_is(
                        e,
                        span.start as int,
                        span.end as int,
                        "std.flattenArrays() expected array of arrays"@,
                        source_id@,
                    )
                },
            }
    &&& !(arr_val is Array) ==> {
                &&& post == pre
                &&& r matches Err(e) && error_is(
                    e,
                    span.start as int,
                    span.end as int,
                    "std.flattenArrays() expected array, but got something else"@,
                    source_id@,
                )
            }
}

/// `std.flattenArrays(arr)`: the elements of the arrays of `arr`, one after
/// another.
pub fn std_flatten_arrays(
    arr_val: Value,
    memory_manager: &mut MemoryManager,
    span: Range<usize>,
    source_id: String,
) -> (r: Result<Value, RuntimeError>)
    requires
        flatten_arrays_pre(*old(memory_manager), arr_val),
    ensures
        flatten_arrays_post(*old(memory_manager), *final(memory_manager), arr_val, span, source_id, r),
{
    let arr_idx = match arr_val {
        Value::Array(a) => a,
        _ => {
            proof {
                reveal_strlit("std.flattenArrays() expected array, but got something else");
            }
            return Err(
                ScanError::new(
                    span,
                    String::from_str("std.flattenArrays() expected array, but got something else"),
                    source_id,
                ),
            );
        },
    };
    let outer = &memory_manager.load_array(arr_idx).elements;
    let mut result: Vec<Value> = Vec::new();
    let mut i: usize = 0;
    while i < outer.len()
        invariant
            i <= outer@.len(),
            *memory_manager == *old(memory_manager),
            arr_val == Value::Array(arr_idx),
            outer@ == elements_of(old(memory_manager), arr_val),
            forall|j: int| 0 <= j < outer@.len() ==> ref_valid(memory_manager, #[trigger] outer@[j]),
            all_arrays(memory_manager, outer@.take(i as int)) is Some,
            result@ == all_arrays(memory_manager, outer@.take(i as int))->Some_0.flatten(),
        decreases outer@.len() - i,
    {
        assert(outer@.take(i + 1).drop_last() =~= outer@.take(i as int));
        assert(outer@.take(i + 1).last() == outer@[i as int]);
        match outer[i] {
            Value::Array(k) => {
                assert(ref_valid(memory_manager, outer@[i as int]));
                let sub = &memory_manager.load_array(k).elements;
                let ghost before = result@;
                let ghost p = all_arrays(memory_manager, outer@.take(i as int))->Some_0;
                let mut j: usize = 0;
                while j < sub.len()
                    invariant
                        j <= sub@.len(),
                        result@ == before + sub@.take(j as int),
                    decreases sub@.len() - j,
                {
                    result.push(sub[j]);
                    assert(result@ =~= before + sub@.take(j + 1));
                    j += 1;
                }
                assert(sub@.take(sub@.len() as int) =~= sub@);
                proof {
                    p.lemma_flatten_push(sub@);
                }
            },
            _ => {
                proof {
                    lemma_all_arrays_none_stays(memory_manager, outer@, (i + 1) as int);
                }
                proof {
                    reveal_strlit("std.flattenArrays() expected array of arrays");
                }
                return Err(
                    ScanError::new(
                        span,
                        String::from_str("std.flattenArrays() expected array of arrays"),
                        source_id,
                    ),
                );
            },
        }
        i += 1;
    }
    assert(outer@.take(outer@.len() as int) =~= outer@);
    Ok(store_array(memory_manager, result))
}

/// The elements of each array element, in order; none when an element is
/// not an array.
pub open spec fn all_arrays(mm: &MemoryManager, elems: Seq<Value>) -> Option<Seq<Seq<Value>>>
    decreases elems.len(),
{
    if elems.len() == 0 {
        Some(Seq::empty())
    } else {
        match all_arrays(mm, elems.drop_last()) {
            None => None,
            Some(p) => match elems.last() {
                Value::Array(_) => Some(p.push(elements_of(mm, elems.last()))),
                _ => None,
            },
        }
    }
}

proof fn lemma_all_arrays_none_stays(mm: &MemoryManager, elems: Seq<Value>, n: int)
    requires
        0 <= n <= elems.len(),
        all_arrays(mm, elems.take(n)) is None,
    ensures
        all_arrays(mm, elems) is None,
    decreases elems.len() - n,
{
    if n == elems.len() {
        assert(elems.take(n) =~= elems);
    } else {
        assert(elems.take(n + 1).drop_last() =~= elems.take(n));
        lemma_all_arrays_none_stays(mm, elems, n + 1);
    }
}

/// What `std.all` finds reading the elements from the left: it stops at
/// the first `false`, and fails at the first element that is not a boolean.
pub open spec fn all_outcome(elems: Seq<Value>) -> Option<bool>
    decreases elems.len(),
{
    if elems.len() == 0 {
        Some(true)
    } else {
        match elems[0] {
            Value::Boolean(b) => if b == false {
                Some(false)
            } else {
                all_outcome(elems.drop_first())
            },
            _ => None,
        }
    }
}

/// What `std_all` requires.
pub open spec fn all_pre(pre: MemoryManager, arr_val: Value) -> bool {
    &&& array_valid(&pre, arr_val)
}

/// What `std_all` gives.
pub open spec fn all_post(
    pre: MemoryManager,
    post: MemoryManager,
    arr_val: Value,
    span: Range<usize>,
    source_id: String,
    r: Result<Value, RuntimeError>,
) -> bool {
    &&& post == pre
    &&& arr_val is Array ==> match all_outcome(elements_of(&pre, arr_val)) {
                Some(b) => r == Ok::<Value, RuntimeError>(Value::Boolean(b)),
                None => r matches Err(e) && error_is(
                    e,
                    span.start as int,
                    span.end as int,
                    "std.all() expected array of booleans"@,
                    source_id@,
                ),
            }
    &&& !(arr_val is Array) ==> (r matches Err(e) && error_is(
                e,
                span.start as int,
                span.end as int,
                "std.all() expected array, but got something else"@,
                source_id@,
            ))
}

/// `std.all(arr)`: whether every element of the array of booleans
/// `arr` is true.
pub fn std_all(
    arr_val: Value,
    memory_manager: &mut MemoryManager,
    span: Range<usize>,
    source_id: String,
) -> (r: Result<Value, RuntimeError>)
    requires
        all_pre(*old(memory_manager), arr_val),
    ensures
        all_post(*old(memory_manager), *final(memory_manager), arr_val, span, source_id, r),
{
    let arr_idx = match arr_val {
        Value::Array(a) => a,
        _ => {
            proof {
                reveal_strlit("std.all() expected array, but got something else");
            }
            return Err(
                ScanError::new(
                    span,
                    String::from_str("std.all() expected array, but got something else"),
                    source_id,
                ),
            );
        },
    };
    let elements = &memory_manager.load_array(arr_idx).elements;
    let mut i: usize = 0;
    assert(elements@.skip(0) =~= elements@);
    while i < elements.len()
        invariant
            i <= elements@.len(),
            *memory_manager == *old(memory_manager),
            arr_val == Value::Array(arr_idx),
            elements@ == elements_of(old(memory_manager), arr_val),
            all_outcome(elements@) == all_outcome(elements@.skip(i as int)),
        decreases elements@.len() - i,
    {
        assert(elements@.skip(i as int)[0] == elements@[i as int]);
        assert(elements@.skip(i as int).drop_first() =~= elements@.skip(i + 1));
        match elements[i] {
            Value::Boolean(b) => {
                if b == false {
                    return Ok(Value::Boolean(false));
                }
            },
            _ => {
                proof {
                    reveal_strlit("std.all() expected array of booleans");
                }
                return Err(
                    ScanError::new(
                        span,
                        String::from_str("std.all() expected array of booleans"),
                        source_id,
                    ),
                );
            },
        }
        i += 1;
    }
    Ok(Value::Boolean(true))
}

/// What `std.any` finds reading the elements from the left: it stops at
/// the first `true`, and fails at the first element that is not a boolean.
pub open spec fn any_outcome(elems: Seq<Value>) -> Option<bool>
    decreases elems.len(),
{
    if elems.len() == 0 {
        Some(false)
    } else {
        match elems[0] {
            Value::Boolean(b) => if b == true {
                Some(true)
            } else {
                any_outcome(elems.drop_first())
            },
            _ => None,
        }
    }
}

/// What `std_any` requires.
pub open spec fn any_pre(pre: MemoryManager, arr_val: Value) -> bool {
    &&& array_valid(&pre, arr_val)
}

/// What `std_any` gives.
pub open spec fn any_post(
    pre: MemoryManager,
    post: MemoryManager,
    arr_val: Value,
    span: Range<usize>,
    source_id: String,
    r: Result<Value, RuntimeError>,
) -> bool {
    &&& post == pre
    &&& arr_val is Array ==> match any_outcome(elements_of(&pre, arr_val)) {
                Some(b) => r == Ok::<Value, RuntimeError>(Value::Boolean(b)),
                None => r matches Err(e) && error_is(
                    e,
                    span.start as int,
                    span.end as int,
                    "std.any() expected array of booleans"@,
                    source_id@,
                ),
            }
    &&& !(arr_val is Array) ==> (r matches Err(e) && error_is(
                e,
                span.start as int,
                span.end as int,
                "std.any() expected array, but got something else"@,
                source_id@,
            ))
}

/// `std.any(arr)`: whether any element of the array of booleans
/// `arr` is true.
pub fn std_any(
    arr_val: Value,
    memory_manager: &mut MemoryManager,
    span: Range<usize>,
    source_id: String,
) -> (r: Result<Value, RuntimeError>)
    requires
        any_pre(*old(memory_manager), arr_val),
    ensures
        any_post(*old(memory_manager), *final(memory_manager), arr_val, span, source_id, r),
{
    let arr_idx = match arr_val {
        Value::Array(a) => a,
        _ => {
            proof {
                reveal_strlit("std.any() expected array, but got something else");
            }
            return Err(
                ScanError::new(
                    span,
                    String::from_str("std.any() expected array, but got something else"),
                    source_id,
                ),
            );
        },
    };
    let elements = &memory_manager.load_array(arr_idx).elements;
    let mut i: usize = 0;
    assert(elements@.skip(0) =~= elements@);
    while i < elements.len()
        invariant
            i <= elements@.len(),
            *memory_manager == *old(memory_manager),
            arr_val == Value::Array(arr_idx),
            elements@ == elements_of(old(memory_manager), arr_val),
            any_outcome(elements@) == any_outcome(elements@.skip(i as int)),
        decreases elements@.len() - i,
    {
        assert(elements@.skip(i as int)[0] == elements@[i as int]);
        assert(elements@.skip(i as int).drop_first() =~= elements@.skip(i + 1));
        match elements[i] {
            Value::Boolean(b) => {
                if b == true {
                    return Ok(Value::Boolean(true));
                }
            },
            _ => {
                proof {
                    reveal_strlit("std.any() expected array of booleans");
                }
                return Err(
                    ScanError::new(
                        span,
                        String::from_str("std.any() expected array of booleans"),
                        source_id,
                    ),
                );
            },
        }
        i += 1;
    }
    Ok(Value::Boolean(false))
}

/// The ASCII upper-case form of a character: `a`..`z` become `A`..`Z`.
pub open spec fn ascii_uppered(c: char) -> char {
    if 'a' <= c <= 'z' {
        ((c as u32) - 32) as char
    } else {
        c
    }
}

/// The ASCII upper-case form of a text.
pub open spec fn ascii_uppercase(s: Seq<char>) -> Seq<char> {
    s.map_values(|c: char| ascii_uppered(c))
}

/// The text with its ASCII letters in upper case (`upper`) or lower case.
fn ascii_case(s: &str, upper: bool) -> (r: String)
    ensures
        upper ==> r@ == ascii_uppercase(s@),
        !upper ==> r@ == ascii_lowercase(s@),
{
    let cs = chars_of(s);
    let mut out: Vec<char> = Vec::new();
    let mut i: usize = 0;
    while i < cs.len()
        invariant
            i <= cs@.len(),
            cs@ == s@,
            upper ==> out@ == ascii_uppercase(cs@.take(i as int)),
            !upper ==> out@ == ascii_lowercase(cs@.take(i as int)),
        decreases cs@.len() - i,
    {
        let c = cs[i];
        let mapped = if upper && 'a' <= c && c <= 'z' {
            match char_from_u32(c as u32 - 32) {
                Some(m) => m,
                None => c,
            }
        } else if !upper && 'A' <= c && c <= 'Z' {
            match char_from_u32(c as u32 + 32) {
                Some(m) => m,
                None => c,
            }
        } else {
            c
        };
        proof {
            if upper {
                assert(mapped == ascii_uppered(c));
            } else {
                assert(mapped == ascii_lowered(c));
            }
        }
        out.push(mapped);
        assert(cs@.take(i + 1) =~= cs@.take(i as int).push(c));
        assert(upper ==> out@ =~= ascii_uppercase(cs@.take(i + 1)));
        assert(!upper ==> out@ =~= ascii_lowercase(cs@.take(i + 1)));
        i += 1;
    }
    assert(cs@.take(cs@.len() as int) =~= cs@);
    string_of(&out)
}

/// What `std_ascii_upper` requires.
pub open spec fn ascii_upper_pre(pre: MemoryManager, val: Value) -> bool {
    &&& pre.wf()
    &&& string_valid(&pre, val)
    &&& val is String ==> has_room(
                &pre,
                1,
                32 + utf8_len(ascii_uppercase(text_of(&pre, val))),
            )
}

/// What `std_ascii_upper` gives.
pub open spec fn ascii_upper_post(
    pre: MemoryManager,
    post: MemoryManager,
    val: Value,
    span: Range<usize>,
    source_id: String,
    r: Result<Value, RuntimeError>,
) -> bool {
    &&& val is String ==> {
                &&& grown(&pre, &post)
                &&& r matches Ok(v) && v is String && string_at(
                    post.heap_view(),
                    v->String_0,
                    ascii_uppercase(text_of(&pre, val)),
                )
            }
    &&& !(val is String) ==> {
                &&& post == pre
                &&& r matches Err(e) && error_is(
                    e,
                    span.start as int,
                    span.end as int,
                    "std.asciiUpper() expected string, but got something else"@,
                    source_id@,
                )
            }
}

/// `std.asciiUpper(s)`: the string `s` with `a`..`z` in upper case.
pub fn std_ascii_upper(
    val: Value,
    memory_manager: &mut MemoryManager,
    span: Range<usize>,
    source_id: String,
) -> (r: Result<Value, RuntimeError>)
    requires
        ascii_upper_pre(*old(memory_manager), val),
    ensures
        ascii_upper_post(*old(memory_manager), *final(memory_manager), val, span, source_id, r),
{
    match val {
        Value::String(s_idx) => {
            let t = ascii_case(memory_manager.load_string(s_idx), true);
            Ok(store_text(memory_manager, &t))
        },
        _ => {
            proof {
                reveal_strlit("std.asciiUpper() expected string, but got something else");
            }
            Err(
                ScanError::new(
                    span,
                    String::from_str("std.asciiUpper() expected string, but got something else"),
                    source_id,
                ),
            )
        },
    }
}

/// What `std_ascii_lower` requires.
pub open spec fn ascii_lower_pre(pre: MemoryManager, val: Value) -> bool {
    &&& pre.wf()
    &&& string_valid(&pre, val)
    &&& val is String ==> has_room(
                &pre,
                1,
                32 + utf8_len(ascii_lowercase(text_of(&pre, val))),
            )
}

/// What `std_ascii_lower` gives.
pub open spec fn ascii_lower_post(
    pre: MemoryManager,
    post: MemoryManager,
    val: Value,
    span: Range<usize>,
    source_id: String,
    r: Result<Value, RuntimeError>,
) -> bool {
    &&& val is String ==> {
                &&& grown(&pre, &post)
                &&& r matches Ok(v) && v is String && string_at(
                    post.heap_view(),
                    v->String_0,
                    ascii_lowercase(text_of(&pre, val)),
                )
            }
    &&& !(val is String) ==> {
                &&& post == pre
                &&& r matches Err(e) && error_is(
                    e,
                    span.start as int,
                    span.end as int,
                    "std.asciiLower() expected string, but got something else"@,
                    source_id@,
                )
            }
}

/// `std.asciiLower(s)`: the string `s` with `A`..`Z` in lower case.
pub fn std_ascii_lower(
    val: Value,
    memory_manager: &mut MemoryManager,
    span: Range<usize>,
    source_id: String,
) -> (r: Result<Value, RuntimeError>)
    requires
        ascii_lower_pre(*old(memory_manager), val),
    ensures
        ascii_lower_post(*old(memory_manager), *final(memory_manager), val, span, source_id, r),
{
    match val {
        Value::String(s_idx) => {
            let t = ascii_case(memory_manager.load_string(s_idx), false);
            Ok(store_text(memory_manager, &t))
        },
        _ => {
            proof {
                reveal_strlit("std.asciiLower() expected string, but got something else");
            }
            Err(
                ScanError::new(
                    span,
                    String::from_str("std.asciiLower() expected string, but got something else"),
                    source_id,
                ),
            )
        },
    }
}

// ---------------------------------------------------------------- dispatch

/// The standard-library functions that compute without floating point.
#[derive(Clone, Copy, Debug, PartialEq, Eq, Structural)]
pub enum NativeFuncId {
    Type,
    IsArray,
    IsBoolean,
    IsNumber,
    IsObject,
    IsString,
    IsNull,
    IsFunction,
    Split,
    Join,
    Lines,
    StringChars,
    StrReplace,
    StripChars,
    LstripChars,
    RstripChars,
    StartsWith,
    EndsWith,
    IsEmpty,
    AsciiUpper,
    AsciiLower,
    Reverse,
    FlattenArrays,
    All,
    Any,
    Md5,
    Sha1,
    Sha256,
    Sha512,
    Sha3,
}

/// The lowercase hexadecimal digest that `std.md5`, `std.sha1`,
/// `std.sha256`, `std.sha512` or `std.sha3` gives for the UTF-8 bytes of a
/// text.
pub open spec fn digest_text(id: NativeFuncId, text: Seq<char>) -> Seq<char> {
    let bytes = encode_utf8(text);
    match id {
        NativeFuncId::Md5 => hex_bytes(md5_of(bytes)),
        NativeFuncId::Sha1 => hex_bytes(sha1_of(bytes)),
        NativeFuncId::Sha256 => hex_bytes(sha256_of(bytes)),
        NativeFuncId::Sha512 => hex_bytes(sha512_of(bytes)),
        _ => hex_bytes(sha3_256_of(bytes)),
    }
}

/// What `std_digest` requires.
pub open spec fn digest_pre(id: NativeFuncId, pre: MemoryManager, val: Value) -> bool {
    &&& pre.wf()
    &&& string_valid(&pre, val)
    &&& val is String ==> has_room(&pre, 1, 32 + utf8_len(digest_text(id, text_of(&pre, val))))
}

/// What `std_digest` gives.
pub open spec fn digest_post(
    id: NativeFuncId,
    pre: MemoryManager,
    post: MemoryManager,
    val: Value,
    span: Range<usize>,
    source_id: String,
    r: Result<Value, RuntimeError>,
) -> bool {
    &&& val is String ==> {
        &&& grown(&pre, &post)
        &&& r matches Ok(v) && v is String && string_at(
            post.heap_view(),
            v->String_0,
            digest_text(id, text_of(&pre, val)),
        )
    }
    &&& !(val is String) ==> {
        &&& post == pre
        &&& r matches Err(e) && error_is(
            e,
            span.start as int,
            span.end as int,
            "std."@ + native_name(id) + " expected string, got "@ + kind_name(val),
            source_id@,
        )
    }
}

/// `std.md5(s)`, `std.sha1(s)`, `std.sha256(s)`, `std.sha512(s)`,
/// `std.sha3(s)`: the digest of the UTF-8 bytes of `s`, in lowercase
/// hexadecimal.
pub fn std_digest(
    id: NativeFuncId,
    val: Value,
    memory_manager: &mut MemoryManager,
    span: Range<usize>,
    source_id: String,
) -> (r: Result<Value, RuntimeError>)
    requires
        id is Md5 || id is Sha1 || id is Sha256 || id is Sha512 || id is Sha3,
        digest_pre(id, *old(memory_manager), val),
    ensures
        digest_post(id, *old(memory_manager), *final(memory_manager), val, span, source_id, r),
{
    match val {
        Value::String(s_idx) => {
            let text = memory_manager.load_string(s_idx);
            let hex = match id {
                NativeFuncId::Md5 => md5_hex(text),
                NativeFuncId::Sha1 => sha1_hex(text),
                NativeFuncId::Sha256 => sha256_hex(text),
                NativeFuncId::Sha512 => sha512_hex(text),
                _ => sha3_hex(text),
            };
            Ok(store_text(memory_manager, &hex))
        },
        _ => {
            let mut m = String::new();
            proof {
                reveal_strlit("std.");
                reveal_strlit(" expected string, got ");
            }
            push_str(&mut m, "std.");
            push_str(&mut m, id.name());
            push_str(&mut m, " expected string, got ");
            push_str(&mut m, kind_name_of(val));
            Err(ScanError::new(span, m, source_id))
        },
    }
}

/// The name of a native function, after `std.`.
pub open spec fn native_name(id: NativeFuncId) -> Seq<char> {
    match id {
        NativeFuncId::Type => "type"@,
        NativeFuncId::IsArray => "isArray"@,
        NativeFuncId::IsBoolean => "isBoolean"@,
        NativeFuncId::IsNumber => "isNumber"@,
        NativeFuncId::IsObject => "isObject"@,
        NativeFuncId::IsString => "isString"@,
        NativeFuncId::IsNull => "isNull"@,
        NativeFuncId::IsFunction => "isFunction"@,
        NativeFuncId::Split => "split"@,
        NativeFuncId::Join => "join"@,
        NativeFuncId::Lines => "lines"@,
        NativeFuncId::StringChars => "stringChars"@,
        NativeFuncId::StrReplace => "strReplace"@,
        NativeFuncId::StripChars => "stripChars"@,
        NativeFuncId::LstripChars => "lstripChars"@,
        NativeFuncId::RstripChars => "rstripChars"@,
        NativeFuncId::StartsWith => "startsWith"@,
        NativeFuncId::EndsWith => "endsWith"@,
        NativeFuncId::IsEmpty => "isEmpty"@,
        NativeFuncId::AsciiUpper => "asciiUpper"@,
        NativeFuncId::AsciiLower => "asciiLower"@,
        NativeFuncId::Reverse => "reverse"@,
        NativeFuncId::FlattenArrays => "flattenArrays"@,
        NativeFuncId::All => "all"@,
        NativeFuncId::Any => "any"@,
        NativeFuncId::Md5 => "md5"@,
        NativeFuncId::Sha1 => "sha1"@,
        NativeFuncId::Sha256 => "sha256"@,
        NativeFuncId::Sha512 => "sha512"@,
        NativeFuncId::Sha3 => "sha3"@,
    }
}

/// The number of arguments a native function takes.
pub open spec fn native_arity(id: NativeFuncId) -> nat {
    match id {
        NativeFuncId::Type => 1,
        NativeFuncId::IsArray => 1,
        NativeFuncId::IsBoolean => 1,
        NativeFuncId::IsNumber => 1,
        NativeFuncId::IsObject => 1,
        NativeFuncId::IsString => 1,
        NativeFuncId::IsNull => 1,
        NativeFuncId::IsFunction => 1,
        NativeFuncId::Split => 2,
        NativeFuncId::Join => 2,
        NativeFuncId::Lines => 1,
        NativeFuncId::StringChars => 1,
        NativeFuncId::StrReplace => 3,
        NativeFuncId::StripChars => 2,
        NativeFuncId::LstripChars => 2,
        NativeFuncId::RstripChars => 2,
        NativeFuncId::StartsWith => 2,
        NativeFuncId::EndsWith => 2,
        NativeFuncId::IsEmpty => 1,
        NativeFuncId::AsciiUpper => 1,
        NativeFuncId::AsciiLower => 1,
        NativeFuncId::Reverse => 1,
        NativeFuncId::FlattenArrays => 1,
        NativeFuncId::All => 1,
        NativeFuncId::Any => 1,
        NativeFuncId::Md5 | NativeFuncId::Sha1 | NativeFuncId::Sha256 | NativeFuncId::Sha512
        | NativeFuncId::Sha3 => 1,
    }
}

impl NativeFuncId {
    /// The name after `std.`.
    pub fn name(&self) -> (r: &'static str)
        ensures
            r@ == native_name(*self),
    {
        proof {
            reveal_strlit("type");
            reveal_strlit("isArray");
            reveal_strlit("isBoolean");
            reveal_strlit("isNumber");
            reveal_strlit("isObject");
            reveal_strlit("isString");
            reveal_strlit("isNull");
            reveal_strlit("isFunction");
            reveal_strlit("split");
            reveal_strlit("join");
            reveal_strlit("lines");
            reveal_strlit("stringChars");
            reveal_strlit("strReplace");
            reveal_strlit("stripChars");
            reveal_strlit("lstripChars");
            reveal_strlit("rstripChars");
            reveal_strlit("startsWith");
            reveal_strlit("endsWith");
            reveal_strlit("isEmpty");
            reveal_strlit("asciiUpper");
            reveal_strlit("asciiLower");
            reveal_strlit("reverse");
            reveal_strlit("flattenArrays");
            reveal_strlit("all");
            reveal_strlit("any");
        }
        match self {
            NativeFuncId::Type => "type",
            NativeFuncId::IsArray => "isArray",
            NativeFuncId::IsBoolean => "isBoolean",
            NativeFuncId::IsNumber => "isNumber",
            NativeFuncId::IsObject => "isObject",
            NativeFuncId::IsString => "isString",
            NativeFuncId::IsNull => "isNull",
            NativeFuncId::IsFunction => "isFunction",
            NativeFuncId::Split => "split",
            NativeFuncId::Join => "join",
            NativeFuncId::Lines => "lines",
            NativeFuncId::StringChars => "stringChars",
            NativeFuncId::StrReplace => "strReplace",
            NativeFuncId::StripChars => "stripChars",
            NativeFuncId::LstripChars => "lstripChars",
            NativeFuncId::RstripChars => "rstripChars",
            NativeFuncId::StartsWith => "startsWith",
            NativeFuncId::EndsWith => "endsWith",
            NativeFuncId::IsEmpty => "isEmpty",
            NativeFuncId::AsciiUpper => "asciiUpper",
            NativeFuncId::AsciiLower => "asciiLower",
            NativeFuncId::Reverse => "reverse",
            NativeFuncId::FlattenArrays => "flattenArrays",
            NativeFuncId::All => "all",
            NativeFuncId::Any => "any",
            NativeFuncId::Md5 => "md5",
            NativeFuncId::Sha1 => "sha1",
            NativeFuncId::Sha256 => "sha256",
            NativeFuncId::Sha512 => "sha512",
            NativeFuncId::Sha3 => "sha3",
        }
    }

    /// The number of arguments.
    pub fn arity(&self) -> (r: u8)
        ensures
            r == native_arity(*self),
    {
        match self {
            NativeFuncId::Type => 1,
            NativeFuncId::IsArray => 1,
            NativeFuncId::IsBoolean => 1,
            NativeFuncId::IsNumber => 1,
            NativeFuncId::IsObject => 1,
            NativeFuncId::IsString => 1,
            NativeFuncId::IsNull => 1,
            NativeFuncId::IsFunction => 1,
            NativeFuncId::Split => 2,
            NativeFuncId::Join => 2,
            NativeFuncId::Lines => 1,
            NativeFuncId::StringChars => 1,
            NativeFuncId::StrReplace => 3,
            NativeFuncId::StripChars => 2,
            NativeFuncId::LstripChars => 2,
            NativeFuncId::RstripChars => 2,
            NativeFuncId::StartsWith => 2,
            NativeFuncId::EndsWith => 2,
            NativeFuncId::IsEmpty => 1,
            NativeFuncId::AsciiUpper => 1,
            NativeFuncId::AsciiLower => 1,
            NativeFuncId::Reverse => 1,
            NativeFuncId::FlattenArrays => 1,
            NativeFuncId::All => 1,
            NativeFuncId::Any => 1,
            NativeFuncId::Md5 | NativeFuncId::Sha1 | NativeFuncId::Sha256 | NativeFuncId::Sha512
            | NativeFuncId::Sha3 => 1,
        }
    }
}

/// The error for a call with the wrong number of arguments.
pub open spec fn arity_message(id: NativeFuncId, n: nat) -> Seq<char> {
    "Native function 'std."@ + native_name(id) + "' expected "@ + nat_decimal(native_arity(id))
        + " arguments, but got "@ + nat_decimal(n)
}

/// What a call of a native function with the right number of arguments
/// requires.
pub open spec fn native_pre(id: NativeFuncId, pre: MemoryManager, args: Seq<Value>) -> bool {
    match id {
        NativeFuncId::Type => pre.wf() && has_room(&pre, 1, 32 + utf8_len(kind_name(args[0]))),
        NativeFuncId::IsArray => true,
        NativeFuncId::IsBoolean => true,
        NativeFuncId::IsNumber => true,
        NativeFuncId::IsObject => true,
        NativeFuncId::IsString => true,
        NativeFuncId::IsNull => true,
        NativeFuncId::IsFunction => true,
        NativeFuncId::Split => split_pre(pre, args[0], args[1]),
        NativeFuncId::Join => join_pre(pre, args[0], args[1]),
        NativeFuncId::Lines => lines_pre(pre, args[0]),
        NativeFuncId::StringChars => string_chars_pre(pre, args[0]),
        NativeFuncId::StrReplace => str_replace_pre(pre, args[0], args[1], args[2]),
        NativeFuncId::StripChars => strip_chars_pre(pre, args[0], args[1]),
        NativeFuncId::LstripChars => lstrip_chars_pre(pre, args[0], args[1]),
        NativeFuncId::RstripChars => rstrip_chars_pre(pre, args[0], args[1]),
        NativeFuncId::StartsWith => starts_with_pre(pre, args[0], args[1]),
        NativeFuncId::EndsWith => ends_with_pre(pre, args[0], args[1]),
        NativeFuncId::IsEmpty => is_empty_pre(pre, args[0]),
        NativeFuncId::AsciiUpper => ascii_upper_pre(pre, args[0]),
        NativeFuncId::AsciiLower => ascii_lower_pre(pre, args[0]),
        NativeFuncId::Reverse => reverse_pre(pre, args[0]),
        NativeFuncId::FlattenArrays => flatten_arrays_pre(pre, args[0]),
        NativeFuncId::All => all_pre(pre, args[0]),
        NativeFuncId::Any => any_pre(pre, args[0]),
        NativeFuncId::Md5 | NativeFuncId::Sha1 | NativeFuncId::Sha256 | NativeFuncId::Sha512
        | NativeFuncId::Sha3 => digest_pre(id, pre, args[0]),
    }
}

/// What a call of a native function with the right number of arguments
/// gives.
pub open spec fn native_post(
    id: NativeFuncId,
    pre: MemoryManager,
    post: MemoryManager,
    args: Seq<Value>,
    span: Range<usize>,
    source_id: String,
    r: Result<Value, RuntimeError>,
) -> bool {
    match id {
        NativeFuncId::Type => grown(&pre, &post) && (r matches Ok(v) && v is String && string_at(
            post.heap_view(),
            v->String_0,
            kind_name(args[0]),
        )),
        NativeFuncId::IsArray => post == pre && r == Ok::<Value, RuntimeError>(Value::Boolean(args[0] is Array)),
        NativeFuncId::IsBoolean => post == pre && r == Ok::<Value, RuntimeError>(Value::Boolean(args[0] is Boolean)),
        NativeFuncId::IsNumber => post == pre && r == Ok::<Value, RuntimeError>(Value::Boolean(args[0] is Number)),
        NativeFuncId::IsObject => post == pre && r == Ok::<Value, RuntimeError>(Value::Boolean(args[0] is Object)),
        NativeFuncId::IsString => post == pre && r == Ok::<Value, RuntimeError>(Value::Boolean(args[0] is String)),
        NativeFuncId::IsNull => post == pre && r == Ok::<Value, RuntimeError>(Value::Boolean(args[0] is Null)),
        NativeFuncId::IsFunction => post == pre && r == Ok::<Value, RuntimeError>(Value::Boolean(args[0] is Function || args[0] is Closure)),
        NativeFuncId::Split => split_post(pre, post, args[0], args[1], span, source_id, r),
        NativeFuncId::Join => join_post(pre, post, args[0], args[1], span, source_id, r),
        NativeFuncId::Lines => lines_post(pre, post, args[0], span, source_id, r),
        NativeFuncId::StringChars => string_chars_post(pre, post, args[0], span, source_id, r),
        NativeFuncId::StrReplace => str_replace_post(pre, post, args[0], args[1], args[2], span, source_id, r),
        NativeFuncId::StripChars => strip_chars_post(pre, post, args[0], args[1], span, source_id, r),
        NativeFuncId::LstripChars => lstrip_chars_post(pre, post, args[0], args[1], span, source_id, r),
        NativeFuncId::RstripChars => rstrip_chars_post(pre, post, args[0], args[1], span, source_id, r),
        NativeFuncId::StartsWith => starts_with_post(pre, post, args[0], args[1], span, source_id, r),
        NativeFuncId::EndsWith => ends_with_post(pre, post, args[0], args[1], span, source_id, r),
        NativeFuncId::IsEmpty => is_empty_post(pre, post, args[0], span, source_id, r),
        NativeFuncId::AsciiUpper => ascii_upper_post(pre, post, args[0], span, source_id, r),
        NativeFuncId::AsciiLower => ascii_lower_post(pre, post, args[0], span, source_id, r),
        NativeFuncId::Reverse => reverse_post(pre, post, args[0], span, source_id, r),
        NativeFuncId::FlattenArrays => flatten_arrays_post(pre, post, args[0], span, source_id, r),
        NativeFuncId::All => all_post(pre, post, args[0], span, source_id, r),
        NativeFuncId::Any => any_post(pre, post, args[0], span, source_id, r),
        NativeFuncId::Md5 | NativeFuncId::Sha1 | NativeFuncId::Sha256 | NativeFuncId::Sha512
        | NativeFuncId::Sha3 => digest_post(id, pre, post, args[0], span, source_id, r),
    }
}

/// Calls a native function: checks the number of arguments, then runs it.
pub fn call_native(
    id: NativeFuncId,
    args: &Vec<Value>,
    memory_manager: &mut MemoryManager,
    span: Range<usize>,
    source_id: String,
) -> (r: Result<Value, RuntimeError>)
    requires
        args@.len() == native_arity(id) ==> native_pre(id, *old(memory_manager), args@),
    ensures
        args@.len() != native_arity(id) ==> {
            &&& *final(memory_manager) == *old(memory_manager)
            &&& r matches Err(e) && error_is(
                e,
                span.start as int,
                span.end as int,
                arity_message(id, args@.len()),
                source_id@,
            )
        },
        args@.len() == native_arity(id) ==> native_post(
            id,
            *old(memory_manager),
            *final(memory_manager),
            args@,
            span,
            source_id,
            r,
        ),
{
    if args.len() != id.arity() as usize {
        let mut m = String::new();
        proof {
            reveal_strlit("Native function 'std.");
            reveal_strlit("' expected ");
            reveal_strlit(" arguments, but got ");
        }
        push_str(&mut m, "Native function 'std.");
        push_str(&mut m, id.name());
        push_str(&mut m, "' expected ");
        append_chars(&mut m, &u64_decimal(id.arity() as u64));
        push_str(&mut m, " arguments, but got ");
        append_chars(&mut m, &u64_decimal(args.len() as u64));
        return Err(ScanError::new(span, m, source_id));
    }
    match id {
        NativeFuncId::Type => std_type(args[0], memory_manager, span),
        NativeFuncId::IsArray => std_is_array(args[0]),
        NativeFuncId::IsBoolean => std_is_boolean(args[0]),
        NativeFuncId::IsNumber => std_is_number(args[0]),
        NativeFuncId::IsObject => std_is_object(args[0]),
        NativeFuncId::IsString => std_is_string(args[0]),
        NativeFuncId::IsNull => std_is_null(args[0]),
        NativeFuncId::IsFunction => std_is_function(args[0]),
        NativeFuncId::Split => std_split(args[0], args[1], memory_manager, span, source_id),
        NativeFuncId::Join => std_join(args[0], args[1], memory_manager, span, source_id),
        NativeFuncId::Lines => std_lines(args[0], memory_manager, span, source_id),
        NativeFuncId::StringChars => std_string_chars(args[0], memory_manager, span, source_id),
        NativeFuncId::StrReplace => std_str_replace(args[0], args[1], args[2], memory_manager, span, source_id),
        NativeFuncId::StripChars => std_strip_chars(args[0], args[1], memory_manager, span, source_id),
        NativeFuncId::LstripChars => std_lstrip_chars(args[0], args[1], memory_manager, span, source_id),
        NativeFuncId::RstripChars => std_rstrip_chars(args[0], args[1], memory_manager, span, source_id),
        NativeFuncId::StartsWith => std_starts_with(args[0], args[1], memory_manager, span, source_id),
        NativeFuncId::EndsWith => std_ends_with(args[0], args[1], memory_manager, span, source_id),
        NativeFuncId::IsEmpty => std_is_empty(args[0], memory_manager, span, source_id),
        NativeFuncId::AsciiUpper => std_ascii_upper(args[0], memory_manager, span, source_id),
        NativeFuncId::AsciiLower => std_ascii_lower(args[0], memory_manager, span, source_id),
        NativeFuncId::Reverse => std_reverse(args[0], memory_manager, span, source_id),
        NativeFuncId::FlattenArrays => std_flatten_arrays(args[0], memory_manager, span, source_id),
        NativeFuncId::All => std_all(args[0], memory_manager, span, source_id),
        NativeFuncId::Any => std_any(args[0], memory_manager, span, source_id),
        NativeFuncId::Md5 | NativeFuncId::Sha1 | NativeFuncId::Sha256 | NativeFuncId::Sha512
        | NativeFuncId::Sha3 => std_digest(id, args[0], memory_manager, span, source_id),
    }
}

} // verus!
