//! The text of a JSON value as jsonnet manifests it: three spaces per level
//! of nesting, one element or field per line, and `[ ]` and `{ }` for empty
//! containers.

use vstd::prelude::*;
use crate::text::push_str;

verus! {

/// A JSON value. A number holds the text it is shown with.
pub enum JsonValue {
    Null,
    Bool(bool),
    Number(String),
    String(String),
    Array(Vec<JsonValue>),
    Object(Vec<(String, JsonValue)>),
}

/// The value of a JSON value.
pub enum JsonView {
    Null,
    Bool(bool),
    Number(Seq<char>),
    String(Seq<char>),
    Array(Seq<JsonView>),
    Object(Seq<(Seq<char>, JsonView)>),
}

pub open spec fn json_view(v: JsonValue) -> JsonView
    decreases v,
{
    match v {
        JsonValue::Null => JsonView::Null,
        JsonValue::Bool(b) => JsonView::Bool(b),
        JsonValue::Number(t) => JsonView::Number(t@),
        JsonValue::String(s) => JsonView::String(s@),
        JsonValue::Array(a) => {
            proof {
                broadcast use vstd::std_specs::vec::group_vec_axioms;
                assert(decreases_to!(a => a@));
            }
            JsonView::Array(views_of(a@))
        },
        JsonValue::Object(o) => {
            proof {
                broadcast use vstd::std_specs::vec::group_vec_axioms;
                assert(decreases_to!(o => o@));
            }
            JsonView::Object(fields_of(o@))
        },
    }
}

/// The values of a sequence of JSON values, in order.
pub open spec fn views_of(s: Seq<JsonValue>) -> Seq<JsonView>
    decreases s,
{
    if s.len() == 0 {
        Seq::empty()
    } else {
        views_of(s.drop_last()).push(json_view(s.last()))
    }
}

/// The keys and values of a sequence of object fields, in order.
pub open spec fn fields_of(s: Seq<(String, JsonValue)>) -> Seq<(Seq<char>, JsonView)>
    decreases s,
{
    if s.len() == 0 {
        Seq::empty()
    } else {
        fields_of(s.drop_last()).push((s.last().0@, json_view(s.last().1)))
    }
}

proof fn lemma_views_of(s: Seq<JsonValue>)
    ensures
        views_of(s).len() == s.len(),
        forall|i: int| 0 <= i < s.len() ==> #[trigger] views_of(s)[i] == json_view(s[i]),
    decreases s.len(),
{
    if s.len() > 0 {
        lemma_views_of(s.drop_last());
    }
}

proof fn lemma_fields_of(s: Seq<(String, JsonValue)>)
    ensures
        fields_of(s).len() == s.len(),
        forall|i: int|
            0 <= i < s.len() ==> #[trigger] fields_of(s)[i] == (s[i].0@, json_view(s[i].1)),
    decreases s.len(),
{
    if s.len() > 0 {
        lemma_fields_of(s.drop_last());
    }
}

/// The lower-case hexadecimal digit of a value below 16.
pub open spec fn hex_digit(d: nat) -> char {
    if d < 10 {
        ((d + 48) as u32) as char
    } else {
        ((d + 87) as u32) as char
    }
}

/// How serde_json writes one character inside a JSON string: `"` and `\`
/// behind a backslash, `\b \f \n \r \t` for those controls, `\u00XX` with
/// lower-case hex for the other controls, anything else as it is.
pub open spec fn json_escape_char(c: char) -> Seq<char> {
    let v = c as u32;
    if c == '"' {
        seq!['\\', '"']
    } else if c == '\\' {
        seq!['\\', '\\']
    } else if v == 8 {
        seq!['\\', 'b']
    } else if v == 9 {
        seq!['\\', 't']
    } else if v == 10 {
        seq!['\\', 'n']
    } else if v == 12 {
        seq!['\\', 'f']
    } else if v == 13 {
        seq!['\\', 'r']
    } else if v < 0x20 {
        seq!['\\', 'u', '0', '0', hex_digit((v / 16) as nat), hex_digit((v % 16) as nat)]
    } else {
        seq![c]
    }
}

/// The escaped characters of a text, in order.
pub open spec fn json_escaped(s: Seq<char>) -> Seq<char>
    decreases s.len(),
{
    if s.len() == 0 {
        Seq::empty()
    } else {
        json_escaped(s.drop_last()) + json_escape_char(s.last())
    }
}

/// A text as serde_json writes a JSON string: quoted and escaped.
pub open spec fn json_quoted(s: Seq<char>) -> Seq<char> {
    seq!['"'] + json_escaped(s) + seq!['"']
}

/// Calls `serde_json::to_string` on a string, which writes it as a quoted
/// and escaped JSON string (see `json_escape_char`) and cannot fail for one.
#[verifier::external_body]
fn json_quote(s: &str) -> (r: String)
    ensures
        r@ == json_quoted(s@),
{
    serde_json::to_string(s).unwrap_or_default()
}

/// The indentation of nesting level `depth`: three spaces per level.
pub open spec fn indent_of(depth: nat) -> Seq<char>
    decreases depth,
{
    if depth == 0 {
        Seq::empty()
    } else {
        indent_of((depth - 1) as nat) + "   "@
    }
}

/// The manifested text of a value at nesting level `depth`.
pub open spec fn manifested(v: JsonView, depth: nat) -> Seq<char>
    decreases v, 0nat,
{
    match v {
        JsonView::Null => "null"@,
        JsonView::Bool(b) => if b {
            "true"@
        } else {
            "false"@
        },
        JsonView::Number(t) => t,
        JsonView::String(s) => json_quoted(s),
        JsonView::Array(items) => if items.len() == 0 {
            "[ ]"@
        } else {
            "[\n"@ + element_lines(items, depth, items.len()) + "\n"@ + indent_of(depth) + "]"@
        },
        JsonView::Object(fields) => if fields.len() == 0 {
            "{ }"@
        } else {
            "{\n"@ + field_lines(fields, depth, fields.len()) + "\n"@ + indent_of(depth) + "}"@
        },
    }
}

/// The first `n` elements of an array at level `depth`, one per line,
/// indented one level deeper and separated by commas.
pub open spec fn element_lines(items: Seq<JsonView>, depth: nat, n: nat) -> Seq<char>
    decreases items, n,
{
    if n == 0 || n > items.len() {
        Seq::empty()
    } else {
        let line = indent_of(depth + 1) + manifested(items[n - 1], depth + 1);
        if n == 1 {
            line
        } else {
            element_lines(items, depth, (n - 1) as nat) + ",\n"@ + line
        }
    }
}

/// The first `n` fields of an object at level `depth`, one per line as
/// quoted key, colon and value, indented one level deeper and separated by
/// commas.
pub open spec fn field_lines(fields: Seq<(Seq<char>, JsonView)>, depth: nat, n: nat) -> Seq<char>
    decreases fields, n,
{
    if n == 0 || n > fields.len() {
        Seq::empty()
    } else {
        let line = indent_of(depth + 1) + json_quoted(fields[n - 1].0) + ": "@ + manifested(
            fields[n - 1].1,
            depth + 1,
        );
        if n == 1 {
            line
        } else {
            field_lines(fields, depth, (n - 1) as nat) + ",\n"@ + line
        }
    }
}

fn manifest_at(value: &JsonValue, indent: &String, Ghost(depth): Ghost<nat>) -> (r: String)
    requires
        indent@ == indent_of(depth),
    ensures
        r@ == manifested(json_view(*value), depth),
    decreases value,
{
    let mut out = String::new();
    match value {
        JsonValue::Null => push_str(&mut out, "null"),
        JsonValue::Bool(b) => {
            if *b {
                push_str(&mut out, "true");
            } else {
                push_str(&mut out, "false");
            }
        },
        JsonValue::Number(t) => push_str(&mut out, t.as_str()),
        JsonValue::String(s) => {
            let q = json_quote(s.as_str());
            push_str(&mut out, q.as_str());
        },
        JsonValue::Array(items) => {
            if items.len() == 0 {
                push_str(&mut out, "[ ]");
            } else {
                let mut inner = String::new();
                push_str(&mut inner, indent.as_str());
                push_str(&mut inner, "   ");
                let ghost iv = views_of(items@);
                proof { lemma_views_of(items@); }
                push_str(&mut out, "[\n");
                let ghost start = out@;
                let mut k: usize = 0;
                while k < items.len()
                    invariant
                        k <= items@.len(),
                        items@.len() > 0,
                        inner@ == indent_of(depth + 1),
                        *value is Array,
                        (*value)->Array_0 == *items,
                        iv == views_of(items@),
                        iv.len() == items@.len(),
                        forall|i: int| 0 <= i < items@.len() ==> #[trigger] iv[i] == json_view(items@[i]),
                        out@ == start + element_lines(iv, depth, k as nat),
                    decreases items.len() - k,
                {
                    if k > 0 {
                        push_str(&mut out, ",\n");
                    }
                    push_str(&mut out, inner.as_str());
                    proof {
                        broadcast use vstd::std_specs::vec::group_vec_axioms;
                        assert(decreases_to!(*value => (*value)->Array_0));
                        assert(decreases_to!(*items => items[k as int]));
                        assert(decreases_to!(*value => items[k as int]));
                    }
                    let line = manifest_at(&items[k], &inner, Ghost(depth + 1));
                    push_str(&mut out, line.as_str());
                    proof {
                        assert(iv[k as int] == json_view(items@[k as int]));
                        assert(out@ =~= start + element_lines(iv, depth, (k + 1) as nat));
                    }
                    k += 1;
                }
                push_str(&mut out, "\n");
                push_str(&mut out, indent.as_str());
                push_str(&mut out, "]");
                proof {
                    assert(json_view(*value) == JsonView::Array(iv));
                    assert(out@ =~= manifested(json_view(*value), depth));
                }
            }
        },
        JsonValue::Object(fields) => {
            if fields.len() == 0 {
                push_str(&mut out, "{ }");
            } else {
                let mut inner = String::new();
                push_str(&mut inner, indent.as_str());
                push_str(&mut inner, "   ");
                let ghost fv = fields_of(fields@);
                proof { lemma_fields_of(fields@); }
                push_str(&mut out, "{\n");
                let ghost start = out@;
                let mut k: usize = 0;
                while k < fields.len()
                    invariant
                        k <= fields@.len(),
                        fields@.len() > 0,
                        inner@ == indent_of(depth + 1),
                        *value is Object,
                        (*value)->Object_0 == *fields,
                        fv == fields_of(fields@),
                        fv.len() == fields@.len(),
                        forall|i: int|
                            0 <= i < fields@.len() ==> #[trigger] fv[i] == (
                                fields@[i].0@,
                                json_view(fields@[i].1),
                            ),
                        out@ == start + field_lines(fv, depth, k as nat),
                    decreases fields.len() - k,
                {
                    if k > 0 {
                        push_str(&mut out, ",\n");
                    }
                    push_str(&mut out, inner.as_str());
                    let key = json_quote(fields[k].0.as_str());
                    push_str(&mut out, key.as_str());
                    push_str(&mut out, ": ");
                    proof {
                        broadcast use vstd::std_specs::vec::group_vec_axioms;
                        assert(decreases_to!(*value => (*value)->Object_0));
                        assert(decreases_to!(*fields => fields[k as int]));
                        assert(decreases_to!(fields[k as int] => fields[k as int].1));
                        assert(decreases_to!(*value => fields[k as int].1));
                    }
                    let line = manifest_at(&fields[k].1, &inner, Ghost(depth + 1));
                    push_str(&mut out, line.as_str());
                    proof {
                        assert(fv[k as int] == (fields@[k as int].0@, json_view(fields@[k as int].1)));
                        assert(out@ =~= start + field_lines(fv, depth, (k + 1) as nat));
                    }
                    k += 1;
                }
                push_str(&mut out, "\n");
                push_str(&mut out, indent.as_str());
                push_str(&mut out, "}");
                proof {
                    assert(json_view(*value) == JsonView::Object(fv));
                    assert(out@ =~= manifested(json_view(*value), depth));
                }
            }
        },
    }
    out
}

/// A JSON value as jsonnet manifests it.
pub fn jsonnet_manifest(value: &JsonValue) -> (r: String)
    ensures
        r@ == manifested(json_view(*value), 0),
{
    let indent = String::new();
    manifest_at(value, &indent, Ghost(0))
}

} // verus!
