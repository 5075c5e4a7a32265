use jsonnet_bytecode::heap_natives::{call_native, NativeFuncId};
use jsonnet_bytecode::chunk::Value;
use jsonnet_bytecode::heap_natives::{
    std_ascii_lower, std_ascii_upper, std_all, std_any, std_flatten_arrays, std_is_empty, std_lstrip_chars, std_reverse, std_rstrip_chars,
    std_strip_chars, std_is_array, std_is_boolean, std_is_function, std_is_null, std_is_number, std_is_object,
    std_is_string, std_type, std_ends_with, std_join, std_lines, std_split, std_starts_with, std_str_replace, std_string_chars,
};
use jsonnet_bytecode::memory_manager::MemoryManager;

fn strings_of(mm: &MemoryManager, v: Value) -> Vec<String> {
    match v {
        Value::Array(k) => mm
            .load_array(k)
            .elements
            .iter()
            .map(|e| match e {
                Value::String(s) => mm.load_string(*s).to_string(),
                other => panic!("not a string: {:?}", other),
            })
            .collect(),
        other => panic!("not an array: {:?}", other),
    }
}

#[test]
fn split_stores_the_pieces() {
    let mut mm = MemoryManager::new();
    let s = Value::String(mm.allocate_string("a,b,,c").index);
    let c = Value::String(mm.allocate_string(",").index);
    let r = std_split(s, c, &mut mm, 0..1, "t.jsonnet".to_string()).unwrap();
    assert_eq!(strings_of(&mm, r), vec!["a", "b", "", "c"]);
}

#[test]
fn split_rejects_non_strings() {
    let mut mm = MemoryManager::new();
    let c = Value::String(mm.allocate_string(",").index);
    let e = std_split(Value::Null, c, &mut mm, 3..7, "t.jsonnet".to_string()).unwrap_err();
    assert_eq!(e.message, "std.split() expects (string, string)");
    assert_eq!(e.span, 3..7);
    assert_eq!(e.source_id, "t.jsonnet");
}

#[test]
fn string_chars_one_string_per_character() {
    let mut mm = MemoryManager::new();
    let s = Value::String(mm.allocate_string("héé").index);
    let r = std_string_chars(s, &mut mm, 0..1, "t".to_string()).unwrap();
    assert_eq!(strings_of(&mm, r), vec!["h", "é", "é"]);
    let e = std_string_chars(Value::Boolean(true), &mut mm, 0..1, "t".to_string()).unwrap_err();
    assert_eq!(
        e.message,
        "std.stringChars() expected string, but got something else"
    );
}

#[test]
fn starts_and_ends_with() {
    let mut mm = MemoryManager::new();
    let a = Value::String(mm.allocate_string("jsonnet").index);
    let b = Value::String(mm.allocate_string("json").index);
    let n = Value::String(mm.allocate_string("net").index);
    assert_eq!(
        std_starts_with(a, b, &mut mm, 0..1, "t".to_string()).unwrap(),
        Value::Boolean(true)
    );
    assert_eq!(
        std_starts_with(a, n, &mut mm, 0..1, "t".to_string()).unwrap(),
        Value::Boolean(false)
    );
    assert_eq!(
        std_ends_with(a, n, &mut mm, 0..1, "t".to_string()).unwrap(),
        Value::Boolean(true)
    );
    assert_eq!(
        std_ends_with(b, a, &mut mm, 0..1, "t".to_string()).unwrap(),
        Value::Boolean(false)
    );
    let e = std_starts_with(a, Value::Null, &mut mm, 0..1, "t".to_string()).unwrap_err();
    assert_eq!(e.message, "std.startsWith() expected two strings");
    let e = std_ends_with(Value::Null, a, &mut mm, 0..1, "t".to_string()).unwrap_err();
    assert_eq!(e.message, "std.endsWith() expected two strings");
}

#[test]
fn str_replace_stores_the_result() {
    let mut mm = MemoryManager::new();
    let s = Value::String(mm.allocate_string("a-b-c").index);
    let from = Value::String(mm.allocate_string("-").index);
    let to = Value::String(mm.allocate_string("+").index);
    match std_str_replace(s, from, to, &mut mm, 0..1, "t".to_string()).unwrap() {
        Value::String(k) => assert_eq!(mm.load_string(k), "a+b+c"),
        other => panic!("not a string: {:?}", other),
    }
    let e = std_str_replace(s, from, Value::Null, &mut mm, 0..1, "t".to_string()).unwrap_err();
    assert_eq!(e.message, "std.strReplace() expected three strings");
}

#[test]
fn lines_ends_each_string_with_a_newline() {
    let mut mm = MemoryManager::new();
    let a = Value::String(mm.allocate_string("a").index);
    let b = Value::String(mm.allocate_string("b").index);
    let arr = Value::Array(mm.allocate_array(vec![a, Value::Null, b]).index);
    match std_lines(arr, &mut mm, 0..1, "t".to_string()).unwrap() {
        Value::String(k) => assert_eq!(mm.load_string(k), "a\nb\n"),
        other => panic!("not a string: {:?}", other),
    }
    let bad = Value::Array(mm.allocate_array(vec![a, Value::Boolean(true)]).index);
    let e = std_lines(bad, &mut mm, 0..1, "t".to_string()).unwrap_err();
    assert_eq!(e.message, "std.lines() expected array of strings");
    let e = std_lines(a, &mut mm, 0..1, "t".to_string()).unwrap_err();
    assert_eq!(e.message, "std.lines() expected array, but got something else");
}

#[test]
fn join_with_string_and_array_separators() {
    let mut mm = MemoryManager::new();
    let a = Value::String(mm.allocate_string("a").index);
    let b = Value::String(mm.allocate_string("b").index);
    let sep = Value::String(mm.allocate_string(", ").index);
    let arr = Value::Array(mm.allocate_array(vec![a, Value::Null, b]).index);
    match std_join(sep, arr, &mut mm, 0..1, "t".to_string()).unwrap() {
        Value::String(k) => assert_eq!(mm.load_string(k), "a, b"),
        other => panic!("not a string: {:?}", other),
    }

    let one = Value::Array(mm.allocate_array(vec![Value::Boolean(true)]).index);
    let two = Value::Array(mm.allocate_array(vec![Value::Null, Value::Boolean(false)]).index);
    let sep_arr = Value::Array(mm.allocate_array(vec![a]).index);
    let outer = Value::Array(mm.allocate_array(vec![one, Value::Null, two]).index);
    match std_join(sep_arr, outer, &mut mm, 0..1, "t".to_string()).unwrap() {
        Value::Array(k) => assert_eq!(
            mm.load_array(k).elements,
            vec![Value::Boolean(true), a, Value::Null, Value::Boolean(false)]
        ),
        other => panic!("not an array: {:?}", other),
    }

    let e = std_join(sep, a, &mut mm, 0..1, "t".to_string()).unwrap_err();
    assert_eq!(e.message, "std.join() second argument must be an array");
    let e = std_join(sep, outer, &mut mm, 0..1, "t".to_string()).unwrap_err();
    assert_eq!(e.message, "std.join() with string separator requires array of strings");
    let e = std_join(sep_arr, arr, &mut mm, 0..1, "t".to_string()).unwrap_err();
    assert_eq!(e.message, "std.join() with array separator requires array of arrays");
    let e = std_join(Value::Null, arr, &mut mm, 0..1, "t".to_string()).unwrap_err();
    assert_eq!(e.message, "std.join() first argument must be a string or array");
}

#[test]
fn type_names_and_kind_tests() {
    let mut mm = MemoryManager::new();
    let s = Value::String(mm.allocate_string("x").index);
    let a = Value::Array(mm.allocate_array(vec![]).index);
    let o = Value::Object(mm.allocate_object().index);
    let cases = [
        (Value::Null, "null"),
        (Value::Boolean(true), "boolean"),
        (Value::Number(0), "number"),
        (s, "string"),
        (a, "array"),
        (o, "object"),
    ];
    for (v, name) in cases {
        match std_type(v, &mut mm, 0..1).unwrap() {
            Value::String(k) => assert_eq!(mm.load_string(k), name),
            other => panic!("not a string: {:?}", other),
        }
    }
    assert_eq!(std_is_array(a).unwrap(), Value::Boolean(true));
    assert_eq!(std_is_array(s).unwrap(), Value::Boolean(false));
    assert_eq!(std_is_boolean(Value::Boolean(false)).unwrap(), Value::Boolean(true));
    assert_eq!(std_is_number(Value::Number(7)).unwrap(), Value::Boolean(true));
    assert_eq!(std_is_object(o).unwrap(), Value::Boolean(true));
    assert_eq!(std_is_string(s).unwrap(), Value::Boolean(true));
    assert_eq!(std_is_null(Value::Null).unwrap(), Value::Boolean(true));
    assert_eq!(std_is_function(Value::Null).unwrap(), Value::Boolean(false));
}

fn text(mm: &MemoryManager, v: Value) -> String {
    match v {
        Value::String(k) => mm.load_string(k).to_string(),
        other => panic!("not a string: {:?}", other),
    }
}

#[test]
fn strip_chars_family() {
    let mut mm = MemoryManager::new();
    let s = Value::String(mm.allocate_string("xxhixyx").index);
    let c = Value::String(mm.allocate_string("xy").index);
    let r = std_strip_chars(s, c, &mut mm, 0..1, "t".to_string()).unwrap();
    assert_eq!(text(&mm, r), "hi");
    let r = std_lstrip_chars(s, c, &mut mm, 0..1, "t".to_string()).unwrap();
    assert_eq!(text(&mm, r), "hixyx");
    let r = std_rstrip_chars(s, c, &mut mm, 0..1, "t".to_string()).unwrap();
    assert_eq!(text(&mm, r), "xxhi");
    let e = std_strip_chars(s, Value::Null, &mut mm, 0..1, "t".to_string()).unwrap_err();
    assert_eq!(e.message, "std.stripChars() expects (string, string)");
    let e = std_lstrip_chars(Value::Null, c, &mut mm, 0..1, "t".to_string()).unwrap_err();
    assert_eq!(e.message, "std.lstripChars() expects (string, string)");
    let e = std_rstrip_chars(Value::Null, c, &mut mm, 0..1, "t".to_string()).unwrap_err();
    assert_eq!(e.message, "std.rstripChars() expects (string, string)");
}

#[test]
fn is_empty_on_strings() {
    let mut mm = MemoryManager::new();
    let e = Value::String(mm.allocate_string("").index);
    let x = Value::String(mm.allocate_string("x").index);
    assert_eq!(std_is_empty(e, &mut mm, 0..1, "t".to_string()).unwrap(), Value::Boolean(true));
    assert_eq!(std_is_empty(x, &mut mm, 0..1, "t".to_string()).unwrap(), Value::Boolean(false));
    let err = std_is_empty(Value::Null, &mut mm, 0..1, "t".to_string()).unwrap_err();
    assert_eq!(err.message, "std.isEmpty() expected string, but got something else");
}

#[test]
fn reverse_and_flatten_arrays() {
    let mut mm = MemoryManager::new();
    let a = Value::Array(
        mm.allocate_array(vec![Value::Boolean(true), Value::Null, Value::Boolean(false)])
            .index,
    );
    match std_reverse(a, &mut mm, 0..1, "t".to_string()).unwrap() {
        Value::Array(k) => assert_eq!(
            mm.load_array(k).elements,
            vec![Value::Boolean(false), Value::Null, Value::Boolean(true)]
        ),
        other => panic!("not an array: {:?}", other),
    }
    let b = Value::Array(mm.allocate_array(vec![Value::Null]).index);
    let empty = Value::Array(mm.allocate_array(vec![]).index);
    let outer = Value::Array(mm.allocate_array(vec![a, empty, b]).index);
    match std_flatten_arrays(outer, &mut mm, 0..1, "t".to_string()).unwrap() {
        Value::Array(k) => assert_eq!(
            mm.load_array(k).elements,
            vec![Value::Boolean(true), Value::Null, Value::Boolean(false), Value::Null]
        ),
        other => panic!("not an array: {:?}", other),
    }
    let bad = Value::Array(mm.allocate_array(vec![a, Value::Null]).index);
    let e = std_flatten_arrays(bad, &mut mm, 0..1, "t".to_string()).unwrap_err();
    assert_eq!(e.message, "std.flattenArrays() expected array of arrays");
    let e = std_flatten_arrays(Value::Null, &mut mm, 0..1, "t".to_string()).unwrap_err();
    assert_eq!(e.message, "std.flattenArrays() expected array, but got something else");
    let e = std_reverse(Value::Null, &mut mm, 0..1, "t".to_string()).unwrap_err();
    assert_eq!(e.message, "std.reverse() expected array, but got something else");
}

#[test]
fn all_and_any_stop_at_the_deciding_element() {
    let mut mm = MemoryManager::new();
    let t = Value::Boolean(true);
    let f = Value::Boolean(false);
    let empty = Value::Array(mm.allocate_array(vec![]).index);
    let tt = Value::Array(mm.allocate_array(vec![t, t]).index);
    let f_then_null = Value::Array(mm.allocate_array(vec![f, Value::Null]).index);
    let t_then_null = Value::Array(mm.allocate_array(vec![t, Value::Null]).index);
    let ff = Value::Array(mm.allocate_array(vec![f, f]).index);
    let s = "t".to_string();
    assert_eq!(std_all(empty, &mut mm, 0..1, s.clone()).unwrap(), t);
    assert_eq!(std_all(tt, &mut mm, 0..1, s.clone()).unwrap(), t);
    assert_eq!(std_all(f_then_null, &mut mm, 0..1, s.clone()).unwrap(), f);
    let e = std_all(t_then_null, &mut mm, 0..1, s.clone()).unwrap_err();
    assert_eq!(e.message, "std.all() expected array of booleans");
    assert_eq!(std_any(empty, &mut mm, 0..1, s.clone()).unwrap(), f);
    assert_eq!(std_any(ff, &mut mm, 0..1, s.clone()).unwrap(), f);
    assert_eq!(std_any(t_then_null, &mut mm, 0..1, s.clone()).unwrap(), t);
    let e = std_any(f_then_null, &mut mm, 0..1, s.clone()).unwrap_err();
    assert_eq!(e.message, "std.any() expected array of booleans");
    let e = std_any(Value::Null, &mut mm, 0..1, s.clone()).unwrap_err();
    assert_eq!(e.message, "std.any() expected array, but got something else");
    let e = std_all(Value::Null, &mut mm, 0..1, s).unwrap_err();
    assert_eq!(e.message, "std.all() expected array, but got something else");
}

#[test]
fn ascii_case_changes_only_ascii_letters() {
    let mut mm = MemoryManager::new();
    let v = Value::String(mm.allocate_string("Héllo, World 9!").index);
    let up = std_ascii_upper(v, &mut mm, 0..1, "t".to_string()).unwrap();
    assert_eq!(text(&mm, up), "HéLLO, WORLD 9!");
    let low = std_ascii_lower(v, &mut mm, 0..1, "t".to_string()).unwrap();
    assert_eq!(text(&mm, low), "héllo, world 9!");
    let e = std_ascii_upper(Value::Null, &mut mm, 0..1, "t".to_string()).unwrap_err();
    assert_eq!(e.message, "std.asciiUpper() expected string, but got something else");
    let e = std_ascii_lower(Value::Null, &mut mm, 0..1, "t".to_string()).unwrap_err();
    assert_eq!(e.message, "std.asciiLower() expected string, but got something else");
}

#[test]
fn call_native_checks_arity_then_dispatches() {
    let mut mm = MemoryManager::new();
    let s = Value::String(mm.allocate_string("a-b").index);
    let d = Value::String(mm.allocate_string("-").index);
    let e = call_native(NativeFuncId::Split, &vec![s], &mut mm, 2..4, "t".to_string()).unwrap_err();
    assert_eq!(e.message, "Native function 'std.split' expected 2 arguments, but got 1");
    assert_eq!(e.span, 2..4);
    let r = call_native(NativeFuncId::Split, &vec![s, d], &mut mm, 0..1, "t".to_string()).unwrap();
    assert_eq!(strings_of(&mm, r), vec!["a", "b"]);
    assert_eq!(
        call_native(NativeFuncId::IsString, &vec![s], &mut mm, 0..1, "t".to_string()).unwrap(),
        Value::Boolean(true)
    );
    let e = call_native(NativeFuncId::StrReplace, &vec![], &mut mm, 0..1, "t".to_string()).unwrap_err();
    assert_eq!(e.message, "Native function 'std.strReplace' expected 3 arguments, but got 0");
    match call_native(NativeFuncId::Type, &vec![Value::Null], &mut mm, 0..1, "t".to_string()).unwrap() {
        Value::String(k) => assert_eq!(mm.load_string(k), "null"),
        other => panic!("not a string: {:?}", other),
    }
}

#[test]
fn call_native_digests_of_strings() {
    let mut mm = MemoryManager::new();
    let s = Value::String(mm.allocate_string("abc").index);
    let text = |v: Value, mm: &MemoryManager| match v {
        Value::String(k) => mm.load_string(k).to_string(),
        _ => panic!("expected a string"),
    };
    let md5 = call_native(NativeFuncId::Md5, &vec![s], &mut mm, 0..1, "t".to_string()).unwrap();
    assert_eq!(text(md5, &mm), "900150983cd24fb0d6963f7d28e17f72");
    let sha1 = call_native(NativeFuncId::Sha1, &vec![s], &mut mm, 0..1, "t".to_string()).unwrap();
    assert_eq!(text(sha1, &mm), "a9993e364706816aba3e25717850c26c9cd0d89d");
    let sha256 = call_native(NativeFuncId::Sha256, &vec![s], &mut mm, 0..1, "t".to_string()).unwrap();
    assert_eq!(
        text(sha256, &mm),
        "ba7816bf8f01cfea414140de5dae2223b00361a396177a9cb410ff61f20015ad"
    );
    let sha3 = call_native(NativeFuncId::Sha3, &vec![s], &mut mm, 0..1, "t".to_string()).unwrap();
    assert_eq!(
        text(sha3, &mm),
        "3a985da74fe225b2045c172d6bd390bd855f086e3e9d525b46bfe24511431532"
    );
    let sha512 = call_native(NativeFuncId::Sha512, &vec![s], &mut mm, 0..1, "t".to_string()).unwrap();
    assert_eq!(text(sha512, &mm).len(), 128);
    assert!(text(sha512, &mm).starts_with("ddaf35a193617aba"));
}

#[test]
fn call_native_digest_of_a_number_is_an_error() {
    let mut mm = MemoryManager::new();
    let e = call_native(NativeFuncId::Md5, &vec![Value::Null], &mut mm, 3..5, "t".to_string())
        .unwrap_err();
    assert_eq!(e.message, "std.md5 expected string, got null");
    assert_eq!((e.span.start, e.span.end), (3, 5));
}
