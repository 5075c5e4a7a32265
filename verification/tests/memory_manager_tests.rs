use jsonnet_bytecode::chunk::{OwnedChunk, Value};
use jsonnet_bytecode::memory_manager::{AllocationResult, MemoryManager};

#[test]
fn memory_manager_test_string_interning() {
    let mut set = MemoryManager::new();

    let s1 = set.allocate_string("hello");
    let s2 = set.allocate_string("hello");
    let s3 = set.allocate_string("world");

    assert_eq!(s1, s2);
    assert_ne!(s1, s3);

    assert_eq!(set.load_string(s1.index), "hello");
}

#[test]
fn test_interning_with_owned_strings() {
    let mut set = MemoryManager::new();
    let s1: AllocationResult<slotmap::DefaultKey>;
    let s2: AllocationResult<slotmap::DefaultKey>;
    {
        let owned1 = "hello".to_string();
        let owned2 = "hello".to_string();

        s1 = set.allocate_string(&owned1);
        s2 = set.allocate_string(&owned2);
    }
    assert_eq!(s1, s2);
}

#[test]
fn deallocate_string() {
    let mut manager = MemoryManager::new();
    let s = manager.allocate_string("hello");
    let repeated = manager.allocate_string("hello");

    assert_eq!(
        manager.load_string(s.index),
        manager.load_string(repeated.index)
    );

    assert_eq!(
        Some("hello"),
        manager
            .deallocate_string(repeated.index)
            .map(|s| s.content.clone())
            .as_deref()
    );

    assert!(!manager.contains_key(s.index));
    assert!(!manager.contains_key(repeated.index));
}

#[test]
fn allocate_object() {
    let mut manager = MemoryManager::new();
    let name = manager.allocate_string("field1").index;
    let field_value = Value::Boolean(true);

    let properties = vec![(name, field_value)];
    let object_index = manager.allocate_object_with_properties(properties).index;

    let object = manager.load_object(object_index);
    assert_eq!(Some(&Value::Boolean(true)), object.get(&name));
}

#[test]
fn garbage_collection() {
    let mut manager = MemoryManager::new();
    let name = manager.allocate_string("field1").index;
    let field_value = Value::Boolean(true);

    let properties = vec![(name, field_value)];
    let object_index = manager.allocate_object_with_properties(properties).index;

    let object_size = manager.size_of_entry(object_index);
    let string_size = manager.size_of_entry(name);

    let roots: Vec<Value> = vec![Value::Object(object_index)];
    manager.run_garbage_collect(roots, vec![]);
    assert_eq!(
        object_size + string_size,
        manager.allocated_bytes(),
        "Total memory should be both string and object size"
    );

    let only_string: Vec<Value> = vec![Value::String(name)];
    manager.run_garbage_collect(only_string, vec![]);
    assert_eq!(
        string_size,
        manager.allocated_bytes(),
        "GC should have collected the object but left the string around"
    );
    assert!(!manager.contains_key(object_index));

    manager.run_garbage_collect(vec![], vec![]);
    assert_eq!(0, manager.allocated_bytes());
    assert!(!manager.contains_key(name));
}

#[test]
fn sizes_count_header_and_contents() {
    let mut manager = MemoryManager::new();
    let s = manager.allocate_string("héllo").index;
    // 32-byte header and six UTF-8 bytes
    assert_eq!(manager.size_of_entry(s), 38);
    let a = manager
        .allocate_array(vec![Value::Null, Value::String(s)])
        .index;
    assert_eq!(manager.size_of_entry(a), 64);
    assert_eq!(manager.allocated_bytes(), 102);
    assert_eq!(manager.stats(), (102, 1048576, 1));
}

#[test]
fn collection_follows_arrays_closures_and_upvalues() {
    let mut manager = MemoryManager::new();
    let s = manager.allocate_string("kept").index;
    let arr = manager.allocate_array(vec![Value::String(s)]).index;
    let garbage = manager.allocate_string("garbage").index;
    let chunk = OwnedChunk {
        source_id: "f.jsonnet".to_string(),
        code: vec![],
        spans: vec![],
        constants: vec![Value::Array(arr)],
    };
    let f = manager.allocate_function(None, 0, 1, chunk).index;
    let up = manager.allocate_upvalue(3).index;
    let open_up = manager.allocate_upvalue(4).index;
    let c = manager.allocate_closure(f, vec![up]).index;

    manager.run_garbage_collect(vec![Value::Closure(c)], vec![open_up]);
    for k in [s, arr, f, up, open_up, c] {
        assert!(manager.contains_key(k));
    }
    assert!(!manager.contains_key(garbage));
    let (bytes, threshold, count) = manager.stats();
    // one string survives; the other five entries are not strings
    assert_eq!(count, 1);
    assert_eq!(threshold, 2 * bytes);

    // collecting again from the same roots changes nothing
    manager.run_garbage_collect(vec![Value::Closure(c)], vec![open_up]);
    assert_eq!(manager.stats(), (bytes, threshold, count));
}

#[test]
fn external_roots_survive_until_popped() {
    let mut manager = MemoryManager::new();
    let s = manager.allocate_string("external").index;
    let u = manager.allocate_upvalue(0).index;
    manager.push_external_roots(vec![Value::String(s)], vec![u]);
    manager.run_garbage_collect(vec![], vec![]);
    assert!(manager.contains_key(s));
    assert!(manager.contains_key(u));
    manager.pop_external_roots();
    manager.run_garbage_collect(vec![], vec![]);
    assert!(!manager.contains_key(s));
    assert!(!manager.contains_key(u));
    assert_eq!(manager.stats(), (0, 0, 0));
}

#[test]
fn imports_are_shared_by_path() {
    let mut manager = MemoryManager::new();
    let a = manager.allocate_import("/lib/a.libsonnet");
    let b = manager.allocate_import("/lib/a.libsonnet");
    let c = manager.allocate_import("/lib/c.libsonnet");
    assert_eq!(a, b);
    assert_ne!(a.index, c.index);
    let imp = manager.load_import(a.index);
    assert_eq!(manager.load_string(imp.path), "/lib/a.libsonnet");
    assert!(imp.cached_result.is_none());
}

#[test]
fn should_collect_after_threshold() {
    let mut manager = MemoryManager::new();
    assert!(!manager.should_collect());
    let big = "x".repeat(1048576);
    let r = manager.allocate_string(&big);
    assert!(r.should_garbage_collect);
    assert!(manager.should_collect());
}

#[test]
fn stats_counts_strings() {
    let mut manager = MemoryManager::new();
    manager.allocate_string("a");
    manager.allocate_object();
    assert_eq!(manager.stats().2, 1);
}

#[test]
fn binaries_and_mutable_loads() {
    let mut manager = MemoryManager::new();
    let b = manager.allocate_binary(vec![1, 2, 3]).index;
    assert_eq!(manager.load_binary(b).data, vec![1, 2, 3]);
    assert_eq!(manager.size_of_entry(b), 35);

    let u = manager.allocate_upvalue(7).index;
    manager.load_upvalue_mut(u).close(Value::Boolean(true));
    assert!(manager.load_upvalue(u).is_closed());
    assert_eq!(manager.load_upvalue(u).closed_value, Some(Value::Boolean(true)));

    let i = manager.allocate_import("/x.libsonnet").index;
    manager.load_import_mut(i).cached_result = Some(Value::Null);
    assert_eq!(manager.load_import(i).cached_result, Some(Value::Null));
    let before = manager.allocated_bytes();
    manager.load_import_mut(i).evaluating = true;
    assert_eq!(manager.allocated_bytes(), before);
}

#[test]
fn memory_manager_test_binary_mut_edits_in_place() {
    let mut manager = MemoryManager::new();
    let b = manager.allocate_binary(vec![1, 2, 3]).index;
    let (bytes, _, _) = manager.stats();
    manager.load_binary_mut(b).data[1] = 9;
    assert_eq!(manager.load_binary(b).data, vec![1, 9, 3]);
    assert_eq!(manager.stats().0, bytes);
}
