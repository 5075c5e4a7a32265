use jsonnet_bytecode::string_pool::StringPool;

#[test]
fn string_pool_test_string_interning() {
    let mut pool = StringPool::new();

    let s1 = pool.intern("hello");
    let s2 = pool.intern("hello");
    let s3 = pool.intern("world");

    assert!(s1.ptr_eq(s2));
    assert!(!s1.ptr_eq(s3));

    assert_eq!(pool.get_content(s1), "hello");
    assert_eq!(pool.get_content(s3), "world");
}

#[test]
fn test_garbage_collection() {
    let mut pool = StringPool::new();

    let s1 = pool.intern("keep");
    let _s2 = pool.intern("discard");

    pool.collect_garbage(vec![s1]);

    assert_eq!(pool.get_content(s1), "keep");

    let (_, _, count) = pool.stats();
    assert_eq!(count, 1);
}

#[test]
fn test_stats_and_threshold() {
    let mut pool = StringPool::new();
    assert_eq!(pool.stats(), (0, 1048576, 0));
    pool.intern("abc");
    pool.intern("é");
    pool.intern("abc");
    assert_eq!(pool.stats(), (5, 1048576, 2));
    assert!(!pool.should_collect());
    pool.collect_garbage(vec![]);
    assert_eq!(pool.stats(), (0, 1048576, 0));
}

#[test]
fn test_handles_are_not_reused_after_collection() {
    let mut pool = StringPool::new();
    let a = pool.intern("a");
    pool.collect_garbage(vec![]);
    let a2 = pool.intern("a");
    assert!(!a.ptr_eq(a2));
    assert_eq!(pool.get_content(a2), "a");
}

#[test]
fn test_intern_with_gc_only_collects_when_due() {
    let mut pool = StringPool::new();
    let keep = pool.intern("keep");
    pool.intern("drop");
    // Below the threshold: nothing is collected.
    let h = pool.intern_with_gc("new", vec![keep]);
    assert_eq!(pool.stats().2, 3);
    assert_eq!(pool.get_content(h), "new");
    // Owned variant interns the same text to the same handle.
    let h2 = pool.intern_owned_with_gc("new".to_string(), vec![keep]);
    assert!(h.ptr_eq(h2));
}

#[test]
fn test_intern_with_gc_collects_past_threshold() {
    let mut pool = StringPool::new();
    let big = "x".repeat(1048576);
    let keep = pool.intern("keep");
    pool.intern(&big);
    assert!(pool.should_collect());
    // No roots given: no collection.
    pool.intern_with_gc("a", vec![]);
    assert_eq!(pool.stats().2, 3);
    // With roots: the big string goes, the root stays.
    let h = pool.intern_with_gc("b", vec![keep]);
    assert_eq!(pool.stats(), (5, 1048576, 2));
    assert_eq!(pool.get_content(keep), "keep");
    assert_eq!(pool.get_content(h), "b");
}

#[test]
fn test_deallocate_string() {
    let mut pool = StringPool::new();
    let a = pool.intern("abcd");
    let b = pool.intern("ef");
    pool.deallocate_string(a);
    assert_eq!(pool.stats(), (2, 1048576, 1));
    assert_eq!(pool.get_content(b), "ef");
}

#[test]
fn string_pool_test_handle_reads_its_text() {
    let mut pool = StringPool::new();
    let h = pool.intern("jsonnet");
    assert_eq!(h.as_str(&pool), "jsonnet");
    assert_eq!(h.as_str(&pool), pool.get_content(h));
}
