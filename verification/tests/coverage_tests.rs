use jsonnet_bytecode::coverage::CoverageCollector;

#[test]
fn test_record_and_retrieve() {
    let mut collector = CoverageCollector::new();
    collector.record("test.jsonnet", &(0..5));
    collector.record("test.jsonnet", &(10..15));
    collector.record("other.jsonnet", &(0..3));

    assert_eq!(collector.source_ids().len(), 2);
    assert_eq!(collector.spans_for_source("test.jsonnet").unwrap().len(), 2);
    assert_eq!(collector.spans_for_source("other.jsonnet").unwrap().len(), 1);
    assert_eq!(collector.total_spans_hit(), 3);
}

#[test]
fn test_deduplication() {
    let mut collector = CoverageCollector::new();
    collector.record("test.jsonnet", &(0..5));
    collector.record("test.jsonnet", &(0..5));
    assert_eq!(collector.total_spans_hit(), 1);
}

#[test]
fn test_merge() {
    let mut a = CoverageCollector::new();
    a.record("test.jsonnet", &(0..5));

    let mut b = CoverageCollector::new();
    b.record("test.jsonnet", &(10..15));
    b.record("other.jsonnet", &(0..3));

    a.merge(b);
    assert_eq!(a.source_ids().len(), 2);
    assert_eq!(a.spans_for_source("test.jsonnet").unwrap().len(), 2);
    assert_eq!(a.total_spans_hit(), 3);
}

#[test]
fn test_empty_collector() {
    let collector = CoverageCollector::new();
    assert_eq!(collector.total_spans_hit(), 0);
    assert!(collector.spans_for_source("nope").is_none());
}

#[test]
fn test_functions_and_branches_are_kept_apart() {
    let mut c = CoverageCollector::default();
    c.record_function("f.jsonnet", &(1..4), Some("add".to_string()));
    c.record_function("f.jsonnet", &(1..4), Some("add".to_string()));
    c.record_function("f.jsonnet", &(1..4), None);
    c.record_branch("g.jsonnet", &(5..6), 17, 1);
    c.record_branch("g.jsonnet", &(5..6), 17, 0);
    c.record_branch("g.jsonnet", &(5..6), 17, 1);
    assert_eq!(c.total_spans_hit(), 0);
    assert!(c.spans_for_source("f.jsonnet").is_none());
    assert_eq!(c.functions_for_source("f.jsonnet").unwrap().len(), 2);
    assert_eq!(c.branches_for_source("g.jsonnet").unwrap().len(), 2);
    let mut ids = c.source_ids();
    ids.sort();
    assert_eq!(ids, vec!["f.jsonnet", "g.jsonnet"]);
}

#[test]
fn test_remove_source_forgets_everything() {
    let mut c = CoverageCollector::new();
    c.record("main.jsonnet", &(0..1));
    c.record_function("main.jsonnet", &(0..1), None);
    c.record_branch("main.jsonnet", &(0..1), 0, 0);
    c.record("lib.jsonnet", &(2..3));
    c.remove_source("main.jsonnet");
    assert_eq!(c.source_ids(), vec!["lib.jsonnet"]);
    assert!(c.functions_for_source("main.jsonnet").is_none());
    assert!(c.branches_for_source("main.jsonnet").is_none());
    assert_eq!(c.total_spans_hit(), 1);
    c.remove_source("absent.jsonnet");
    assert_eq!(c.total_spans_hit(), 1);
}

#[test]
fn test_merge_is_a_union() {
    let mut a = CoverageCollector::new();
    a.record("x", &(0..1));
    a.record("x", &(1..2));
    a.record_branch("x", &(0..1), 3, 1);
    let mut b = CoverageCollector::new();
    b.record("x", &(1..2));
    b.record("y", &(4..5));
    b.record_branch("x", &(0..1), 3, 1);
    b.record_function("z", &(0..9), Some("main".to_string()));
    a.merge(b);
    assert_eq!(a.total_spans_hit(), 3);
    assert_eq!(a.spans_for_source("x").unwrap().len(), 2);
    assert_eq!(a.branches_for_source("x").unwrap().len(), 1);
    assert_eq!(a.functions_for_source("z").unwrap()[0].2, Some("main".to_string()));
    let mut ids = a.source_ids();
    ids.sort();
    assert_eq!(ids, vec!["x", "y", "z"]);
}

#[test]
fn total_spans_hit_checked_counts_pairs() {
    let mut c = jsonnet_bytecode::coverage::CoverageCollector::new();
    assert_eq!(c.total_spans_hit_checked(), Some(0));
    c.record("a.jsonnet", &(0..3));
    c.record("a.jsonnet", &(0..3));
    c.record("a.jsonnet", &(4..6));
    assert_eq!(c.total_spans_hit_checked(), Some(2));
    assert_eq!(c.total_spans_hit_checked(), Some(c.total_spans_hit()));
}
