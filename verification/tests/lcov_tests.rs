use jsonnet_bytecode::coverage::CoverageCollector;
use jsonnet_bytecode::lcov::{lcov_record, sort_source_ids, unreadable_source_note};

/// The record of one in-memory source, with the spans that the collector
/// recorded for it.
fn record_for(collector: &CoverageCollector, name: &str, content: &[u8], test_name: &str) -> String {
    let spans = collector.spans_for_source(name).cloned().unwrap_or_default();
    lcov_record(test_name, name, &content.to_vec(), &spans)
}

fn parse_da_records(lcov: &str) -> Vec<(usize, usize)> {
    lcov.lines()
        .filter(|l| l.starts_with("DA:"))
        .map(|l| {
            let rest = &l[3..];
            let mut parts = rest.splitn(2, ',');
            let line: usize = parts.next().unwrap().parse().unwrap();
            let hit: usize = parts.next().unwrap().parse().unwrap();
            (line, hit)
        })
        .collect()
}

#[test]
fn test_generate_lcov_empty_collector() {
    let collector = CoverageCollector::new();
    let ids = sort_source_ids(collector.source_ids());
    assert!(ids.is_empty());
}

#[test]
fn test_generate_lcov_missing_file() {
    let mut collector = CoverageCollector::new();
    collector.record("/nonexistent/file.jsonnet", &(0..5));
    let ids = sort_source_ids(collector.source_ids());
    let result: String = ids.iter().map(|id| unreadable_source_note(id)).collect();
    assert!(result.contains("# Could not read source:"));
    assert!(!result.contains("SF:"));
}

#[test]
fn test_empty_lines_excluded() {
    let mut collector = CoverageCollector::new();
    collector.record("e.jsonnet", &(0..1));
    let result = record_for(&collector, "e.jsonnet", b"x\n\ny\n", "");
    let da = parse_da_records(&result);
    assert!(!da.iter().any(|(ln, _)| *ln == 2), "empty line 2 should be excluded: {:?}", da);
    assert!(da.contains(&(1, 1)), "line 1 should be hit");
    assert!(da.contains(&(3, 0)), "line 3 should be present but unhit");
}

#[test]
fn test_whitespace_only_lines_excluded() {
    let mut collector = CoverageCollector::new();
    collector.record("w.jsonnet", &(0..1));
    let result = record_for(&collector, "w.jsonnet", b"a\n   \nb\n", "");
    let da = parse_da_records(&result);
    assert!(!da.iter().any(|(ln, _)| *ln == 2), "whitespace-only line 2 should be excluded: {:?}", da);
}

#[test]
fn test_bracket_only_lines_excluded() {
    let mut collector = CoverageCollector::new();
    collector.record("b.jsonnet", &(8..9));
    let result = record_for(&collector, "b.jsonnet", b"{\n}\n[\n]\na\n", "");
    let da = parse_da_records(&result);
    for ln in 1..=4usize {
        assert!(!da.iter().any(|(l, _)| *l == ln), "bracket-only line {} should be excluded: {:?}", ln, da);
    }
    assert!(da.contains(&(5, 1)), "line 5 should be hit");
}

#[test]
fn test_mixed_bracket_and_content_line_included() {
    let mut collector = CoverageCollector::new();
    collector.record("m.jsonnet", &(0..1));
    let result = record_for(&collector, "m.jsonnet", b"{ key: 1 }\n", "");
    let da = parse_da_records(&result);
    assert!(da.contains(&(1, 1)), "mixed-content line should be included and hit: {:?}", da);
}

#[test]
fn test_trailing_newline_no_phantom_line() {
    let mut collector = CoverageCollector::new();
    collector.record("t.jsonnet", &(0..1));
    let result = record_for(&collector, "t.jsonnet", b"x\ny\n", "");
    let da = parse_da_records(&result);
    let max_line = da.iter().map(|(ln, _)| *ln).max().unwrap_or(0);
    assert_eq!(max_line, 2, "last DA line should be 2, not a phantom line 3: {:?}", da);
    let lf: usize = result.lines().find(|l| l.starts_with("LF:")).unwrap()[3..].parse().unwrap();
    assert_eq!(lf, 2, "LF should count 2 lines, not 3: {}", result);
}

#[test]
fn test_no_trailing_newline() {
    let mut collector = CoverageCollector::new();
    collector.record("n.jsonnet", &(2..3));
    let result = record_for(&collector, "n.jsonnet", b"x\ny", "");
    let da = parse_da_records(&result);
    assert!(da.contains(&(2, 1)), "line 2 must appear when file has no trailing newline: {:?}", da);
}

#[test]
fn test_multiline_span_marks_all_covered_lines() {
    let mut collector = CoverageCollector::new();
    collector.record("f.jsonnet", &(0..8));
    let result = record_for(&collector, "f.jsonnet", b"f(\n  a\n)\n", "");
    let da = parse_da_records(&result);
    assert!(da.contains(&(1, 1)), "line 1 should be hit: {:?}", da);
    assert!(da.contains(&(2, 1)), "line 2 should be hit: {:?}", da);
    assert!(da.contains(&(3, 1)), "line 3 should be hit: {:?}", da);
}

#[test]
fn test_test_name_in_tn_field() {
    let mut collector = CoverageCollector::new();
    collector.record("tn.jsonnet", &(0..1));
    let result = record_for(&collector, "tn.jsonnet", b"x\n", "my_target");
    assert!(result.contains("TN:my_target\n"), "TN field should contain test name: {}", result);
}

#[test]
fn test_whole_record_text() {
    let spans = vec![(4usize, 5usize), (40, 50)];
    let r = lcov_record("t", "s.jsonnet", &b"a\n{\n b\n\nc".to_vec(), &spans);
    assert_eq!(r, "TN:t\nSF:s.jsonnet\nDA:1,0\nDA:3,1\nDA:5,0\nLH:1\nLF:3\nend_of_record\n");
}

#[test]
fn test_span_start_past_end_marks_nothing() {
    let r = lcov_record("", "x", &b"a\nb".to_vec(), &vec![(10, 3), (3, 3)]);
    // The empty span at the end offset marks the last line.
    assert_eq!(r, "TN:\nSF:x\nDA:1,0\nDA:2,1\nLH:1\nLF:2\nend_of_record\n");
}

#[test]
fn test_sort_source_ids() {
    let ids = vec!["b.jsonnet", "a.jsonnet", "ab", "a", "é", "Z"];
    assert_eq!(sort_source_ids(ids), vec!["Z", "a", "a.jsonnet", "ab", "b.jsonnet", "é"]);
}
