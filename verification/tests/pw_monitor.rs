use std::collections::HashSet;

use aproman::pw_monitor::{self, NodeFields};

#[test]
fn skips_initial_dump_and_reports_new_error() {
    let mut seen = HashSet::new();
    let (_, initial_done, errors) = pw_monitor::extract_errors(
        r#"[{"id":1,"type":"PipeWire:Interface:Node","info":{"state":"error","props":{"node.name":"old"}}}]"#,
        false,
        &mut seen,
    );
    assert!(initial_done);
    assert!(errors.is_empty());

    let (_, _, errors) = pw_monitor::extract_errors(
        r#"[{"id":2,"type":"PipeWire:Interface:Node","info":{"state":"error","props":{"node.name":"new"}}}]"#,
        true,
        &mut seen,
    );
    assert_eq!(vec!["node new entered error state"], errors);
}

const NODE_ERR: &str = r#"[{"id":7,"type":"PipeWire:Interface:Node","info":{"state":"error"}}]"#;
const NODE_OK: &str = r#"[{"id":7,"type":"PipeWire:Interface:Node","info":{"state":"running"}}]"#;

#[test]
fn error_is_reported_once_until_it_clears() {
    let mut seen = HashSet::new();
    let (rest, done, errors) = pw_monitor::extract_errors(NODE_ERR, true, &mut seen);
    assert_eq!("", rest);
    assert!(done);
    assert_eq!(vec!["node id=7 entered error state"], errors);
    let (_, _, errors) = pw_monitor::extract_errors(NODE_ERR, true, &mut seen);
    assert!(errors.is_empty());
    let (_, _, errors) = pw_monitor::extract_errors(NODE_OK, true, &mut seen);
    assert!(errors.is_empty());
    assert!(seen.is_empty());
    let (_, _, errors) = pw_monitor::extract_errors(NODE_ERR, true, &mut seen);
    assert_eq!(1, errors.len());
}

#[test]
fn incomplete_value_is_kept_for_later() {
    let mut seen = HashSet::new();
    let text = format!("  {}\n[{{\"id\":", NODE_ERR);
    let (rest, done, errors) = pw_monitor::extract_errors(&text, false, &mut seen);
    assert_eq!("[{\"id\":", rest);
    assert!(done);
    assert!(errors.is_empty());
    assert!(seen.contains(&7));
}

#[test]
fn values_that_are_not_arrays_are_skipped() {
    let mut seen = HashSet::new();
    let text = format!("{{\"a\":1}} {}", NODE_ERR);
    let (rest, done, errors) = pw_monitor::extract_errors(&text, false, &mut seen);
    assert_eq!("", rest);
    assert!(done);
    assert!(errors.is_empty());
    let (rest, done, _) = pw_monitor::extract_errors("{\"a\":1}", false, &mut seen);
    assert_eq!("", rest);
    assert!(!done);
}

#[test]
fn apply_nodes_ignores_other_objects_and_missing_ids() {
    let mut seen = HashSet::new();
    let mut errors = Vec::new();
    let items = vec![
        NodeFields {
            kind: Some("PipeWire:Interface:Port".to_string()),
            id: Some(1),
            state: Some("error".to_string()),
            name: None,
        },
        NodeFields {
            kind: Some("PipeWire:Interface:Node".to_string()),
            id: None,
            state: Some("error".to_string()),
            name: None,
        },
        NodeFields {
            kind: Some("PipeWire:Interface:Node".to_string()),
            id: Some(-3),
            state: Some("error".to_string()),
            name: None,
        },
    ];
    pw_monitor::apply_nodes(&items, true, &mut seen, &mut errors);
    assert_eq!(vec!["node id=-3 entered error state".to_string()], errors);
    assert_eq!(HashSet::from([-3]), seen);
}

#[test]
fn leftover_read_again_reads_no_further() {
    let mut seen = HashSet::new();
    let text = format!("{}\n[{{\"id\":", NODE_ERR);
    let (rest, done, errors) = pw_monitor::extract_errors(&text, true, &mut seen);
    assert_eq!(1, errors.len());
    let before = seen.clone();
    let (again, done_again, more) = pw_monitor::extract_errors(&rest, done, &mut seen);
    assert_eq!(rest, again);
    assert_eq!(done, done_again);
    assert!(more.is_empty());
    assert_eq!(before, seen);
}
