//! The queue worker: defaults, plans, passes and log forms.

use minnal_db::doc_store::hex::{bytes_to_hex, doc_id_display, hex_to_bytes};
use minnal_db::doc_store::rounds::{round_robin, rounds};
use minnal_db::doc_store::vec_index_worker::{
    after_failure, after_scan, gone_entries, next_attempt, plan_pass, CallOutcome, Pass, QueueEntry, QueueEntryKind, ScanDecision,
    VectorIndexConfig,
};

#[test]
fn test_vector_index_config_defaults() {
    let cfg = VectorIndexConfig::default();
    assert_eq!(cfg.retry_wait_secs, 2);
    assert_eq!(cfg.max_retries, 5);
    assert_eq!(cfg.concurrency, 4);
}

#[test]
fn test_doc_id_display_printable_ascii() {
    assert_eq!(doc_id_display(b"my-doc-id"), "my-doc-id");
}

#[test]
fn test_doc_id_display_ascii_with_space() {
    assert_eq!(doc_id_display(b"hello world"), "hello world");
}

#[test]
fn test_doc_id_display_binary_falls_back_to_hex() {
    // Bytes 0x00–0x1f are not ascii_graphic, so hex path is taken.
    let bytes = [0x00u8, 0x01, 0xFF];
    assert_eq!(doc_id_display(&bytes), "0001ff");
}

#[test]
fn test_doc_id_display_empty_slice() {
    assert_eq!(doc_id_display(&[]), "");
}

#[test]
fn test_doc_id_display_non_utf8_is_hex() {
    // 0xFF 0xFE is not valid UTF-8.
    let bytes = [0xFFu8, 0xFE];
    assert_eq!(doc_id_display(&bytes), "fffe");
}

#[test]
fn multibyte_ids_are_shown_in_hex() {
    assert_eq!(doc_id_display("ä".as_bytes()), "c3a4");
    assert_eq!(doc_id_display(b"~ "), "~ ");
    assert_eq!(doc_id_display(b"\x7f"), "7f");
}

#[test]
fn hex_round_trip() {
    let all: Vec<u8> = (0..=255).collect();
    assert_eq!(hex_to_bytes(&bytes_to_hex(&all)), Some(all));
    assert_eq!(hex_to_bytes("0aFf"), Some(vec![10, 255]));
    assert_eq!(hex_to_bytes(""), Some(vec![]));
    assert_eq!(hex_to_bytes("abc"), None);
    assert_eq!(hex_to_bytes("0g"), None);
}

fn entry(namespace: &str, doc: u8, retry_count: u32) -> QueueEntry {
    QueueEntry {
        namespace: namespace.to_string(),
        doc_id_bytes: vec![doc],
        kind: QueueEntryKind::Embed,
        text: format!("text {doc}"),
        retry_count,
    }
}

#[test]
fn a_pass_goes_round_the_namespaces() {
    let queue = vec![
        entry("b", 0, 0),
        entry("b", 1, 0),
        entry("b", 2, 0),
        entry("a", 3, 0),
        entry("c", 4, 0),
        entry("a", 5, 0),
    ];
    let plan = plan_pass(&queue, 5);
    let docs: Vec<u8> = plan.work.iter().map(|&i| queue[i].doc_id_bytes[0]).collect();
    assert_eq!(docs, vec![3, 0, 4, 5, 1, 2]);
    assert_eq!(plan.exhausted, 0);
}

#[test]
fn exhausted_entries_are_left_out_and_counted() {
    let queue = vec![entry("a", 0, 5), entry("a", 1, 4), entry("b", 2, 9), entry("a", 3, 0)];
    let plan = plan_pass(&queue, 5);
    assert_eq!(plan.work, vec![1, 3]);
    assert_eq!(plan.exhausted, 2);
}

#[test]
fn a_long_backlog_delays_no_other_namespace() {
    let mut queue: Vec<QueueEntry> = (0..100).map(|i| entry("big", i, 0)).collect();
    queue.push(entry("small", 200, 0));
    let plan = plan_pass(&queue, 5);
    assert_eq!(plan.work.len(), 101);
    assert_eq!(plan.work[1], 100, "the only entry of the other namespace is in the first round");
    let big: Vec<usize> = plan.work.iter().copied().filter(|&i| i < 100).collect();
    assert_eq!(big, (0..100).collect::<Vec<_>>(), "queue order within a namespace");
}

#[test]
fn rounds_count_earlier_items_of_the_name() {
    let names: Vec<Vec<u8>> = ["x", "y", "x", "x", "y"].iter().map(|s| s.as_bytes().to_vec()).collect();
    assert_eq!(rounds(&names), vec![0, 0, 1, 2, 1]);
    assert_eq!(round_robin(&names), vec![0, 1, 2, 4, 3]);
}

#[test]
fn scans_without_work_leave_the_worker_idle() {
    assert!(matches!(after_scan(None, 5), ScanDecision::Idle));
    assert!(matches!(after_scan(Some(&[]), 5), ScanDecision::Idle));
    let spent = vec![entry("a", 0, 5)];
    assert!(matches!(after_scan(Some(&spent), 5), ScanDecision::Idle));
    let queue = vec![entry("a", 0, 5), entry("a", 1, 1)];
    match after_scan(Some(&queue), 5) {
        ScanDecision::Run(plan) => assert_eq!((plan.exhausted, plan.work), (1, vec![1])),
        ScanDecision::Idle => panic!("there is work to do"),
    }
}

#[test]
fn a_pass_keeps_its_calls_in_flight_bounded() {
    let config = VectorIndexConfig::default();
    let mut pass = Pass::begin(6, config.concurrency);
    assert_eq!(pass.started_count(), 4);
    assert_eq!(pass.settle(CallOutcome::Indexed), Some(4));
    assert_eq!(pass.settle(CallOutcome::Failed), Some(5));
    assert_eq!(pass.settle(CallOutcome::Indexed), None);
    assert!(!pass.is_over());
    assert_eq!(pass.remaining(), 3);
    assert_eq!(pass.settle(CallOutcome::Lost), None);
    assert_eq!(pass.settle(CallOutcome::Indexed), None);
    assert_eq!(pass.settle(CallOutcome::Indexed), None);
    assert!(pass.is_over());
    assert_eq!((pass.indexed_count(), pass.failed_count(), pass.remaining()), (4, 2, 0));
    assert_eq!(pass.wait_after(&config), Some(2));
}

#[test]
fn a_pass_without_failures_does_not_wait() {
    let config = VectorIndexConfig { retry_wait_secs: 9, max_retries: 1, concurrency: 0 };
    let mut pass = Pass::begin(2, config.concurrency);
    assert_eq!(pass.started_count(), 1, "one call may always be in flight");
    assert_eq!(pass.settle(CallOutcome::Indexed), Some(1));
    assert_eq!(pass.settle(CallOutcome::Indexed), None);
    assert!(pass.is_over());
    assert_eq!(pass.wait_after(&config), None);
}

#[test]
fn attempts_run_out() {
    assert_eq!(next_attempt(0, 5), (1, false));
    assert_eq!(next_attempt(4, 5), (5, true));
}

#[test]
fn entries_count_their_attempts() {
    let ns = "docs".to_string();
    let mut e = QueueEntry::embed(&ns, b"k", &"hello".to_string());
    assert_eq!((e.namespace.as_str(), e.doc_id_bytes.as_slice(), e.text.as_str()), ("docs", &b"k"[..], "hello"));
    assert_eq!((e.kind, e.retry_count), (QueueEntryKind::Embed, 0));
    assert!(!e.record_failure(2));
    assert!(e.record_failure(2));
    assert_eq!(e.retry_count, 2);
    e.reset();
    assert_eq!((e.retry_count, e.kind, e.text.as_str()), (0, QueueEntryKind::Embed, "hello"));
    let mut c = QueueEntry::clear(&ns, b"k");
    assert_eq!((c.kind, c.text.as_str()), (QueueEntryKind::Clear, ""));
    c.reset();
    assert_eq!(c.kind, QueueEntryKind::Clear, "a reset does not turn it into an embed");
}

#[test]
fn a_failed_attempt_leaves_newer_requests_alone() {
    let ns = "docs".to_string();
    let worked = QueueEntry::embed(&ns, b"k", &"old".to_string());
    let tried = QueueEntry { retry_count: 1, ..worked.clone() };
    let (stored, exhausted) = after_failure(&worked, Some(tried.clone()), 2).unwrap();
    assert_eq!((stored.retry_count, stored.text.as_str(), exhausted), (2, "old", true));
    let (stored, exhausted) = after_failure(&worked, Some(worked.clone()), 2).unwrap();
    assert_eq!((stored.retry_count, exhausted), (1, false));
    assert!(after_failure(&worked, Some(stored), 1).is_none());
    let (stored, exhausted) = after_failure(&worked, None, 2).unwrap();
    assert_eq!((stored.retry_count, stored.text.as_str(), exhausted), (1, "old", false));
    assert_eq!((stored.namespace.as_str(), stored.doc_id_bytes.as_slice()), ("docs", &b"k"[..]));
    assert!(after_failure(&worked, Some(QueueEntry::embed(&ns, b"k", &"new".to_string())), 2).is_none());
    assert!(after_failure(&worked, Some(QueueEntry::clear(&ns, b"k")), 2).is_none());
}

#[test]
fn entries_of_destroyed_namespaces_are_discarded() {
    let queue: Vec<QueueEntry> =
        ["docs", "dropped", "docs", "gone"].iter().map(|ns| QueueEntry::embed(&ns.to_string(), b"k", &"t".to_string())).collect();
    let namespaces = ["docs".to_string(), "other".to_string()];
    assert_eq!(gone_entries(&queue, &namespaces), vec![1, 3]);
    assert_eq!(gone_entries(&queue, &[]), vec![0, 1, 2, 3]);
    assert!(gone_entries(&[], &namespaces).is_empty());
}
