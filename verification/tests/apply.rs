use tether_gossip::{apply_remote_event, record_applied, DaemonState, GossipEvent};

/// Delivers `event` to a node whose gossip file holds `content`, appending the
/// block when the event is applied, as the daemon does with the real file.
fn deliver(content: &mut String, state: &mut DaemonState, local: &str, event: &GossipEvent) -> bool {
    match apply_remote_event(state, local, event) {
        Some(block) => {
            content.push_str(&block);
            record_applied(state, event);
            true
        }
        None => false,
    }
}

fn event(node: &str, seq: u64, ts: u64, body: &str) -> GossipEvent {
    GossipEvent {
        node: node.to_owned(),
        seq,
        ts,
        body: body.to_owned(),
    }
}

#[test]
fn apply_remote_event_appends_with_provenance() {
    let mut content = String::from("existing line\n");
    let mut state = DaemonState::default();
    let ev = event("worknode", 1, 1_000_000, "remote content");
    let applied = deliver(&mut content, &mut state, "laptop", &ev);
    assert!(applied);
    assert!(content.starts_with("existing line\n"), "prior content intact");
    assert!(content.contains("(via tether)"), "provenance header present");
    assert!(content.contains("remote content"), "body present");
}

#[test]
fn apply_remote_event_self_echo_skipped() {
    let mut content = String::from("existing\n");
    let mut state = DaemonState::default();
    let ev = event("laptop", 1, 0, "self");
    let applied = deliver(&mut content, &mut state, "laptop", &ev);
    assert!(!applied, "self-echo must be skipped");
    assert_eq!(content, "existing\n", "file unchanged after self-echo");
}

#[test]
fn apply_remote_event_dedup() {
    let mut content = String::new();
    let mut state = DaemonState::default();
    let ev = event("worknode", 1, 0, "block");
    deliver(&mut content, &mut state, "laptop", &ev);
    let applied2 = deliver(&mut content, &mut state, "laptop", &ev);
    assert!(!applied2, "second delivery must be skipped");
    assert_eq!(content.matches("block").count(), 1, "block appears exactly once");
}

#[test]
fn apply_appends_with_provenance_header_and_preserves_prior_content() {
    let original_content = "## 2026-06-16\nprevious entry\n";
    let mut content = String::from(original_content);
    let mut state = DaemonState::default();
    let ev = event("worknode", 1, 1_750_000_000, "remote gossip block");
    let applied = deliver(&mut content, &mut state, "laptop", &ev);
    assert!(applied, "event must be applied (not skipped)");
    assert!(
        content.starts_with(original_content),
        "prior content intact: got {content:?}"
    );
    assert!(content.contains("(via tether)"), "provenance header present");
    assert!(content.contains("worknode"), "node name in provenance header");
    assert!(content.contains("1750000000"), "timestamp in provenance header");
    assert!(content.contains("remote gossip block"), "body appended");
}

#[test]
fn apply_returns_false_for_self_echo() {
    let mut content = String::from("old\n");
    let mut state = DaemonState::default();
    let ev = event("laptop", 1, 0, "self-echo");
    let applied = deliver(&mut content, &mut state, "laptop", &ev);
    assert!(!applied, "self-echo must not be applied");
    assert_eq!(content, "old\n", "file unchanged");
}

#[test]
fn dedup_same_node_seq_applied_once() {
    let mut content = String::new();
    let mut state = DaemonState::default();
    let ev = event("worknode", 7, 0, "unique block");
    let first = deliver(&mut content, &mut state, "laptop", &ev);
    assert!(first, "first delivery must be applied");
    let second = deliver(&mut content, &mut state, "laptop", &ev);
    assert!(!second, "second delivery must be skipped");
    assert_eq!(content.matches("unique block").count(), 1, "body appears exactly once");
}

#[test]
fn different_seqs_from_same_node_both_applied() {
    let mut content = String::new();
    let mut state = DaemonState::default();
    for seq in 1_u64..=3 {
        let ev = event("worknode", seq, 0, &format!("block-{seq}"));
        let applied = deliver(&mut content, &mut state, "laptop", &ev);
        assert!(applied, "seq {seq} must be applied");
    }
    assert_eq!(content.matches("block-").count(), 3, "three blocks applied");
}

#[test]
fn loop_guard_self_echo_not_applied() {
    let original = "original content\n";
    let mut content = String::from(original);
    let mut state = DaemonState::default();
    state.last_published_seq = 3;
    let self_event = event("laptop", 3, 0, "our own block");
    let applied = deliver(&mut content, &mut state, "laptop", &self_event);
    assert!(!applied, "self-echo from our own node must be skipped");
    assert_eq!(content, original, "gossip.md unchanged after self-echo");
    assert!(!content.contains("our own block"), "self-echo body must not appear");
}

#[test]
fn loop_guard_remote_event_is_applied() {
    let mut content = String::new();
    let mut state = DaemonState::default();
    let remote_event = event("worknode", 1, 0, "remote block");
    let applied = deliver(&mut content, &mut state, "laptop", &remote_event);
    assert!(applied, "remote event must be applied");
}

#[test]
fn applied_block_is_exact() {
    let mut state = DaemonState::default();
    let ev = event("worknode", 4, 1_750_000_000, "line one\nline two");
    let block = apply_remote_event(&state, "laptop", &ev).expect("applied");
    assert_eq!(
        block,
        "## 1750000000  worknode  (via tether)\nline one\nline two\n"
    );
    assert!(state.seen_ids.is_empty(), "deciding marks nothing");
    record_applied(&mut state, &ev);
    assert_eq!(state.seen_ids, vec![("worknode".to_owned(), 4)]);
}

#[test]
fn self_echo_does_not_mark_seen() {
    let mut state = DaemonState::default();
    let ev = event("laptop", 1, 0, "x");
    assert!(apply_remote_event(&mut state, "laptop", &ev).is_none());
    assert!(state.seen_ids.is_empty());
    assert!(state.last_applied.is_empty());
}

#[test]
fn record_applied_keeps_highest_seq_per_node() {
    let mut state = DaemonState::default();
    record_applied(&mut state, &event("w", 5, 0, "a"));
    record_applied(&mut state, &event("w", 3, 0, "b"));
    record_applied(&mut state, &event("v", 1, 0, "c"));
    assert_eq!(state.last_applied.get("w"), Some(5));
    assert_eq!(state.last_applied.get("v"), Some(1));
    record_applied(&mut state, &event("w", 8, 0, "d"));
    assert_eq!(state.last_applied.get("w"), Some(8));
}

#[test]
fn skipped_events_do_not_touch_last_applied() {
    let mut content = String::new();
    let mut state = DaemonState::default();
    let ev = event("w", 2, 0, "once");
    assert!(deliver(&mut content, &mut state, "me", &ev));
    assert_eq!(state.last_applied.get("w"), Some(2));
    assert!(!deliver(&mut content, &mut state, "me", &ev));
    assert_eq!(state.last_applied.get("w"), Some(2));
    assert_eq!(state.seen_ids.len(), 1);
}

#[test]
fn failed_append_is_applied_on_redelivery() {
    let mut content = String::new();
    let mut state = DaemonState::default();
    let ev = event("worknode", 3, 0, "retry me");
    // The first append fails: the block is handed out but never recorded.
    assert!(apply_remote_event(&state, "laptop", &ev).is_some());
    // Redelivery: the block is handed out again, appended and recorded once.
    assert!(deliver(&mut content, &mut state, "laptop", &ev));
    assert!(!deliver(&mut content, &mut state, "laptop", &ev));
    assert_eq!(content.matches("retry me").count(), 1);
}
