use tether_gossip::{seen_set, DaemonState, EventId, GossipEvent, NodeSeqMap, MAX_DEDUP};

#[test]
fn daemon_state_default_seq_starts_at_zero() {
    let s = DaemonState::default();
    assert_eq!(s.last_published_seq, 0);
}

#[test]
fn daemon_state_next_seq_increments() {
    let mut s = DaemonState::default();
    assert_eq!(s.next_seq(), 1);
    assert_eq!(s.next_seq(), 2);
}

#[test]
fn dedup_marks_seen() {
    let mut s = DaemonState::default();
    assert!(!s.check_and_mark_seen("node1", 1));
    assert!(s.check_and_mark_seen("node1", 1));
    assert!(!s.check_and_mark_seen("node1", 2));
}

#[test]
fn next_seq_continues_from_loaded_value() {
    let mut s = DaemonState::default();
    s.last_published_seq = 41;
    assert_eq!(s.next_seq(), 42);
    assert_eq!(s.last_published_seq, 42);
}

#[test]
fn dedup_distinguishes_nodes() {
    let mut s = DaemonState::default();
    assert!(!s.check_and_mark_seen("a", 7));
    assert!(!s.check_and_mark_seen("b", 7));
    assert!(s.check_and_mark_seen("a", 7));
    assert!(s.check_and_mark_seen("b", 7));
    assert_eq!(s.seen_ids.len(), 2);
}

#[test]
fn dedup_window_drops_oldest_beyond_bound() {
    let mut s = DaemonState::default();
    for seq in 0..(MAX_DEDUP as u64 + 1) {
        assert!(!s.check_and_mark_seen("n", seq));
    }
    assert_eq!(s.seen_ids.len(), MAX_DEDUP);
    assert_eq!(s.seen_ids[0], ("n".to_owned(), 1));
    assert_eq!(s.seen_ids[MAX_DEDUP - 1], ("n".to_owned(), MAX_DEDUP as u64));
    // The oldest identity left the window, so it counts as new again.
    assert!(!s.check_and_mark_seen("n", 0));
    assert!(s.check_and_mark_seen("n", 2));
}

#[test]
fn dedup_trims_an_oversized_loaded_window() {
    let mut s = DaemonState::default();
    for seq in 0..(MAX_DEDUP as u64 + 5) {
        s.seen_ids.push(("old".to_owned(), seq));
    }
    assert!(!s.check_and_mark_seen("new", 1));
    assert_eq!(s.seen_ids.len(), MAX_DEDUP);
    assert_eq!(s.seen_ids[MAX_DEDUP - 1], ("new".to_owned(), 1));
    assert_eq!(s.seen_ids[0], ("old".to_owned(), 6));
}

#[test]
fn duplicate_check_leaves_window_unchanged() {
    let mut s = DaemonState::default();
    s.check_and_mark_seen("x", 1);
    s.check_and_mark_seen("y", 2);
    let before = s.seen_ids.clone();
    assert!(s.check_and_mark_seen("x", 1));
    assert_eq!(s.seen_ids, before);
}

#[test]
fn seen_set_holds_each_identity_once() {
    let mut s = DaemonState::default();
    s.seen_ids.push(("a".to_owned(), 1));
    s.seen_ids.push(("b".to_owned(), 2));
    s.seen_ids.push(("a".to_owned(), 1));
    let set = seen_set(&s);
    assert_eq!(set.len(), 2);
    assert!(!set.is_empty());
    assert!(set.contains(&EventId { node: "a".to_owned(), seq: 1 }));
    assert!(set.contains(&EventId { node: "b".to_owned(), seq: 2 }));
    assert!(!set.contains(&EventId { node: "a".to_owned(), seq: 2 }));
}

#[test]
fn seen_set_of_fresh_state_is_empty() {
    let s = DaemonState::default();
    let set = seen_set(&s);
    assert!(set.is_empty());
    assert_eq!(set.len(), 0);
}

#[test]
fn event_id_from_event() {
    let ev = GossipEvent {
        node: "worknode".to_owned(),
        seq: 9,
        ts: 3,
        body: "b".to_owned(),
    };
    let id = EventId::from(&ev);
    assert_eq!(id, EventId { node: "worknode".to_owned(), seq: 9 });
}

#[test]
fn node_map_insert_get_and_entries() {
    let mut m = NodeSeqMap::new();
    assert!(m.is_empty());
    assert_eq!(m.insert("worknode".to_owned(), 5), None);
    assert_eq!(m.insert("laptop".to_owned(), 2), None);
    assert_eq!(m.insert("worknode".to_owned(), 3), Some(5));
    assert_eq!(m.get("worknode"), Some(3));
    assert_eq!(m.get("laptop"), Some(2));
    assert_eq!(m.get("other"), None);
    assert!(!m.is_empty());
    let mut entries = m.entries();
    entries.sort();
    assert_eq!(entries, vec![("laptop".to_owned(), 2), ("worknode".to_owned(), 3)]);
}

#[test]
fn node_map_raise_keeps_the_maximum() {
    let mut m = NodeSeqMap::new();
    m.raise("w".to_owned(), 4);
    assert_eq!(m.get("w"), Some(4));
    m.raise("w".to_owned(), 2);
    assert_eq!(m.get("w"), Some(4));
    m.raise("w".to_owned(), 9);
    assert_eq!(m.get("w"), Some(9));
}

#[test]
fn cloned_state_is_independent() {
    let mut s = DaemonState::default();
    s.last_applied.insert("w".to_owned(), 3);
    s.check_and_mark_seen("w", 3);
    let mut c = s.clone();
    c.last_applied.insert("w".to_owned(), 9);
    assert_eq!(s.last_applied.get("w"), Some(3));
    assert_eq!(c.last_applied.get("w"), Some(9));
    assert_eq!(c.seen_ids, s.seen_ids);
}
