use tether_gossip::{record_applied, status_report, DaemonState, GossipEvent};

#[test]
fn status_of_fresh_state() {
    let state = DaemonState::default();
    assert_eq!(
        status_report(&state),
        "last_published_seq: 0\nseen_ids_count: 0\nlast_applied: (none)\n"
    );
}

#[test]
fn status_lists_nodes_in_ascending_order() {
    let mut state = DaemonState::default();
    state.last_published_seq = 10;
    state.last_applied.insert("worknode".to_owned(), 5);
    state.last_applied.insert("alpha".to_owned(), 12);
    state.last_applied.insert("Zed".to_owned(), 1);
    state.last_applied.insert("ä-node".to_owned(), 2);
    state.seen_ids.push(("worknode".to_owned(), 5));
    state.seen_ids.push(("alpha".to_owned(), 12));
    assert_eq!(
        status_report(&state),
        "last_published_seq: 10\nseen_ids_count: 2\nlast_applied:\n  Zed: 1\n  alpha: 12\n  worknode: 5\n  ä-node: 2\n"
    );
}

#[test]
fn status_after_applied_event() {
    let mut state = DaemonState::default();
    let ev = GossipEvent { node: "worknode".to_owned(), seq: 7, ts: 0, body: "b".to_owned() };
    record_applied(&mut state, &ev);
    assert!(status_report(&state).contains("last_published_seq: 0\nseen_ids_count: 1\nlast_applied:\n  worknode: 7\n"));
}
