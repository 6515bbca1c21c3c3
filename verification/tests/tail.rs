use tether_gossip::{
    apply_remote_event, next_tail_event, record_applied, tail_and_publish, CaptureSink,
    DaemonState, GossipEvent, PublishSink, TetherError,
};

/// A gossip file kept in memory: tails read its length and the bytes past an offset.
struct File {
    bytes: Vec<u8>,
}

impl File {
    fn new(initial: &str) -> File {
        File { bytes: initial.as_bytes().to_vec() }
    }

    fn append(&mut self, text: &str) {
        self.bytes.extend_from_slice(text.as_bytes());
    }

    fn len(&self) -> u64 {
        self.bytes.len() as u64
    }

    /// Tails the file the way the daemon does: bytes past the offset are read
    /// only when the file grew past it.
    fn tail(
        &self,
        state: &mut DaemonState,
        local: &str,
        offset: u64,
        sink: &mut impl PublishSink,
    ) -> Result<u64, TetherError> {
        let len = self.len();
        let new_bytes: &[u8] = if len > offset { &self.bytes[offset as usize..] } else { &[] };
        tail_and_publish(state, local, offset, len, new_bytes, 1_700_000_000, sink)
    }
}

#[test]
fn tail_publishes_single_event() {
    let mut file = File::new("initial\n");
    let mut state = DaemonState::default();
    let mut sink = CaptureSink::default();

    let offset0 = file.len();
    let new_off = file.tail(&mut state, "laptop", offset0, &mut sink).expect("tail");
    assert_eq!(new_off, offset0);
    assert!(sink.drain().is_empty());

    file.append("new block\n");
    let new_off2 = file.tail(&mut state, "laptop", offset0, &mut sink).expect("tail2");
    assert!(new_off2 > offset0);
    let events = sink.drain();
    assert_eq!(events.len(), 1);
    assert_eq!(events[0].node, "laptop");
    assert_eq!(events[0].seq, 1);
    assert!(events[0].body.contains("new block"));
}

#[test]
fn tail_publishes_single_event_with_correct_body_and_seq() {
    let mut file = File::new("initial content\n");
    let mut state = DaemonState::default();
    let mut sink = CaptureSink::default();

    let offset0 = file.len();
    let off1 = file.tail(&mut state, "laptop", offset0, &mut sink).expect("tail 1");
    assert_eq!(off1, offset0, "no new content, offset unchanged");
    let drained = sink.drain();
    assert!(drained.is_empty(), "no events published when nothing new");

    let new_block = "## 2026-06-17\nsome gossip\n";
    file.append(new_block);

    let previous_seq = state.last_published_seq;
    let off2 = file.tail(&mut state, "laptop", offset0, &mut sink).expect("tail 2");
    assert!(off2 > offset0, "offset advanced after append");

    let events = sink.drain();
    assert_eq!(events.len(), 1, "exactly one event published");
    let ev = &events[0];
    assert_eq!(ev.node, "laptop", "node field correct");
    assert_eq!(ev.seq, previous_seq + 1, "seq is previous + 1");
    assert!(ev.body.contains("some gossip"), "body contains appended content");
}

#[test]
fn tail_publishes_seq_continues_from_existing_state() {
    let mut file = File::new("old\n");
    let mut state = DaemonState::default();
    state.last_published_seq = 5;
    let mut sink = CaptureSink::default();

    let offset0 = file.len();
    file.append("new block\n");
    file.tail(&mut state, "laptop", offset0, &mut sink).expect("tail");

    let events = sink.drain();
    assert_eq!(events.len(), 1);
    assert_eq!(events[0].seq, 6, "seq continues from 5 → 6");
}

#[test]
fn mock_round_trip_selftest() {
    let mut file_a = File::new("");
    let mut state_a = DaemonState::default();
    let mut sink = CaptureSink::default();

    let offset0 = file_a.len();
    let tagged_block = "## round-trip-tag-2026\nfoo bar\n";
    file_a.append(tagged_block);
    let _new_off = file_a.tail(&mut state_a, "node-a", offset0, &mut sink).expect("tail");

    let events = sink.drain();
    assert_eq!(events.len(), 1, "exactly one event published");
    let published = events.into_iter().next().expect("event");
    assert!(published.body.contains("round-trip-tag-2026"), "tagged block in published body");

    let mut content_b = String::new();
    let mut state_b = DaemonState::default();
    let block = apply_remote_event(&mut state_b, "node-b", &published);
    assert!(block.is_some(), "event must be applied to node-b");
    content_b.push_str(&block.unwrap());
    record_applied(&mut state_b, &published);
    assert!(content_b.contains("round-trip-tag-2026"), "tagged block appears in node-b gossip");
    assert!(content_b.contains("(via tether)"), "provenance header present");

    let again = apply_remote_event(&mut state_b, "node-b", &published);
    assert!(again.is_none(), "second delivery must be skipped");
    assert_eq!(content_b.matches("round-trip-tag-2026").count(), 1, "tagged block appears exactly once");
}

#[test]
fn tail_event_is_exact() {
    let mut state = DaemonState::default();
    state.last_published_seq = 9;
    let (offset, event) = next_tail_event(&state, "laptop", 4, 10, b"abc\xff\n", 123);
    assert_eq!(offset, 9);
    assert_eq!(
        event,
        Some(GossipEvent {
            node: "laptop".to_owned(),
            seq: 10,
            ts: 123,
            body: "abc\u{fffd}\n".to_owned(),
        })
    );
    assert_eq!(state.last_published_seq, 9, "deciding changes no state");
}

#[test]
fn tail_with_nothing_read_publishes_nothing() {
    let mut state = DaemonState::default();
    let (offset, event) = next_tail_event(&state, "laptop", 4, 10, b"", 1);
    assert_eq!(offset, 4);
    assert!(event.is_none());
    assert_eq!(state.last_published_seq, 0);
}

#[test]
fn tail_of_a_shrunk_file_publishes_nothing() {
    let mut state = DaemonState::default();
    let mut sink = CaptureSink::default();
    let r = tail_and_publish(&mut state, "laptop", 20, 5, b"", 1, &mut sink);
    assert_eq!(r, Ok(20));
    assert!(sink.drain().is_empty());
    assert_eq!(state.last_published_seq, 0);
}

#[test]
fn consecutive_tails_publish_consecutive_seqs() {
    let mut file = File::new("");
    let mut state = DaemonState::default();
    let mut sink = CaptureSink::default();
    let mut offset = file.len();
    for i in 0..3 {
        file.append(&format!("block {i}\n"));
        offset = file.tail(&mut state, "laptop", offset, &mut sink).expect("tail");
    }
    assert_eq!(offset, file.len());
    let events = sink.drain();
    let seqs: Vec<u64> = events.iter().map(|e| e.seq).collect();
    assert_eq!(seqs, vec![1, 2, 3]);
    assert_eq!(events[1].body, "block 1\n");
}

struct BrokenSink;

impl PublishSink for BrokenSink {
    fn publish(&mut self, _event: GossipEvent) -> Result<(), TetherError> {
        Err(TetherError::Publish("link down".to_owned()))
    }

    fn drain(&mut self) -> Vec<GossipEvent> {
        Vec::new()
    }
}

#[test]
fn sink_error_leaves_the_counter_alone() {
    let mut state = DaemonState::default();
    let mut sink = BrokenSink;
    let r = tail_and_publish(&mut state, "laptop", 0, 3, b"abc", 1, &mut sink);
    assert_eq!(r, Err(TetherError::Publish("link down".to_owned())));
    assert_eq!(state.last_published_seq, 0, "nothing was published");
    let mut capture = CaptureSink::default();
    let r2 = tail_and_publish(&mut state, "laptop", 0, 3, b"abc", 1, &mut capture);
    assert_eq!(r2, Ok(3));
    assert_eq!(capture.drain()[0].seq, 1, "the next published event gets seq 1");
}

#[test]
fn capture_sink_keeps_order_and_drains() {
    let mut sink = CaptureSink::default();
    for seq in 1..=2 {
        let ev = GossipEvent { node: "n".to_owned(), seq, ts: 0, body: String::new() };
        assert_eq!(sink.publish(ev), Ok(()));
    }
    let events = sink.drain();
    assert_eq!(events.iter().map(|e| e.seq).collect::<Vec<_>>(), vec![1, 2]);
    assert!(sink.drain().is_empty());
}

#[test]
fn offset_moves_past_exactly_the_bytes_read() {
    let mut state = DaemonState::default();
    let mut sink = CaptureSink::default();
    // The length was taken at 6, but 9 bytes were there when they were read.
    let r = tail_and_publish(&mut state, "laptop", 2, 6, b"abcdefghi", 1, &mut sink);
    assert_eq!(r, Ok(11));
    let events = sink.drain();
    assert_eq!(events.len(), 1);
    assert_eq!(events[0].body, "abcdefghi");
    // A tail from the returned offset publishes none of those bytes again.
    let r2 = tail_and_publish(&mut state, "laptop", 11, 11, b"", 2, &mut sink);
    assert_eq!(r2, Ok(11));
    assert!(sink.drain().is_empty());
}

#[test]
fn tail_publishes_event_after_restart() {
    let mut file = File::new("block 0\nblock 1\nblock 2\n");
    let mut state = DaemonState::default();
    state.last_published_seq = 3;
    let mut sink = CaptureSink::default();
    let offset = file.len();
    file.append("post-restart block\n");
    let r = file.tail(&mut state, "laptop", offset, &mut sink);
    assert_eq!(r, Ok(43));
    let events = sink.drain();
    assert_eq!(events.len(), 1);
    assert_eq!(events[0].seq, 4);
    assert_eq!(events[0].body, "post-restart block\n");
    assert_eq!(state.last_published_seq, 4);
}
