use tether_gossip::{
    after_apply, after_tail, next_tail_event, node_name, CaptureSink, DaemonState, GossipEvent,
    LoopUpdate, PublishSink,
};

#[test]
fn tail_that_moves_the_offset_saves_state() {
    assert_eq!(after_tail(10, Some(25)), LoopUpdate { known_offset: 25, save_state: true });
}

#[test]
fn tail_that_keeps_the_offset_saves_nothing() {
    assert_eq!(after_tail(10, Some(10)), LoopUpdate { known_offset: 10, save_state: false });
}

#[test]
fn failed_tail_keeps_the_offset() {
    assert_eq!(after_tail(10, None), LoopUpdate { known_offset: 10, save_state: false });
}

#[test]
fn applied_block_moves_the_offset_past_the_block_only() {
    assert_eq!(
        after_apply(10, Some(true), Some(10), 70),
        LoopUpdate { known_offset: 80, save_state: true }
    );
}

#[test]
fn applied_block_after_unpublished_local_bytes_keeps_the_offset() {
    assert_eq!(
        after_apply(10, Some(true), Some(25), 70),
        LoopUpdate { known_offset: 10, save_state: true }
    );
    assert_eq!(
        after_apply(10, Some(true), None, 70),
        LoopUpdate { known_offset: 10, save_state: true }
    );
}

#[test]
fn skipped_or_failed_apply_changes_nothing() {
    assert_eq!(
        after_apply(10, Some(false), Some(10), 70),
        LoopUpdate { known_offset: 10, save_state: false }
    );
    assert_eq!(after_apply(10, None, Some(10), 70), LoopUpdate { known_offset: 10, save_state: false });
}

#[test]
fn applied_block_is_not_published_again() {
    let state = DaemonState::default();
    let update = after_apply(14, Some(true), Some(14), 46);
    let (offset, event) = next_tail_event(&state, "laptop", update.known_offset, 60, b"", 5);
    assert_eq!(offset, 60);
    assert!(event.is_none());
    assert_eq!(state.last_published_seq, 0);
}

#[test]
fn node_name_prefers_given_then_host() {
    assert_eq!(node_name(Some("laptop".to_owned()), Some("host".to_owned())), "laptop");
    assert_eq!(node_name(None, Some("host".to_owned())), "host");
    assert_eq!(node_name(None, None), "unknown");
}

/// A daemon over a gossip file kept in memory, run the way the program runs it.
struct Daemon {
    file: Vec<u8>,
    offset: u64,
    state: DaemonState,
    sink: CaptureSink,
}

impl Daemon {
    fn tick(&mut self) {
        let len = self.file.len() as u64;
        let bytes: Vec<u8> =
            if len > self.offset { self.file[self.offset as usize..].to_vec() } else { Vec::new() };
        let r = tether_gossip::tail_and_publish(
            &mut self.state,
            "laptop",
            self.offset,
            len,
            &bytes,
            0,
            &mut self.sink,
        );
        self.offset = after_tail(self.offset, r.ok()).known_offset;
    }

    fn remote(&mut self, event: &GossipEvent) {
        if let Some(block) = tether_gossip::apply_remote_event(&self.state, "laptop", event) {
            self.tick();
            let len_before = Some(self.file.len() as u64);
            self.file.extend_from_slice(block.as_bytes());
            tether_gossip::record_applied(&mut self.state, event);
            self.offset =
                after_apply(self.offset, Some(true), len_before, block.len() as u64).known_offset;
        }
    }
}

#[test]
fn every_local_append_is_published_once_and_remote_blocks_never() {
    let startup = b"# gossip\n".to_vec();
    let mut d = Daemon {
        offset: startup.len() as u64,
        file: startup,
        state: DaemonState::default(),
        sink: CaptureSink::default(),
    };
    let remote = GossipEvent { node: "worknode".to_owned(), seq: 1, ts: 9, body: "remote".to_owned() };
    d.file.extend_from_slice(b"local one\n");
    d.remote(&remote);
    d.tick();
    d.file.extend_from_slice(b"local two\n");
    d.remote(&remote);
    d.tick();
    let bodies: Vec<String> = d.sink.drain().into_iter().map(|e| e.body).collect();
    assert_eq!(bodies, vec!["local one\n".to_owned(), "local two\n".to_owned()]);
    assert_eq!(d.offset, d.file.len() as u64);
}
