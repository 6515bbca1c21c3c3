//! A mirror of an append-only gossip log between machines.
//!
//! When the local gossip file grows, the new bytes are published as one event
//! `{node, seq, ts, body}` with the next sequence number of the node. When an
//! event of another node arrives, its body is appended to the local file under
//! a `(via tether)` provenance header, unless it is an echo of the node's own
//! event or its `(node, seq)` was seen already.
//!
//! The modules: `event` (events, identities, errors), `text` (the header and
//! block text), `order` (the order of node names), `model` (the mathematical
//! state and steps), `node_map` (collections keyed by node names), `state` (the
//! persistent state), `status` (the status report), `apply` (remote events),
//! `tail` (local growth and sinks), `daemon` (the bookkeeping of the daemon
//! loop), and `laws` (properties over several steps).

pub mod apply;
pub mod daemon;
pub mod event;
pub mod laws;
pub mod model;
pub mod node_map;
pub mod order;
pub mod state;
pub mod status;
pub mod tail;
pub mod text;

pub use apply::{apply_remote_event, record_applied};
pub use daemon::{after_apply, after_tail, node_name, LoopUpdate};
pub use event::{file_byte_len, EventId, FileStat, GossipEvent, TetherError, GOSSIP_SUBJECT};
pub use model::MAX_DEDUP;
pub use node_map::{EventIdSet, NodeSeqMap};
pub use state::{seen_set, DaemonState};
pub use status::status_report;
pub use tail::{next_tail_event, tail_and_publish, CaptureSink, PublishSink};
pub use text::{block_for_remote, provenance_header};
