//! The events carried over the fleet bus, their identities, and the errors of
//! the library.

use vstd::prelude::*;
use vstd::std_specs::convert::FromSpecImpl;

verus! {

/// The subject on which gossip events are published.
pub const GOSSIP_SUBJECT: &'static str = "wm.fleet.gossip.append";

/// A gossip event published or received over the fleet bus.
#[derive(Debug, Clone, PartialEq, Eq)]
pub struct GossipEvent {
    /// The originating node name (e.g. "laptop", "worknode").
    pub node: String,
    /// Monotonic per-node counter, persisted across restarts.
    pub seq: u64,
    /// Unix timestamp (seconds since epoch) when the event was created.
    pub ts: u64,
    /// The appended text block from the gossip file.
    pub body: String,
}

/// The mathematical content of a [`GossipEvent`].
pub struct GossipEventView {
    pub node: Seq<char>,
    pub seq: u64,
    pub ts: u64,
    pub body: Seq<char>,
}

impl View for GossipEvent {
    type V = GossipEventView;

    open spec fn view(&self) -> GossipEventView {
        GossipEventView { node: self.node@, seq: self.seq, ts: self.ts, body: self.body@ }
    }
}

/// The identity of an event as a mathematical value: its node and sequence number.
pub type EventKey = (Seq<char>, u64);

/// Unique identity for a gossip event, used for deduplication.
#[derive(Debug, Clone, PartialEq, Eq, Hash)]
pub struct EventId {
    /// Node that produced the event.
    pub node: String,
    /// Sequence number at that node.
    pub seq: u64,
}

impl EventId {
    /// The identity as a mathematical value.
    pub open spec fn key(&self) -> EventKey {
        (self.node@, self.seq)
    }
}

impl From<&GossipEvent> for EventId {
    fn from(ev: &GossipEvent) -> (id: Self) {
        EventId { node: ev.node.clone(), seq: ev.seq }
    }
}

impl FromSpecImpl<&GossipEvent> for EventId {
    open spec fn obeys_from_spec() -> bool {
        true
    }

    open spec fn from_spec(ev: &GossipEvent) -> EventId {
        EventId { node: ev.node, seq: ev.seq }
    }
}

/// Errors of the mirror.
#[derive(Debug, Clone, PartialEq, Eq)]
pub enum TetherError {
    /// A file could not be inspected, read or written; the message says why.
    Io(String),
    /// A sink refused an event; the message says why.
    Publish(String),
}

/// What inspecting the gossip file found.
#[derive(Debug, Clone, PartialEq, Eq)]
pub enum FileStat {
    /// The file exists and holds this many bytes.
    Present(u64),
    /// There is no file at the path.
    Missing,
    /// The file could not be inspected; the message says why.
    Failed(String),
}

/// The byte length of the gossip file as the mirror counts it: a missing file
/// counts as empty, and a failure to inspect the file is an error.
pub fn file_byte_len(stat: FileStat) -> (r: Result<u64, TetherError>)
    ensures
        match stat {
            FileStat::Present(n) => r == Ok::<u64, TetherError>(n),
            FileStat::Missing => r == Ok::<u64, TetherError>(0),
            FileStat::Failed(msg) => r == Err::<u64, TetherError>(TetherError::Io(msg)),
        },
{
    match stat {
        FileStat::Present(n) => Ok(n),
        FileStat::Missing => Ok(0),
        FileStat::Failed(msg) => Err(TetherError::Io(msg)),
    }
}

} // verus!
