//! The mathematical model of the mirror: its state, and what each step does
//! to it. The executable functions are specified against these definitions.

use vstd::prelude::*;

use crate::event::{EventKey, GossipEventView};
use crate::text::{applied_block, lossy_utf8};

verus! {

/// How many event identities the dedup window keeps; older ones are dropped first.
pub const MAX_DEDUP: usize = 10000;

/// The state of the mirror on one node, as a mathematical value.
pub struct DaemonStateView {
    /// Last sequence number this node published.
    pub last_published_seq: u64,
    /// Highest sequence number applied from each remote node.
    pub last_applied: Map<Seq<char>, u64>,
    /// The dedup window: identities of remote events seen, oldest first.
    pub seen: Seq<EventKey>,
}

/// The dedup window `window` after `id` is added: the identity goes last, and when
/// the window then holds more than [`MAX_DEDUP`] identities, only the newest
/// [`MAX_DEDUP`] stay.
pub open spec fn window_push(window: Seq<EventKey>, id: EventKey) -> Seq<EventKey> {
    let pushed = window.push(id);
    if pushed.len() > MAX_DEDUP {
        pushed.subrange(pushed.len() - MAX_DEDUP, pushed.len() as int)
    } else {
        pushed
    }
}

/// Marks `id` as seen: the answer is whether it was in the window already;
/// only a new identity changes the state.
pub open spec fn mark_seen(m: DaemonStateView, id: EventKey) -> (DaemonStateView, bool) {
    if m.seen.contains(id) {
        (m, true)
    } else {
        (
            DaemonStateView {
                last_published_seq: m.last_published_seq,
                last_applied: m.last_applied,
                seen: window_push(m.seen, id),
            },
            false,
        )
    }
}

/// What a remote event `e` delivered on node `local` calls for: an event of the
/// node itself is skipped (loop guard); an event whose identity is in the dedup
/// window is skipped; for any other event, its block (provenance header, body,
/// final line feed) is to be appended. Deciding changes no state: the event is
/// marked seen only once its block was appended (see [`record_step`]).
pub open spec fn apply_step(m: DaemonStateView, local: Seq<char>, e: GossipEventView) -> Option<
    Seq<char>,
> {
    if e.node == local || m.seen.contains((e.node, e.seq)) {
        None
    } else {
        Some(applied_block(e.ts, e.node, e.body))
    }
}

/// The highest sequence number applied from `node` once `seq` is applied too.
pub open spec fn raised(applied: Map<Seq<char>, u64>, node: Seq<char>, seq: u64) -> u64 {
    if applied.contains_key(node) && applied[node] > seq {
        applied[node]
    } else {
        seq
    }
}

/// What recording the appended block of a remote event `e` does: its identity is
/// marked seen, and the last applied sequence number of its node becomes the
/// larger of the old one and `e.seq`.
pub open spec fn record_step(m: DaemonStateView, e: GossipEventView) -> DaemonStateView {
    let marked = mark_seen(m, (e.node, e.seq)).0;
    DaemonStateView {
        last_published_seq: marked.last_published_seq,
        last_applied: marked.last_applied.insert(e.node, raised(marked.last_applied, e.node, e.seq)),
        seen: marked.seen,
    }
}

/// What one tail of the local gossip file does on node `local`, when the file
/// was `current_len` bytes long, `known_offset` bytes had been handled before,
/// and `new_bytes` were read from that offset: when nothing new is there, nothing
/// changes and the offset stays; otherwise the new bytes are published as one
/// event stamped `ts` with the next sequence number, the sequence number
/// advances by one, and the offset moves past exactly the bytes that were read
/// (so that each byte goes out in exactly one event, also when another writer
/// appended after the length was taken).
pub open spec fn tail_step(
    m: DaemonStateView,
    local: Seq<char>,
    known_offset: u64,
    current_len: u64,
    new_bytes: Seq<u8>,
    ts: u64,
) -> (DaemonStateView, u64, Option<GossipEventView>) {
    if !tail_publishes(known_offset, current_len, new_bytes) {
        (m, known_offset, None)
    } else {
        let seq = (m.last_published_seq + 1) as u64;
        (
            DaemonStateView {
                last_published_seq: seq,
                last_applied: m.last_applied,
                seen: m.seen,
            },
            (known_offset + new_bytes.len()) as u64,
            Some(GossipEventView { node: local, seq, ts, body: lossy_utf8(new_bytes) }),
        )
    }
}

/// Whether a tail with these inputs publishes an event.
pub open spec fn tail_publishes(known_offset: u64, current_len: u64, new_bytes: Seq<u8>) -> bool {
    current_len > known_offset && new_bytes.len() > 0
}

/// Whether a tail with these inputs can be carried out: when it publishes, the
/// sequence number and the new offset fit in 64 bits.
pub open spec fn tail_fits(
    m: DaemonStateView,
    known_offset: u64,
    current_len: u64,
    new_bytes: Seq<u8>,
) -> bool {
    tail_publishes(known_offset, current_len, new_bytes) ==> m.last_published_seq < u64::MAX
        && known_offset + new_bytes.len() <= u64::MAX
}

} // verus!
