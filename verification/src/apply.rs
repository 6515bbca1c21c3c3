//! Applying remote events: the loop guard, dedup, and the block to append,
//! then the record of what was applied.

use vstd::prelude::*;

use crate::event::GossipEvent;
use crate::model::{apply_step, record_step};
use crate::state::DaemonState;
use crate::text::block_for_remote;

verus! {

/// The text of an optional block, as a mathematical value.
pub open spec fn block_text(block: Option<String>) -> Option<Seq<char>> {
    match block {
        Some(b) => Some(b@),
        None => None,
    }
}

/// Decides what a remote gossip event does to the local gossip file.
///
/// An event from `local_node` itself is skipped (loop guard) and an event whose
/// `(node, seq)` is in the dedup window is skipped; both give `None`. Any other
/// event gives the block to append: the provenance header, the body, and a line
/// feed when the body lacks one. Existing content is never rewritten: the block
/// is only ever appended, after which [`record_applied`] marks the event seen, so
/// that an event whose append failed is applied when it is delivered again.
pub fn apply_remote_event(state: &DaemonState, local_node: &str, event: &GossipEvent) -> (block:
    Option<String>)
    ensures
        block_text(block) == apply_step(state@, local_node@, event@),
{
    let local = local_node.to_owned();
    if event.node == local {
        return None;
    }
    if state.has_seen(&event.node, event.seq) {
        return None;
    }
    Some(block_for_remote(event.ts, event.node.as_str(), event.body.as_str()))
}

/// Records that the block of `event` was appended: its `(node, seq)` is marked
/// seen, and the last applied seq of its node becomes the larger of the old one
/// and `event.seq`.
pub fn record_applied(state: &mut DaemonState, event: &GossipEvent)
    ensures
        final(state)@ == record_step(old(state)@, event@),
{
    state.check_and_mark_seen(event.node.as_str(), event.seq);
    state.last_applied.raise(event.node.clone(), event.seq);
}

} // verus!
