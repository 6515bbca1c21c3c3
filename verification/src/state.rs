//! The persistent state of the mirror on one node: the publish counter, the
//! highest sequence number applied per remote node, and the dedup window.

use vstd::prelude::*;

use crate::event::{EventId, EventKey};
use crate::model::{mark_seen, window_push, DaemonStateView, MAX_DEDUP};
use crate::node_map::{EventIdSet, NodeSeqMap};

verus! {

/// The identities held in a dedup window, as mathematical values.
pub open spec fn window_keys(ids: Seq<(String, u64)>) -> Seq<EventKey> {
    ids.map_values(|p: (String, u64)| (p.0@, p.1))
}

/// Persistent state of the mirror on a given node.
#[derive(Debug, Clone)]
pub struct DaemonState {
    /// Last seq this node published. Monotonically increasing.
    pub last_published_seq: u64,
    /// Last seq applied per remote node (node name to last applied seq).
    pub last_applied: NodeSeqMap,
    /// Seen event IDs for dedup, oldest first (bounded; the oldest are dropped
    /// when there are more than the window holds).
    pub seen_ids: Vec<(String, u64)>,
}

impl View for DaemonState {
    type V = DaemonStateView;

    open spec fn view(&self) -> DaemonStateView {
        DaemonStateView {
            last_published_seq: self.last_published_seq,
            last_applied: self.last_applied@,
            seen: window_keys(self.seen_ids@),
        }
    }
}

impl Default for DaemonState {
    /// A fresh state: nothing published, nothing applied, nothing seen.
    fn default() -> (s: Self)
        ensures
            s@.last_published_seq == 0,
            s@.last_applied == Map::<Seq<char>, u64>::empty(),
            s@.seen == Seq::<EventKey>::empty(),
    {
        let s = DaemonState {
            last_published_seq: 0,
            last_applied: NodeSeqMap::new(),
            seen_ids: Vec::new(),
        };
        proof {
            assert(window_keys(s.seen_ids@) =~= Seq::<EventKey>::empty());
        }
        s
    }
}

/// Whether `(node, seq)` is among `ids`.
fn window_contains(ids: &Vec<(String, u64)>, node: &String, seq: u64) -> (r: bool)
    ensures
        r == window_keys(ids@).contains((node@, seq)),
{
    let mut i: usize = 0;
    while i < ids.len()
        invariant
            i <= ids@.len(),
            forall|j: int| 0 <= j < i ==> #[trigger] window_keys(ids@)[j] != (node@, seq),
        decreases ids@.len() - i,
    {
        proof {
            assert(window_keys(ids@)[i as int] == (ids@[i as int].0@, ids@[i as int].1));
        }
        if ids[i].1 == seq && ids[i].0 == *node {
            return true;
        }
        i = i + 1;
    }
    false
}

impl DaemonState {
    /// Whether `(node, seq)` is in the dedup window.
    pub fn has_seen(&self, node: &String, seq: u64) -> (r: bool)
        ensures
            r == self@.seen.contains((node@, seq)),
    {
        window_contains(&self.seen_ids, node, seq)
    }

    /// Checks whether `(node, seq)` was already seen and marks it seen.
    ///
    /// Returns `true` if it was already seen (duplicate), `false` if new. A new
    /// identity goes last in the window, and when the window then holds more
    /// than [`MAX_DEDUP`] identities, the oldest are dropped.
    pub fn check_and_mark_seen(&mut self, node: &str, seq: u64) -> (already: bool)
        ensures
            (final(self)@, already) == mark_seen(old(self)@, (node@, seq)),
    {
        let id = node.to_owned();
        let already = window_contains(&self.seen_ids, &id, seq);
        if !already {
            let ghost before = self.seen_ids@;
            self.seen_ids.push((id, seq));
            proof {
                assert(window_keys(self.seen_ids@) =~= window_keys(before).push((node@, seq)));
            }
            let len = self.seen_ids.len();
            if len > MAX_DEDUP {
                let excess = len - MAX_DEDUP;
                let ghost pushed = self.seen_ids@;
                let kept = self.seen_ids.split_off(excess);
                self.seen_ids = kept;
                proof {
                    assert(window_keys(self.seen_ids@) =~= window_keys(pushed).subrange(
                        excess as int,
                        pushed.len() as int,
                    ));
                }
            }
            proof {
                assert(window_keys(self.seen_ids@) == window_push(
                    window_keys(before),
                    (node@, seq),
                ));
            }
        }
        already
    }

    /// Returns the next seq for this node and advances the counter.
    pub fn next_seq(&mut self) -> (seq: u64)
        requires
            old(self).last_published_seq < u64::MAX,
        ensures
            seq == old(self).last_published_seq + 1,
            final(self).last_published_seq == seq,
            final(self).last_applied == old(self).last_applied,
            final(self).seen_ids == old(self).seen_ids,
    {
        self.last_published_seq = self.last_published_seq + 1;
        self.last_published_seq
    }
}

/// The set of seen event identities of `state`, for quick lookups.
pub fn seen_set(state: &DaemonState) -> (set: EventIdSet)
    ensures
        set@ == state@.seen.to_set(),
{
    let mut set = EventIdSet::new();
    let mut i: usize = 0;
    while i < state.seen_ids.len()
        invariant
            i <= state.seen_ids@.len(),
            set@ == window_keys(state.seen_ids@).take(i as int).to_set(),
        decreases state.seen_ids@.len() - i,
    {
        let id = EventId { node: state.seen_ids[i].0.clone(), seq: state.seen_ids[i].1 };
        let ghost prefix = window_keys(state.seen_ids@).take(i as int);
        set.insert(id);
        proof {
            let keys = window_keys(state.seen_ids@);
            assert(keys[i as int] == (state.seen_ids@[i as int].0@, state.seen_ids@[i as int].1));
            assert(keys.take(i + 1) =~= prefix.push(keys[i as int]));
            prefix.lemma_push_to_set_commute(keys[i as int]);
        }
        i = i + 1;
    }
    proof {
        assert(window_keys(state.seen_ids@).take(i as int) =~= window_keys(state.seen_ids@));
    }
    set
}

} // verus!
