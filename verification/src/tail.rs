//! Tailing the local gossip file: what is published when it grows, and the
//! sinks that events are published to.

use vstd::prelude::*;

use crate::event::{GossipEvent, GossipEventView, TetherError};
use crate::model::{tail_fits, tail_publishes, tail_step};
use crate::state::DaemonState;
use crate::text::text_from_bytes_lossy;
use vstd::utf8::{decode_utf8_encode_utf8, encode_utf8, valid_utf8};

verus! {

/// A sink for published gossip events.
///
/// A sink that keeps a record of what it took says so with `keeps_log` and
/// gives the record as `published`; a sink that does not (one that sends events
/// away) keeps the defaults, and nothing is then claimed of what it took. A
/// sink that can say in advance which events it takes says so with
/// `reports_acceptance` and gives the rule as `accepts`.
pub trait PublishSink: Send {
    /// Whether the sink keeps a record of the events it took.
    open spec fn keeps_log() -> bool {
        false
    }

    /// Whether `accepts` says when publishing succeeds.
    open spec fn reports_acceptance() -> bool {
        false
    }

    /// Whether the sink, as it is, takes `event` when it is published.
    open spec fn accepts(&self, event: GossipEventView) -> bool {
        true
    }

    /// The events the sink has taken, oldest first, when it keeps a record.
    open spec fn published(&self) -> Seq<GossipEventView> {
        Seq::empty()
    }

    /// Publishes a `GossipEvent`. Returns an error if the sink is broken; when
    /// it returns `Ok`, the event was taken, after those taken before.
    fn publish(&mut self, event: GossipEvent) -> (r: Result<(), TetherError>)
        ensures
            Self::keeps_log() && r is Ok ==> final(self).published() == old(self).published().push(
                event@,
            ),
            Self::reports_acceptance() ==> (r is Ok <==> old(self).accepts(event@)),
    ;

    /// Drains all events collected so far.
    fn drain(&mut self) -> Vec<GossipEvent>;
}

/// The events of `events` as mathematical values.
pub open spec fn event_views(events: Seq<GossipEvent>) -> Seq<GossipEventView> {
    events.map_values(|e: GossipEvent| e@)
}

/// In-memory publish sink: it keeps every published event until drained.
#[derive(Debug)]
pub struct CaptureSink {
    events: Vec<GossipEvent>,
}

impl View for CaptureSink {
    type V = Seq<GossipEventView>;

    closed spec fn view(&self) -> Seq<GossipEventView> {
        event_views(self.events@)
    }
}

impl Default for CaptureSink {
    /// A sink that holds no event.
    fn default() -> (sink: Self)
        ensures
            sink@ == Seq::<GossipEventView>::empty(),
    {
        let sink = CaptureSink { events: Vec::new() };
        proof {
            assert(event_views(sink.events@) =~= Seq::<GossipEventView>::empty());
        }
        sink
    }
}

impl PublishSink for CaptureSink {
    open spec fn keeps_log() -> bool {
        true
    }

    open spec fn reports_acceptance() -> bool {
        true
    }

    open spec fn accepts(&self, event: GossipEventView) -> bool {
        true
    }

    open spec fn published(&self) -> Seq<GossipEventView> {
        self@
    }

    /// Keeps `event` after those already held; never fails.
    fn publish(&mut self, event: GossipEvent) -> (r: Result<(), TetherError>)
        ensures
            final(self)@ == old(self)@.push(event@),
            r is Ok,
    {
        let ghost v = event@;
        self.events.push(event);
        proof {
            assert(event_views(self.events@) =~= event_views(old(self).events@).push(v));
        }
        Ok(())
    }

    /// Hands out the events held, oldest first, and empties the sink.
    fn drain(&mut self) -> (events: Vec<GossipEvent>)
        ensures
            event_views(events@) == old(self)@,
            final(self)@ == Seq::<GossipEventView>::empty(),
    {
        let mut events: Vec<GossipEvent> = Vec::new();
        std::mem::swap(&mut events, &mut self.events);
        proof {
            assert(event_views(self.events@) =~= Seq::<GossipEventView>::empty());
        }
        events
    }
}

/// The event of an optional tail, as a mathematical value.
pub open spec fn event_view(event: Option<GossipEvent>) -> Option<GossipEventView> {
    match event {
        Some(e) => Some(e@),
        None => None,
    }
}

/// Decides what one tail of the local gossip file publishes.
///
/// `current_len` is the length of the file, `known_offset` the length already
/// handled, `new_bytes` what was read from that offset (unused when the file did
/// not grow) and `ts` the time of the tail in seconds since the epoch. When the
/// file did not grow past the offset, or nothing new was read, the offset stays
/// and no event is made. Otherwise the new bytes, decoded as UTF-8 with invalid
/// sequences replaced, become one event of `local_node` with the next seq, and
/// the new offset is `known_offset` plus the number of bytes read. When the new
/// bytes are valid UTF-8, the body is exactly their text: its UTF-8 encoding is
/// the new bytes. The state is not changed here: the counter advances only once
/// the event was published (see [`tail_and_publish`]).
pub fn next_tail_event(
    state: &DaemonState,
    local_node: &str,
    known_offset: u64,
    current_len: u64,
    new_bytes: &[u8],
    ts: u64,
) -> (r: (u64, Option<GossipEvent>))
    requires
        tail_fits(state@, known_offset, current_len, new_bytes@),
    ensures
        r.0 == tail_step(state@, local_node@, known_offset, current_len, new_bytes@, ts).1,
        event_view(r.1) == tail_step(
            state@,
            local_node@,
            known_offset,
            current_len,
            new_bytes@,
            ts,
        ).2,
        tail_publishes(known_offset, current_len, new_bytes@) && valid_utf8(new_bytes@) ==> (
        r.1 matches Some(e) && encode_utf8(e.body@) == new_bytes@),
{
    if current_len <= known_offset {
        return (known_offset, None);
    }
    if new_bytes.len() == 0 {
        return (known_offset, None);
    }
    let body = text_from_bytes_lossy(new_bytes);
    proof {
        if valid_utf8(new_bytes@) {
            decode_utf8_encode_utf8(new_bytes@);
        }
    }
    let seq = state.last_published_seq + 1;
    let offset = known_offset + new_bytes.len() as u64;
    let event = GossipEvent { node: local_node.to_owned(), seq, ts, body };
    (offset, Some(event))
}

/// One tail of the local gossip file: publishes its new content, if any, to
/// `sink` as one event, and returns the new file offset.
///
/// The inputs are those of [`next_tail_event`], which decides the event. If
/// nothing new was appended, returns `known_offset` unchanged and publishes
/// nothing. Otherwise the event is handed to the sink; when the sink takes it,
/// the publish counter advances to its seq and the new offset is returned; when
/// the sink fails, its error is returned and the state is left as it was, so
/// that the next published event still gets the next seq. For a sink that
/// keeps a record of what it took, the record grows by exactly that event; for
/// a sink that says which events it takes, the tail succeeds exactly when the
/// sink takes the event. When the new bytes are valid UTF-8, the published body
/// is exactly their text.
pub fn tail_and_publish<S: PublishSink>(
    state: &mut DaemonState,
    local_node: &str,
    known_offset: u64,
    current_len: u64,
    new_bytes: &[u8],
    ts: u64,
    sink: &mut S,
) -> (r: Result<u64, TetherError>)
    requires
        tail_fits(old(state)@, known_offset, current_len, new_bytes@),
    ensures
        !tail_publishes(known_offset, current_len, new_bytes@) ==> r == Ok::<u64, TetherError>(
            known_offset,
        ) && final(state)@ == old(state)@ && *final(sink) == *old(sink),
        tail_publishes(known_offset, current_len, new_bytes@) && r is Ok ==> ({
            let step = tail_step(old(state)@, local_node@, known_offset, current_len, new_bytes@, ts);
            &&& r == Ok::<u64, TetherError>(step.1)
            &&& final(state)@ == step.0
            &&& S::keeps_log() ==> final(sink).published() == old(sink).published().push(
                step.2.unwrap(),
            )
        }),
        r is Err ==> final(state)@ == old(state)@,
        S::reports_acceptance() && tail_publishes(known_offset, current_len, new_bytes@) ==> (r is Ok
            <==> old(sink).accepts(
            tail_step(old(state)@, local_node@, known_offset, current_len, new_bytes@, ts).2.unwrap(),
        )),
        tail_publishes(known_offset, current_len, new_bytes@) && valid_utf8(new_bytes@)
            ==> encode_utf8(
            tail_step(old(state)@, local_node@, known_offset, current_len, new_bytes@, ts).2.unwrap().body,
        ) == new_bytes@,
{
    let (offset, event) = next_tail_event(&*state, local_node, known_offset, current_len, new_bytes, ts);
    match event {
        Some(e) => {
            sink.publish(e)?;
            state.next_seq();
            Ok(offset)
        },
        None => Ok(offset),
    }
}

} // verus!
