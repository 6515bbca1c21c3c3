//! Properties of the mirror that span several steps, proved over the model.

use vstd::prelude::*;

use crate::daemon::{apply_update, chosen_name, tail_update, LoopUpdate};
use crate::event::{EventKey, GossipEventView};
use crate::model::{
    apply_step, mark_seen, record_step, tail_publishes, tail_step, window_push, DaemonStateView,
    MAX_DEDUP,
};
use crate::node_map::ascending_pairs;
use crate::order::{bytes_less, text_before};
use crate::status::{applied_lines, status_text};
use crate::text::{applied_block, decimal, digit_char, ends_with_newline, lossy_utf8, provenance_text};
use vstd::utf8::encode_utf8;

verus! {

/// After an identity is added to the dedup window, the window holds it.
pub proof fn lemma_window_push_holds(window: Seq<EventKey>, id: EventKey)
    ensures
        window_push(window, id).contains(id),
        window_push(window, id).last() == id,
{
    let pushed = window.push(id);
    let w = window_push(window, id);
    assert(pushed[pushed.len() - 1] == id);
    if pushed.len() > MAX_DEDUP {
        assert(w[w.len() - 1] == pushed[pushed.len() - 1]);
    }
    assert(w[w.len() - 1] == id);
}

/// Loop guard: an event of the local node itself is never applied.
pub proof fn lemma_self_echo_skipped(m: DaemonStateView, local: Seq<char>, e: GossipEventView)
    requires
        e.node == local,
    ensures
        apply_step(m, local, e) == None::<Seq<char>>,
{
}

/// An event of another node whose identity is not in the dedup window is applied:
/// its block is the provenance header, the body and, if needed, a final line feed;
/// once recorded, its identity is in the window.
pub proof fn lemma_fresh_event_applied(m: DaemonStateView, local: Seq<char>, e: GossipEventView)
    requires
        e.node != local,
        !m.seen.contains((e.node, e.seq)),
    ensures
        apply_step(m, local, e) == Some(applied_block(e.ts, e.node, e.body)),
        record_step(m, e).seen.contains((e.node, e.seq)),
{
    lemma_window_push_holds(m.seen, (e.node, e.seq));
}

/// Dedup, exactly once: an event whose block is handed out is skipped on every
/// later delivery once its append was recorded; and as long as the append was
/// not recorded (it failed), the state is unchanged and a redelivery is handed
/// the same block again.
pub proof fn lemma_applied_exactly_once(m: DaemonStateView, local: Seq<char>, e: GossipEventView)
    requires
        apply_step(m, local, e) is Some,
    ensures
        apply_step(record_step(m, e), local, e) == None::<Seq<char>>,
{
    lemma_window_push_holds(m.seen, (e.node, e.seq));
}

/// Events of one remote node with different seqs are each applied: after the
/// first is applied and recorded, the second is applied too when it was not seen
/// before.
pub proof fn lemma_distinct_seqs_applied(
    m: DaemonStateView,
    local: Seq<char>,
    e1: GossipEventView,
    e2: GossipEventView,
)
    requires
        e1.node != local,
        e2.node == e1.node,
        e2.seq != e1.seq,
        !m.seen.contains((e1.node, e1.seq)),
        !m.seen.contains((e2.node, e2.seq)),
    ensures
        apply_step(m, local, e1) is Some,
        apply_step(record_step(m, e1), local, e2) == Some(applied_block(e2.ts, e2.node, e2.body)),
{
    let id1 = (e1.node, e1.seq);
    let id2 = (e2.node, e2.seq);
    let w = window_push(m.seen, id1);
    let pushed = m.seen.push(id1);
    if w.contains(id2) {
        let i = choose|i: int| 0 <= i < w.len() && w[i] == id2;
        if pushed.len() > MAX_DEDUP {
            assert(w[i] == pushed[i + (pushed.len() - MAX_DEDUP)]);
            let j = i + (pushed.len() - MAX_DEDUP);
            if j < m.seen.len() {
                assert(m.seen[j] == id2);
            }
        } else {
            if i < m.seen.len() {
                assert(m.seen[i] == id2);
            }
        }
    }
    assert(record_step(m, e1).seen == w);
}

/// The dedup window stays within its bound: marking an identity never takes a
/// window of at most [`MAX_DEDUP`] identities beyond that many.
pub proof fn lemma_window_bounded(m: DaemonStateView, id: EventKey)
    requires
        m.seen.len() <= MAX_DEDUP,
    ensures
        mark_seen(m, id).0.seen.len() <= MAX_DEDUP,
{
}

/// Marking a new identity keeps the newest identities: the window afterwards
/// is the old window with the identity added last, less as many of the oldest
/// as needed to hold at most [`MAX_DEDUP`]; an identity already there changes
/// nothing and is reported as seen.
pub proof fn lemma_mark_seen_keeps_newest(m: DaemonStateView, id: EventKey)
    ensures
        m.seen.contains(id) ==> mark_seen(m, id) == (m, true),
        !m.seen.contains(id) ==> ({
            let w = mark_seen(m, id).0.seen;
            let full = m.seen.push(id);
            let kept = if full.len() > MAX_DEDUP {
                MAX_DEDUP as int
            } else {
                full.len() as int
            };
            &&& !mark_seen(m, id).1
            &&& w.len() == kept
            &&& forall|i: int| 0 <= i < kept ==> #[trigger] w[i] == full[full.len() - kept + i]
            &&& mark_seen(m, id).0.last_published_seq == m.last_published_seq
            &&& mark_seen(m, id).0.last_applied == m.last_applied
        }),
{
}

/// The last applied seq of a node never goes down, and after a record it is at
/// least the recorded seq; the entries of other nodes stay as they were.
pub proof fn lemma_last_applied_monotone(m: DaemonStateView, e: GossipEventView, node: Seq<char>)
    ensures
        record_step(m, e).last_applied.contains_key(e.node),
        record_step(m, e).last_applied[e.node] >= e.seq,
        record_step(m, e).last_applied[e.node] == e.seq || (m.last_applied.contains_key(e.node)
            && record_step(m, e).last_applied[e.node] == m.last_applied[e.node]),
        m.last_applied.contains_key(node) ==> record_step(m, e).last_applied.contains_key(node)
            && record_step(m, e).last_applied[node] >= m.last_applied[node],
        node != e.node ==> record_step(m, e).last_applied.contains_key(node)
            == m.last_applied.contains_key(node) && record_step(m, e).last_applied[node]
            == m.last_applied[node],
{
}

/// A tail that finds new content publishes exactly one event, whose seq is the
/// previous one plus one, and moves the offset past exactly the bytes it read; a
/// tail that finds none publishes nothing and changes nothing. Two tails in a row
/// that both find new content publish consecutive seqs.
pub proof fn lemma_tail_seq_continues(
    m: DaemonStateView,
    local: Seq<char>,
    off1: u64,
    len1: u64,
    bytes1: Seq<u8>,
    ts1: u64,
    len2: u64,
    bytes2: Seq<u8>,
    ts2: u64,
)
    requires
        m.last_published_seq + 2 <= u64::MAX,
        off1 + bytes1.len() <= u64::MAX,
    ensures
        ({
            let (m1, off2, ev1) = tail_step(m, local, off1, len1, bytes1, ts1);
            let (m2, off3, ev2) = tail_step(m1, local, off2, len2, bytes2, ts2);
            &&& tail_publishes(off1, len1, bytes1) ==> ev1 == Some(
                GossipEventView {
                    node: local,
                    seq: (m.last_published_seq + 1) as u64,
                    ts: ts1,
                    body: lossy_utf8(bytes1),
                },
            ) && m1.last_published_seq == m.last_published_seq + 1 && off2 == off1 + bytes1.len()
            &&& !tail_publishes(off1, len1, bytes1) ==> ev1 is None && m1 == m && off2 == off1
            &&& tail_publishes(off1, len1, bytes1) && tail_publishes(off2, len2, bytes2) ==> (ev2
                matches Some(e2) && e2.seq == m.last_published_seq + 2)
        }),
{
}

/// Round trip: an event that node `a` publishes for new content is applied on a
/// node `b` that has not seen it, with `a`'s name and the published text in the
/// block; once recorded there, a redelivery to `b` is skipped.
pub proof fn lemma_round_trip(
    ma: DaemonStateView,
    a: Seq<char>,
    off: u64,
    len: u64,
    bytes: Seq<u8>,
    ts: u64,
    mb: DaemonStateView,
    b: Seq<char>,
)
    requires
        tail_publishes(off, len, bytes),
        ma.last_published_seq < u64::MAX,
        a != b,
        !mb.seen.contains((a, (ma.last_published_seq + 1) as u64)),
    ensures
        ({
            let e = tail_step(ma, a, off, len, bytes, ts).2.unwrap();
            &&& apply_step(mb, b, e) == Some(applied_block(ts, a, lossy_utf8(bytes)))
            &&& apply_step(record_step(mb, e), b, e) is None
        }),
{
    let e = tail_step(ma, a, off, len, bytes, ts).2.unwrap();
    lemma_fresh_event_applied(mb, b, e);
    lemma_applied_exactly_once(mb, b, e);
}

/// The shape of an applied block: it starts with the provenance header, the body
/// follows right after it, and it ends with a line feed.
pub proof fn lemma_block_shape(ts: u64, node: Seq<char>, body: Seq<char>)
    ensures
        ({
            let block = applied_block(ts, node, body);
            let header = provenance_text(ts, node);
            &&& block.subrange(0, header.len() as int) == header
            &&& block.subrange(header.len() as int, (header.len() + body.len()) as int) == body
            &&& ends_with_newline(block)
        }),
{
    let block = applied_block(ts, node, body);
    let header = provenance_text(ts, node);
    assert(block.subrange(0, header.len() as int) =~= header);
    assert(block.subrange(header.len() as int, (header.len() + body.len()) as int) =~= body);
    if !ends_with_newline(body) {
        assert(block.last() == '\n');
    } else {
        assert(block.last() == body.last());
    }
}

/// A block applied from a remote node is not published again by the local node,
/// and no local byte is passed over: the offset moves only past a block appended
/// right at it, by exactly the block's length; a tail that then finds the file
/// at the length after the block publishes nothing and changes nothing.
pub proof fn lemma_applied_block_not_republished(
    m: DaemonStateView,
    local: Seq<char>,
    known_offset: u64,
    applied: Option<bool>,
    len_before: Option<u64>,
    block_len: u64,
    bytes: Seq<u8>,
    ts: u64,
)
    requires
        known_offset + block_len <= u64::MAX,
    ensures
        ({
            let offset = apply_update(known_offset, applied, len_before, block_len).known_offset;
            &&& (applied == Some(true) && len_before == Some(known_offset)) ==> offset
                == known_offset + block_len
            &&& !(applied == Some(true) && len_before == Some(known_offset)) ==> offset
                == known_offset
            &&& applied == Some(true) && len_before == Some(known_offset) ==> tail_step(
                m,
                local,
                offset,
                (known_offset + block_len) as u64,
                bytes,
                ts,
            ) == (m, offset, None::<GossipEventView>)
        }),
{
}

/// The record of a sink that takes `events` one after another, starting from
/// the record `log`.
pub open spec fn publish_all(log: Seq<GossipEventView>, events: Seq<GossipEventView>) -> Seq<
    GossipEventView,
>
    decreases events.len(),
{
    if events.len() == 0 {
        log
    } else {
        publish_all(log, events.drop_last()).push(events.last())
    }
}

/// A capture sink replays in order: each publish keeps its event last (see
/// `CaptureSink::publish`), so after events are published one by one the
/// record is the old record followed by those events in publish order, which
/// is what `CaptureSink::drain` then hands out, leaving the sink empty.
pub proof fn lemma_capture_sink_in_order(log: Seq<GossipEventView>, events: Seq<GossipEventView>)
    ensures
        publish_all(log, events) == log + events,
    decreases events.len(),
{
    if events.len() > 0 {
        lemma_capture_sink_in_order(log, events.drop_last());
        assert(log + events =~= (log + events.drop_last()).push(events.last()));
    }
}

/// The bytes of `file` that `local` marks as written by this node, in order.
pub open spec fn local_bytes(file: Seq<u8>, local: Seq<bool>) -> Seq<u8>
    decreases file.len(),
{
    if file.len() == 0 || local.len() == 0 {
        Seq::empty()
    } else if local.last() {
        local_bytes(file.drop_last(), local.drop_last()).push(file.last())
    } else {
        local_bytes(file.drop_last(), local.drop_last())
    }
}

/// The local bytes of two pieces are those of the first followed by those of
/// the second.
pub proof fn lemma_local_bytes_append(f: Seq<u8>, m: Seq<bool>, g: Seq<u8>, n: Seq<bool>)
    requires
        f.len() == m.len(),
        g.len() == n.len(),
    ensures
        local_bytes(f + g, m + n) == local_bytes(f, m) + local_bytes(g, n),
    decreases g.len(),
{
    if g.len() == 0 {
        assert(f + g =~= f);
        assert(m + n =~= m);
    } else {
        assert((f + g).drop_last() =~= f + g.drop_last());
        assert((m + n).drop_last() =~= m + n.drop_last());
        lemma_local_bytes_append(f, m, g.drop_last(), n.drop_last());
    }
}

/// The local bytes of a piece marked local throughout are all its bytes; of a
/// piece marked remote throughout, none.
pub proof fn lemma_local_bytes_uniform(g: Seq<u8>, n: Seq<bool>, mark: bool)
    requires
        g.len() == n.len(),
        forall|i: int| 0 <= i < n.len() ==> n[i] == mark,
    ensures
        local_bytes(g, n) == (if mark {
            g
        } else {
            Seq::<u8>::empty()
        }),
    decreases g.len(),
{
    if g.len() > 0 {
        lemma_local_bytes_uniform(g.drop_last(), n.drop_last(), mark);
        assert(n.last() == mark);
        if mark {
            assert(g.drop_last().push(g.last()) =~= g);
        }
    }
}

/// What happens to the gossip file of a running daemon.
pub enum RunEvent {
    /// A local writer appends these bytes.
    LocalWrite(Seq<u8>),
    /// A poll tick tails the file.
    Tick,
    /// A remote event's block (these bytes) is appended: the daemon first tails
    /// what was written locally, and that tail's publish succeeds, then it
    /// appends the block right after.
    Remote(Seq<u8>),
}

/// The daemon and its file, as far as publishing goes: the daemon state, the
/// file, which of its bytes were written locally, the offset the next tail
/// starts from, all bytes published so far, and all bytes written locally.
pub struct RunState {
    pub m: DaemonStateView,
    pub file: Seq<u8>,
    pub local: Seq<bool>,
    pub offset: u64,
    pub published: Seq<u8>,
    pub written: Seq<u8>,
}

/// A tail of the daemon on node `name`: what it publishes is the file past the
/// offset (see `tail_step`).
pub open spec fn run_tick(s: RunState, name: Seq<char>) -> RunState {
    let pending = s.file.skip(s.offset as int);
    let (m, offset, event) = tail_step(s.m, name, s.offset, s.file.len() as u64, pending, 0);
    RunState {
        m,
        file: s.file,
        local: s.local,
        offset,
        published: if event is Some {
            s.published + pending
        } else {
            s.published
        },
        written: s.written,
    }
}

/// One event of a running daemon on node `name`. The offset after a remote
/// block is the one `apply_update` gives for a block appended right after the
/// length that was read before the append.
pub open spec fn run_step(s: RunState, name: Seq<char>, ev: RunEvent) -> RunState {
    match ev {
        RunEvent::LocalWrite(bytes) => RunState {
            m: s.m,
            file: s.file + bytes,
            local: s.local + Seq::new(bytes.len(), |i: int| true),
            offset: s.offset,
            published: s.published,
            written: s.written + bytes,
        },
        RunEvent::Tick => run_tick(s, name),
        RunEvent::Remote(block) => {
            let t = run_tick(s, name);
            RunState {
                m: t.m,
                file: t.file + block,
                local: t.local + Seq::new(block.len(), |i: int| false),
                offset: apply_update(
                    t.offset,
                    Some(true),
                    Some(t.file.len() as u64),
                    block.len() as u64,
                ).known_offset,
                published: t.published,
                written: t.written,
            }
        },
    }
}

/// The bytes an event appends to the file.
pub open spec fn event_bytes(ev: RunEvent) -> nat {
    match ev {
        RunEvent::LocalWrite(bytes) => bytes.len(),
        RunEvent::Tick => 0,
        RunEvent::Remote(block) => block.len(),
    }
}

/// The invariant of a running daemon: the bytes before the offset that were
/// written locally are exactly those published, in order; every byte past the
/// offset was written locally and is still to be published; and all locally
/// written bytes are those of the file marked local.
pub open spec fn run_inv(s: RunState) -> bool {
    &&& s.file.len() == s.local.len()
    &&& s.offset <= s.file.len()
    &&& forall|i: int| s.offset <= i < s.local.len() ==> #[trigger] s.local[i]
    &&& s.published == local_bytes(s.file.take(s.offset as int), s.local.take(s.offset as int))
    &&& s.written == local_bytes(s.file, s.local)
}

/// The daemon starting on a file of `startup` bytes: they count as not written
/// by this run, and the offset is their length.
pub open spec fn run_start(m: DaemonStateView, startup: Seq<u8>) -> RunState {
    RunState {
        m,
        file: startup,
        local: Seq::new(startup.len(), |i: int| false),
        offset: startup.len() as u64,
        published: Seq::empty(),
        written: Seq::empty(),
    }
}

/// The invariant holds when the daemon starts.
pub proof fn lemma_run_start(m: DaemonStateView, startup: Seq<u8>)
    requires
        startup.len() <= u64::MAX,
    ensures
        run_inv(run_start(m, startup)),
{
    let s = run_start(m, startup);
    lemma_local_bytes_uniform(startup, s.local, false);
    assert(s.file.take(s.offset as int) =~= startup);
    assert(s.local.take(s.offset as int) =~= s.local);
}

/// A tail keeps the invariant and leaves the offset at the end of the file.
pub proof fn lemma_run_tick(s: RunState, name: Seq<char>)
    requires
        run_inv(s),
        s.file.len() <= u64::MAX,
        s.m.last_published_seq < u64::MAX,
    ensures
        run_inv(run_tick(s, name)),
        run_tick(s, name).offset == s.file.len(),
        run_tick(s, name).m.last_published_seq <= s.m.last_published_seq + 1,
{
    let pending = s.file.skip(s.offset as int);
    let t = run_tick(s, name);
    let off = s.offset as int;
    if pending.len() > 0 {
        let lp = s.local.skip(off);
        assert(s.file.take(off) + pending =~= s.file);
        assert(s.local.take(off) + lp =~= s.local);
        lemma_local_bytes_append(s.file.take(off), s.local.take(off), pending, lp);
        lemma_local_bytes_uniform(pending, lp, true);
        assert(s.file.take(s.file.len() as int) =~= s.file);
        assert(s.local.take(s.file.len() as int) =~= s.local);
    }
}

/// Every event keeps the invariant of a running daemon.
pub proof fn lemma_run_step(s: RunState, name: Seq<char>, ev: RunEvent)
    requires
        run_inv(s),
        s.file.len() + event_bytes(ev) <= u64::MAX,
        s.m.last_published_seq < u64::MAX,
    ensures
        run_inv(run_step(s, name, ev)),
        run_step(s, name, ev).m.last_published_seq <= s.m.last_published_seq + 1,
        run_step(s, name, ev).file.len() == s.file.len() + event_bytes(ev),
{
    match ev {
        RunEvent::LocalWrite(bytes) => {
            let n = Seq::new(bytes.len(), |i: int| true);
            let r = run_step(s, name, ev);
            lemma_local_bytes_append(s.file, s.local, bytes, n);
            lemma_local_bytes_uniform(bytes, n, true);
            assert(r.file.take(s.offset as int) =~= s.file.take(s.offset as int));
            assert(r.local.take(s.offset as int) =~= s.local.take(s.offset as int));
            assert forall|i: int| r.offset <= i < r.local.len() implies #[trigger] r.local[i] by {
                if i >= s.local.len() {
                    assert(r.local[i] == n[i - s.local.len()]);
                } else {
                    assert(r.local[i] == s.local[i]);
                }
            }
        },
        RunEvent::Tick => {
            lemma_run_tick(s, name);
        },
        RunEvent::Remote(block) => {
            lemma_run_tick(s, name);
            let t = run_tick(s, name);
            let n = Seq::new(block.len(), |i: int| false);
            let r = run_step(s, name, ev);
            assert(r.offset == t.file.len() + block.len());
            lemma_local_bytes_append(t.file, t.local, block, n);
            lemma_local_bytes_uniform(block, n, false);
            assert(t.file.take(t.offset as int) =~= t.file);
            assert(t.local.take(t.offset as int) =~= t.local);
            assert(r.file.take(r.offset as int) =~= r.file);
            assert(r.local.take(r.offset as int) =~= r.local);
            assert(local_bytes(t.file, t.local) + Seq::<u8>::empty() =~= local_bytes(t.file, t.local));
        },
    }
}

/// The daemon after the events `evs`, from state `s`.
pub open spec fn run(s: RunState, name: Seq<char>, evs: Seq<RunEvent>) -> RunState
    decreases evs.len(),
{
    if evs.len() == 0 {
        s
    } else {
        run_step(run(s, name, evs.drop_last()), name, evs.last())
    }
}

/// The bytes that `evs` append to the file.
pub open spec fn run_bytes(evs: Seq<RunEvent>) -> nat
    decreases evs.len(),
{
    if evs.len() == 0 {
        0
    } else {
        run_bytes(evs.drop_last()) + event_bytes(evs.last())
    }
}

/// Each local byte goes out in exactly one event, and only local bytes go out.
/// Over any run of a daemon that handles ticks and remote events one at a
/// time, whose publishes succeed (see [`RunEvent`]), the bytes it has published, followed by the bytes still past its
/// offset, are exactly the bytes written locally during the run, in order; the
/// bytes past the offset were all written locally. So neither the bytes in the
/// file at startup nor any appended remote block (header or body) is ever
/// published, and no locally written byte is passed over or published twice.
/// Every event it publishes is its own (`tail_step` stamps it with the node's
/// name).
pub proof fn lemma_run_publishes_local_bytes_once(
    m: DaemonStateView,
    startup: Seq<u8>,
    name: Seq<char>,
    evs: Seq<RunEvent>,
)
    requires
        startup.len() + run_bytes(evs) <= u64::MAX,
        m.last_published_seq + evs.len() < u64::MAX,
    ensures
        ({
            let r = run(run_start(m, startup), name, evs);
            &&& r.published + r.file.skip(r.offset as int) == r.written
            &&& forall|i: int| r.offset <= i < r.file.len() ==> #[trigger] r.local[i]
        }),
{
    lemma_run_invariant(m, startup, name, evs);
    let r = run(run_start(m, startup), name, evs);
    let off = r.offset as int;
    let lp = r.local.skip(off);
    assert(r.file.take(off) + r.file.skip(off) =~= r.file);
    assert(r.local.take(off) + lp =~= r.local);
    lemma_local_bytes_append(r.file.take(off), r.local.take(off), r.file.skip(off), lp);
    lemma_local_bytes_uniform(r.file.skip(off), lp, true);
}

/// The invariant holds along any run, and the file and counter grow as the
/// events say.
pub proof fn lemma_run_invariant(m: DaemonStateView, startup: Seq<u8>, name: Seq<char>, evs: Seq<RunEvent>)
    requires
        startup.len() + run_bytes(evs) <= u64::MAX,
        m.last_published_seq + evs.len() < u64::MAX,
    ensures
        run_inv(run(run_start(m, startup), name, evs)),
        run(run_start(m, startup), name, evs).file.len() == startup.len() + run_bytes(evs),
        run(run_start(m, startup), name, evs).m.last_published_seq <= m.last_published_seq + evs.len(),
    decreases evs.len(),
{
    if evs.len() == 0 {
        lemma_run_start(m, startup);
    } else {
        let init = evs.drop_last();
        lemma_run_invariant(m, startup, name, init);
        let s = run(run_start(m, startup), name, init);
        lemma_run_step(s, name, evs.last());
    }
}

/// The number that a sequence of decimal digit characters stands for.
pub open spec fn digits_value(s: Seq<char>) -> int
    decreases s.len(),
{
    if s.len() == 0 {
        0
    } else {
        digits_value(s.drop_last()) * 10 + ((s.last() as int) - ('0' as int))
    }
}

/// The characters `'0'` to `'9'`.
pub open spec fn is_digit(c: char) -> bool {
    '0' <= c && c <= '9'
}

/// The decimal text of a number is its base-ten representation: at least one
/// digit, only digits, no leading zero (but for 0 itself), and the digits stand
/// for the number.
pub proof fn lemma_decimal_is_base_ten(n: nat)
    ensures
        decimal(n).len() >= 1,
        forall|i: int| 0 <= i < decimal(n).len() ==> is_digit(#[trigger] decimal(n)[i]),
        digits_value(decimal(n)) == n,
        n >= 10 ==> decimal(n)[0] != '0',
        n == 0 ==> decimal(n) == seq!['0'],
    decreases n,
{
    let d = (n % 10) as nat;
    assert(is_digit(digit_char(d)) && (digit_char(d) as int) - ('0' as int) == d) by {
        assert(d < 10);
    }
    if n >= 10 {
        assert(d == n % 10);
        lemma_decimal_is_base_ten(n / 10);
        let prefix = decimal(n / 10);
        assert(decimal(n) == prefix.push(digit_char(d)));
        assert(decimal(n).drop_last() =~= prefix);
        assert(digits_value(decimal(n)) == digits_value(prefix) * 10 + d);
        assert((n / 10) * 10 + n % 10 == n) by (nonlinear_arith);
        assert forall|i: int| 0 <= i < decimal(n).len() implies is_digit(#[trigger] decimal(n)[i]) by {
            if i < prefix.len() {
                assert(decimal(n)[i] == prefix[i]);
            }
        }
        if n / 10 >= 10 {
            assert(decimal(n)[0] == prefix[0]);
        } else {
            assert(prefix == seq![digit_char(n / 10)]);
            assert(decimal(n)[0] == digit_char(n / 10));
            assert(n / 10 >= 1);
        }
    } else {
        assert(d == n);
        assert(decimal(n) == seq![digit_char(n)]);
        assert(decimal(n).drop_last() =~= Seq::<char>::empty());
        assert(digits_value(decimal(n).drop_last()) == 0);
        assert(decimal(n).last() == digit_char(d));
    }
}

/// The layout of a provenance header: `"## "`, the decimal timestamp, two
/// spaces, the node name whole, and `"  (via tether)\n"`; nothing else.
pub proof fn lemma_header_layout(ts: u64, node: Seq<char>)
    ensures
        ({
            let h = provenance_text(ts, node);
            let d = decimal(ts as nat);
            let dl = d.len() as int;
            let nl = node.len() as int;
            &&& h.len() == dl + nl + 20
            &&& h.subrange(0, 3) == seq!['#', '#', ' ']
            &&& h.subrange(3, 3 + dl) == d
            &&& h.subrange(3 + dl, 5 + dl) == seq![' ', ' ']
            &&& h.subrange(5 + dl, 5 + dl + nl) == node
            &&& h.subrange(5 + dl + nl, h.len() as int) == seq![
                ' ',
                ' ',
                '(',
                'v',
                'i',
                'a',
                ' ',
                't',
                'e',
                't',
                'h',
                'e',
                'r',
                ')',
                '\n',
            ]
        }),
{
    let h = provenance_text(ts, node);
    let d = decimal(ts as nat);
    let a = 3 + d.len() as int;
    let b = 5 + d.len() as int + node.len() as int;
    assert(h.subrange(0, 3) =~= seq!['#', '#', ' ']);
    assert(h.subrange(3, a) =~= d);
    assert(h.subrange(a, a + 2) =~= seq![' ', ' ']);
    assert(h.subrange(a + 2, b) =~= node);
    assert(h.subrange(b, h.len() as int) =~= seq![
        ' ',
        ' ',
        '(',
        'v',
        'i',
        'a',
        ' ',
        't',
        'e',
        't',
        'h',
        'e',
        'r',
        ')',
        '\n',
    ]);
}

/// An applied block ends with a line feed, starts with the header followed by
/// the whole body, and adds exactly one line feed when the body does not end
/// with one, none when it does.
pub proof fn lemma_block_ends_with_line_feed(ts: u64, node: Seq<char>, body: Seq<char>)
    ensures
        ({
            let block = applied_block(ts, node, body);
            let h = provenance_text(ts, node);
            &&& block.len() > 0
            &&& block.last() == '\n'
            &&& block.subrange(0, h.len() + body.len() as int) == h + body
            &&& (body.len() > 0 && body.last() == '\n') ==> block.len() == h.len() + body.len()
            &&& !(body.len() > 0 && body.last() == '\n') ==> block.len() == h.len() + body.len()
                + 1
        }),
{
    let block = applied_block(ts, node, body);
    let h = provenance_text(ts, node);
    assert(block.subrange(0, h.len() + body.len() as int) =~= h + body);
    lemma_header_layout(ts, node);
    if body.len() > 0 && body.last() == '\n' {
        assert(block =~= h + body);
        assert(block.last() == body.last());
    } else {
        assert(block =~= (h + body).push('\n'));
    }
}

/// The name of a node: a given name is taken whole, else the host name whole,
/// else `"unknown"`.
pub proof fn lemma_node_name_choice(given: Seq<char>, host: Option<Seq<char>>, h: Seq<char>)
    ensures
        chosen_name(Some(given), host) == given,
        chosen_name(None, Some(h)) == h,
        chosen_name(None, None) == seq!['u', 'n', 'k', 'n', 'o', 'w', 'n'],
{
    reveal_strlit("unknown");
    assert("unknown"@ =~= seq!['u', 'n', 'k', 'n', 'o', 'w', 'n']);
}

/// A tail saves the state exactly when it changed it: the offset it returns is
/// kept, and the state is saved exactly when an event was published, whatever
/// the old offset (0 included); a failed tail keeps the offset and saves
/// nothing.
pub proof fn lemma_tail_saves_changed_state(
    m: DaemonStateView,
    local: Seq<char>,
    known_offset: u64,
    current_len: u64,
    bytes: Seq<u8>,
    ts: u64,
)
    requires
        known_offset + bytes.len() <= u64::MAX,
        m.last_published_seq < u64::MAX,
    ensures
        ({
            let (m2, offset, event) = tail_step(m, local, known_offset, current_len, bytes, ts);
            let u = tail_update(known_offset, Some(offset));
            &&& u.known_offset == offset
            &&& u.save_state == (event is Some)
            &&& u.save_state == (m2 != m)
        }),
        tail_update(known_offset, None) == (LoopUpdate { known_offset, save_state: false }),
{
    let (m2, offset, event) = tail_step(m, local, known_offset, current_len, bytes, ts);
    if event is Some {
        assert(m2.last_published_seq != m.last_published_seq);
    }
}

/// Any moved offset is kept and saved, whatever the old offset; an unmoved one
/// saves nothing.
pub proof fn lemma_moved_offset_is_saved(known_offset: u64, off: u64)
    ensures
        off != known_offset ==> tail_update(known_offset, Some(off)) == (LoopUpdate {
            known_offset: off,
            save_state: true,
        }),
        tail_update(known_offset, Some(known_offset)) == (LoopUpdate {
            known_offset,
            save_state: false,
        }),
{
}

/// A handled remote event saves the state exactly when its block was appended
/// (and so recorded).
pub proof fn lemma_apply_saves_recorded_state(
    known_offset: u64,
    applied: Option<bool>,
    len_before: Option<u64>,
    block_len: u64,
)
    ensures
        apply_update(known_offset, applied, len_before, block_len).save_state == (applied == Some(
            true,
        )),
{
}

/// The order of byte sequences is the lexicographic one: `a` comes before `b`
/// exactly when, after a common prefix, `a` ends while `b` goes on, or `a` holds
/// the smaller byte at the first difference.
pub proof fn lemma_bytes_less_lexicographic(a: Seq<u8>, b: Seq<u8>)
    ensures
        bytes_less(a, b) <==> exists|i: int|
            0 <= i <= a.len() && i <= b.len() && #[trigger] a.take(i) == b.take(i) && ((i == a.len()
                && i < b.len()) || (i < a.len() && i < b.len() && a[i] < b[i])),
    decreases a.len(),
{
    if a.len() == 0 {
        if b.len() > 0 {
            assert(a.take(0) =~= b.take(0));
        } else {
            assert forall|i: int|
                0 <= i <= a.len() && i <= b.len() && #[trigger] a.take(i) == b.take(i) implies !((
            i == a.len() && i < b.len()) || (i < a.len() && i < b.len() && a[i] < b[i])) by {}
        }
    } else if b.len() == 0 {
    } else if a[0] != b[0] {
        if a[0] < b[0] {
            assert(a.take(0) =~= b.take(0));
        } else {
            assert forall|i: int|
                0 <= i <= a.len() && i <= b.len() && #[trigger] a.take(i) == b.take(i) implies !((
            i == a.len() && i < b.len()) || (i < a.len() && i < b.len() && a[i] < b[i])) by {
                if i > 0 {
                    assert(a.take(i)[0] == b.take(i)[0]);
                }
            }
        }
    } else {
        let a1 = a.drop_first();
        let b1 = b.drop_first();
        lemma_bytes_less_lexicographic(a1, b1);
        if bytes_less(a, b) {
            let j = choose|j: int|
                0 <= j <= a1.len() && j <= b1.len() && #[trigger] a1.take(j) == b1.take(j) && ((j
                    == a1.len() && j < b1.len()) || (j < a1.len() && j < b1.len() && a1[j] < b1[j]));
            let ta = a.take(j + 1);
            let tb = b.take(j + 1);
            assert(ta =~= tb) by {
                assert forall|k: int| 0 <= k < j + 1 implies #[trigger] ta[k] == tb[k] by {
                    if k > 0 {
                        assert(a1.take(j)[k - 1] == b1.take(j)[k - 1]);
                    }
                }
            }
            assert(a[j + 1] == a1[j] || j == a1.len());
        }
        if exists|i: int|
            0 <= i <= a.len() && i <= b.len() && #[trigger] a.take(i) == b.take(i) && ((i == a.len()
                && i < b.len()) || (i < a.len() && i < b.len() && a[i] < b[i])) {
            let i = choose|i: int|
                0 <= i <= a.len() && i <= b.len() && #[trigger] a.take(i) == b.take(i) && ((i
                    == a.len() && i < b.len()) || (i < a.len() && i < b.len() && a[i] < b[i]));
            assert(i >= 1);
            let ta = a1.take(i - 1);
            let tb = b1.take(i - 1);
            assert(ta =~= tb) by {
                assert forall|k: int| 0 <= k < i - 1 implies #[trigger] ta[k] == tb[k] by {
                    assert(a.take(i)[k + 1] == b.take(i)[k + 1]);
                }
            }
            assert(a1.take(i - 1) == b1.take(i - 1));
        }
    }
}

/// The UTF-8 encoding of two strings one after the other is the encoding of the
/// first followed by that of the second.
pub proof fn lemma_encode_utf8_concat(a: Seq<char>, c: Seq<char>)
    ensures
        encode_utf8(a + c) == encode_utf8(a) + encode_utf8(c),
    decreases a.len(),
{
    if a.len() == 0 {
        assert(a + c =~= c);
    } else {
        assert((a + c).drop_first() =~= a.drop_first() + c);
        assert((a + c)[0] == a[0]);
        lemma_encode_utf8_concat(a.drop_first(), c);
    }
}

/// A byte sequence comes before any longer one that it begins.
pub proof fn lemma_bytes_prefix_first(x: Seq<u8>, y: Seq<u8>)
    requires
        y.len() > 0,
    ensures
        bytes_less(x, x + y),
    decreases x.len(),
{
    if x.len() > 0 {
        assert((x + y).drop_first() =~= x.drop_first() + y);
        assert((x + y)[0] == x[0]);
        lemma_bytes_prefix_first(x.drop_first(), y);
    }
}

/// Names are ordered as `str` orders them: a proper prefix comes first, so for
/// instance "node1" comes before "node10".
pub proof fn lemma_prefix_comes_first(a: Seq<char>, b: Seq<char>)
    requires
        a.len() < b.len(),
        b.take(a.len() as int) == a,
    ensures
        text_before(a, b),
{
    let c = b.skip(a.len() as int);
    assert(a + c =~= b);
    lemma_encode_utf8_concat(a, c);
    assert(c.len() > 0);
    assert(encode_utf8(c) == vstd::utf8::encode_scalar(c[0] as u32) + encode_utf8(c.drop_first()));
    lemma_bytes_prefix_first(encode_utf8(a), encode_utf8(c));
}

/// Between two names that agree up to a position where both are ASCII letters
/// or digits, the one with the smaller character there comes first.
pub proof fn lemma_first_difference_decides(p: Seq<char>, x: char, y: char, s: Seq<char>, t: Seq<char>)
    requires
        (x as u32) < (y as u32),
        (y as u32) < 0x80,
    ensures
        text_before(p + seq![x] + s, p + seq![y] + t),
{
    let a = p + seq![x] + s;
    let b = p + seq![y] + t;
    assert(a =~= p + (seq![x] + s));
    assert(b =~= p + (seq![y] + t));
    lemma_encode_utf8_concat(p, seq![x] + s);
    lemma_encode_utf8_concat(p, seq![y] + t);
    lemma_bytes_common_prefix(encode_utf8(p), encode_utf8(seq![x] + s), encode_utf8(seq![y] + t));
    assert((seq![x] + s)[0] == x);
    assert((seq![y] + t)[0] == y);
    let ex = encode_utf8(seq![x] + s);
    let ey = encode_utf8(seq![y] + t);
    assert(ex[0] == vstd::utf8::encode_scalar(x as u32)[0]);
    assert(ey[0] == vstd::utf8::encode_scalar(y as u32)[0]);
    let xv: u32 = x as u32;
    let yv: u32 = y as u32;
    assert(xv & 0x7F == xv) by (bit_vector)
        requires
            xv < 0x80,
    ;
    assert(yv & 0x7F == yv) by (bit_vector)
        requires
            yv < 0x80,
    ;
    assert(vstd::utf8::has_width_1_encoding(xv));
    assert(vstd::utf8::has_width_1_encoding(yv));
    assert(ex[0] < ey[0]);
    assert(ex.len() > 0 && ey.len() > 0);
    assert(bytes_less(ex, ey));
}

/// A common prefix does not change the order of two byte sequences.
pub proof fn lemma_bytes_common_prefix(p: Seq<u8>, u: Seq<u8>, v: Seq<u8>)
    ensures
        bytes_less(p + u, p + v) == bytes_less(u, v),
    decreases p.len(),
{
    if p.len() == 0 {
        assert(p + u =~= u);
        assert(p + v =~= v);
    } else {
        assert((p + u).drop_first() =~= p.drop_first() + u);
        assert((p + v).drop_first() =~= p.drop_first() + v);
        assert((p + u)[0] == p[0] && (p + v)[0] == p[0]);
        lemma_bytes_common_prefix(p.drop_first(), u, v);
    }
}

/// The status report, line by line: the publish counter, the number of
/// identities in the dedup window, then either `last_applied: (none)` or
/// `last_applied:` followed by the lines of the applied nodes.
pub proof fn lemma_status_layout(v: DaemonStateView)
    ensures
        ({
            let head = "last_published_seq: "@ + decimal(v.last_published_seq as nat) + "\n"@
                + "seen_ids_count: "@ + decimal(v.seen.len()) + "\n"@;
            &&& v.last_applied == Map::<Seq<char>, u64>::empty() ==> status_text(v) == head
                + "last_applied: (none)\n"@
            &&& v.last_applied != Map::<Seq<char>, u64>::empty() ==> status_text(v) == head
                + "last_applied:\n"@ + applied_lines(ascending_pairs(v.last_applied))
        }),
{
}

/// The lines of the applied nodes: one line `"  <node>: <seq>\n"` per pair, in
/// the order of the pairs.
pub proof fn lemma_applied_lines_one_per_pair(pairs: Seq<(Seq<char>, u64)>, x: (Seq<char>, u64))
    ensures
        applied_lines(Seq::<(Seq<char>, u64)>::empty()) == Seq::<char>::empty(),
        applied_lines(pairs.push(x)) == applied_lines(pairs) + "  "@ + x.0 + ": "@ + decimal(
            x.1 as nat,
        ) + "\n"@,
{
    assert(pairs.push(x).drop_last() =~= pairs);
}

/// The report lists nodes in the order of `str`: of two listed nodes, the one
/// listed first comes before the other in that order, and not after it.
pub proof fn lemma_listed_in_str_order(pairs: Seq<(Seq<char>, u64)>, i: int, j: int)
    requires
        crate::node_map::names_ascending(pairs),
        0 <= i < j < pairs.len(),
    ensures
        text_before(pairs[i].0, pairs[j].0),
        !text_before(pairs[j].0, pairs[i].0),
{
    crate::order::lemma_text_before_strict_total(pairs[i].0, pairs[j].0, pairs[j].0);
}

} // verus!
