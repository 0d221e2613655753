//! What holds across calls: a message survives the trip through frames,
//! the wire and reassembly; lanes keep their priority and their order; a
//! lost frame harms no other message; a connection ends once.
use vstd::prelude::*;
use crate::connection::{
    ConnectionError, ConnectionView, EventView, LinkState, Path, RecvAction, SendActionView, SendError, TransportFault,
};
use crate::frame::{
    fits, lemma_decode_encode, lemma_decode_stream_encode, MAX_CHUNK, spec_decode, spec_decode_stream, spec_encode, spec_encode_stream,
    FrameDecodeError, FrameView,
};
use crate::incoming::IncomingView;
use crate::lanes::{first_busy, lanes_wf, lemma_first_busy, poll_step, LANE_COUNT};
use crate::outgoing::{
    chunks_of, frames_of, lemma_chunk_count, lemma_chunks_cover, lemma_step_pending, payloads, OutgoingView,
};
use crate::reassembly::{receive_all, receive_step, MAX_IN_FLIGHT};

verus! {

/// Each frame, received in turn, fits: none is refused.
pub open spec fn all_fit(m: Map<u64, IncomingView>, fs: Seq<FrameView>) -> bool
    decreases fs.len(),
{
    fs.len() == 0 || (receive_step(m, fs[0]).1 is Ok && all_fit(receive_step(m, fs[0]).0, fs.skip(1)))
}

/// The frames of a message, received in order where there is room for it,
/// give back exactly that message, once, and leave no buffer for its id; messages of other ids
/// stay as they were.
pub proof fn lemma_round_trip(m: Map<u64, IncomingView>, data: Seq<u8>, id: u64, chunk: nat)
    requires
        chunk > 0,
        m.contains_key(id) || m.len() < MAX_IN_FLIGHT,
        data.len() <= u64::MAX,
    ensures
        receive_all(m, frames_of(data, id, chunk)) == (m.remove(id), seq![data]),
        all_fit(m, frames_of(data, id, chunk)),
        chunk <= MAX_CHUNK ==> forall|i: int| 0 <= i < frames_of(data, id, chunk).len() ==>
            spec_decode(spec_encode(#[trigger] frames_of(data, id, chunk)[i]))
                == Ok::<FrameView, FrameDecodeError>(frames_of(data, id, chunk)[i]),
{
    let fs = frames_of(data, id, chunk);
    let cs = chunks_of(data, id, chunk);
    assert(fs.skip(1) =~= cs);
    if chunk <= MAX_CHUNK {
        lemma_fragment_count(data, id, chunk);
        assert forall|i: int| 0 <= i < fs.len() implies spec_decode(spec_encode(#[trigger] fs[i]))
            == Ok::<FrameView, FrameDecodeError>(fs[i]) by {
            lemma_decode_encode(fs[i]);
        }
    }
    if data.len() == 0 {
        assert(data =~= Seq::<u8>::empty());
        assert(cs.len() == 0);
        assert(receive_all(m.remove(id), cs) == (m.remove(id), Seq::<Seq<u8>>::empty()));
        assert(all_fit(m.remove(id), cs));
        assert(receive_step(m, fs[0]).0 == m.remove(id));
        assert(seq![Seq::<u8>::empty()] + Seq::<Seq<u8>>::empty() =~= seq![data]);
    } else {
        let m1 = m.insert(id, IncomingView { id, total: data.len(), received: Seq::empty() });
        lemma_receive_chunks(m1, id, Seq::empty(), data, chunk);
        assert(receive_step(m, fs[0]) == (m1, Ok::<Option<Seq<u8>>, crate::incoming::ProtocolError>(None)));
        assert(m1.remove(id) =~= m.remove(id));
        assert(Seq::<Seq<u8>>::empty() + seq![Seq::<u8>::empty() + data] =~= seq![data]);
    }
}

/// Receiving the remaining chunks `rest` of a message whose buffer holds
/// `received` completes it.
proof fn lemma_receive_chunks(m: Map<u64, IncomingView>, id: u64, received: Seq<u8>, rest: Seq<u8>, chunk: nat)
    requires
        chunk > 0,
        rest.len() > 0,
        m.contains_key(id),
        m[id] == (IncomingView { id, total: received.len() + rest.len(), received }),
    ensures
        receive_all(m, chunks_of(rest, id, chunk)) == (m.remove(id), seq![received + rest]),
        all_fit(m, chunks_of(rest, id, chunk)),
    decreases rest.len(),
{
    let cs = chunks_of(rest, id, chunk);
    if rest.len() <= chunk {
        assert(cs[0] == FrameView::Data { id, payload: rest });
        assert(receive_step(m, cs[0]) == (m.remove(id), Ok::<Option<Seq<u8>>, crate::incoming::ProtocolError>(
            Some(received + rest))));
        assert(cs.skip(1) =~= Seq::<FrameView>::empty());
        assert(receive_all(m.remove(id), cs.skip(1)) == (m.remove(id), Seq::<Seq<u8>>::empty()));
        assert(all_fit(m.remove(id), cs.skip(1)));
        assert(seq![received + rest] + Seq::<Seq<u8>>::empty() =~= seq![received + rest]);
    } else {
        let c = rest.take(chunk as int);
        let q = IncomingView { id, total: received.len() + rest.len(), received: received + c };
        let m1 = m.insert(id, q);
        let tail = rest.skip(chunk as int);
        assert(cs.skip(1) =~= chunks_of(tail, id, chunk));
        assert(receive_step(m, cs[0]) == (m1, Ok::<Option<Seq<u8>>, crate::incoming::ProtocolError>(None)));
        lemma_receive_chunks(m1, id, received + c, tail, chunk);
        assert(m1.remove(id) =~= m.remove(id));
        assert(received + c + tail =~= received + rest);
        assert(Seq::<Seq<u8>>::empty() + seq![received + rest] =~= seq![received + rest]);
    }
}

/// Frames written one after another to a stream are read back in the same
/// order: reading the first takes exactly its bytes and leaves those of the
/// frames after it.
pub proof fn lemma_stream_in_order(f: FrameView, rest: Seq<u8>)
    requires
        fits(f),
    ensures
        spec_decode_stream(spec_encode_stream(f) + rest) == Ok::<Option<(FrameView, nat)>, FrameDecodeError>(
            Some((f, spec_encode_stream(f).len()))),
        (spec_encode_stream(f) + rest).skip(spec_encode_stream(f).len() as int) == rest,
{
    lemma_decode_stream_encode(f, rest);
    assert((spec_encode_stream(f) + rest).skip(spec_encode_stream(f).len() as int) =~= rest);
}

/// A frame touches the buffer of its own id only.
pub proof fn lemma_other_ids_untouched(m: Map<u64, IncomingView>, f: FrameView, k: u64)
    requires
        k != f.id(),
    ensures
        receive_step(m, f).0.contains_key(k) == m.contains_key(k),
        m.contains_key(k) ==> receive_step(m, f).0[k] == m[k],
{
}

/// A header for an id already in flight starts its buffer again, empty,
/// and leaves every other buffer as it was.
pub proof fn lemma_header_restarts(m: Map<u64, IncomingView>, id: u64, total_size: u64)
    requires
        m.contains_key(id),
        total_size > 0,
    ensures
        receive_step(m, FrameView::Header { id, total_size }).0
            == m.insert(id, IncomingView { id, total: total_size as nat, received: Seq::empty() }),
        receive_step(m, FrameView::Header { id, total_size }).1 == Ok::<Option<Seq<u8>>, crate::incoming::ProtocolError>(None),
{
}

proof fn lemma_payloads_concat(a: Seq<FrameView>, b: Seq<FrameView>)
    ensures
        payloads(a + b) == payloads(a) + payloads(b),
    decreases a.len(),
{
    if a.len() == 0 {
        assert(a + b =~= b);
        assert(payloads(a) + payloads(b) =~= payloads(b));
    } else {
        assert((a + b).skip(1) =~= a.skip(1) + b);
        lemma_payloads_concat(a.skip(1), b);
        assert(payloads(a + b) =~= payloads(a) + payloads(b));
    }
}

/// Data frames of one id whose bytes stay short of its announced size are
/// all taken in, and complete nothing.
proof fn lemma_receive_short(m: Map<u64, IncomingView>, id: u64, fs: Seq<FrameView>)
    requires
        m.contains_key(id),
        m[id].id == id,
        m[id].received.len() + payloads(fs).len() < m[id].total,
        forall|i: int| 0 <= i < fs.len() ==> (#[trigger] fs[i]) is Data && fs[i].id() == id,
    ensures
        receive_all(m, fs).0 == m.insert(id, IncomingView { received: m[id].received + payloads(fs), ..m[id] }),
        receive_all(m, fs).1 == Seq::<Seq<u8>>::empty(),
        all_fit(m, fs),
    decreases fs.len(),
{
    if fs.len() == 0 {
        assert(m[id].received + payloads(fs) =~= m[id].received);
        assert(m.insert(id, IncomingView { received: m[id].received + payloads(fs), ..m[id] }) =~= m);
    } else {
        let p = fs[0]->Data_payload;
        assert(payloads(fs) == p + payloads(fs.skip(1)));
        let q = IncomingView { received: m[id].received + p, ..m[id] };
        let m1 = m.insert(id, q);
        assert(receive_step(m, fs[0]) == (m1, Ok::<Option<Seq<u8>>, crate::incoming::ProtocolError>(None)));
        lemma_receive_short(m1, id, fs.skip(1));
        assert(q.received + payloads(fs.skip(1)) =~= m[id].received + payloads(fs));
        assert(m1.insert(id, IncomingView { received: q.received + payloads(fs.skip(1)), ..q })
            =~= m.insert(id, IncomingView { received: m[id].received + payloads(fs), ..m[id] }));
    }
}

/// With one of its data frames lost, a message never completes, and no
/// other buffer is touched: receiving its other frames delivers nothing.
pub proof fn lemma_lost_data_frame(m: Map<u64, IncomingView>, data: Seq<u8>, id: u64, chunk: nat, lost: int)
    requires
        chunk > 0,
        data.len() <= u64::MAX,
        m.contains_key(id) || m.len() < MAX_IN_FLIGHT,
        1 <= lost < frames_of(data, id, chunk).len(),
    ensures
        receive_all(m, frames_of(data, id, chunk).remove(lost)).1 == Seq::<Seq<u8>>::empty(),
        all_fit(m, frames_of(data, id, chunk).remove(lost)),
        forall|k: u64| k != id ==> (#[trigger] receive_all(m, frames_of(data, id, chunk).remove(lost)).0.contains_key(k)
            == m.contains_key(k)),
        forall|k: u64| k != id && m.contains_key(k) ==> #[trigger] receive_all(m, frames_of(data, id, chunk).remove(lost)).0[k] == m[k],
{
    let fs = frames_of(data, id, chunk);
    let cs = chunks_of(data, id, chunk);
    lemma_chunks_cover(data, id, chunk);
    let j = lost - 1;
    let kept = cs.remove(j);
    let g = fs.remove(lost);
    assert(g.skip(1) =~= kept);
    assert(cs =~= cs.take(j) + seq![cs[j]] + cs.skip(j + 1));
    assert(kept =~= cs.take(j) + cs.skip(j + 1));
    lemma_payloads_concat(cs.take(j) + seq![cs[j]], cs.skip(j + 1));
    lemma_payloads_concat(cs.take(j), seq![cs[j]]);
    lemma_payloads_concat(cs.take(j), cs.skip(j + 1));
    assert(seq![cs[j]].skip(1) =~= Seq::<FrameView>::empty());
    assert(payloads(Seq::<FrameView>::empty()) == Seq::<u8>::empty());
    assert(payloads(seq![cs[j]]) == cs[j]->Data_payload + payloads(seq![cs[j]].skip(1)));
    assert(payloads(seq![cs[j]]) =~= cs[j]->Data_payload);
    assert(payloads(kept).len() < data.len());
    let m1 = m.insert(id, IncomingView { id, total: data.len(), received: Seq::empty() });
    assert forall|i: int| 0 <= i < kept.len() implies (#[trigger] kept[i]) is Data && kept[i].id() == id by {
        if i < j {
            assert(kept[i] == cs[i]);
        } else {
            assert(kept[i] == cs[i + 1]);
        }
    }
    assert(Seq::<u8>::empty() + payloads(kept) =~= payloads(kept));
    lemma_receive_short(m1, id, kept);
    assert(Seq::<Seq<u8>>::empty() + Seq::<Seq<u8>>::empty() =~= Seq::<Seq<u8>>::empty());
}

/// A message of `L` bytes goes out as one header and `ceil(L / chunk)`
/// data frames of at most `chunk` bytes each; a new packet produces exactly
/// these frames.
pub proof fn lemma_fragment_count(data: Seq<u8>, id: u64, chunk: nat)
    requires
        chunk > 0,
    ensures
        frames_of(data, id, chunk).len() == 1 + (data.len() + chunk - 1) / chunk as int,
        frames_of(data, id, chunk)[0] is Header,
        forall|i: int| 1 <= i < frames_of(data, id, chunk).len() ==>
            (#[trigger] frames_of(data, id, chunk)[i]) is Data
                && frames_of(data, id, chunk)[i]->Data_payload.len() <= chunk,
        (OutgoingView { data, id, header_sent: false, cursor: 0 }).pending(chunk) == frames_of(data, id, chunk),
{
    lemma_chunk_count(data, id, chunk);
    lemma_chunks_cover(data, id, chunk);
    let fs = frames_of(data, id, chunk);
    let cs = chunks_of(data, id, chunk);
    assert forall|i: int| 1 <= i < fs.len() implies (#[trigger] fs[i]) is Data && fs[i]->Data_payload.len() <= chunk by {
        assert(fs[i] == cs[i - 1]);
    }
    assert(data.skip(0) =~= data);
}

/// While a lower lane holds a packet, no higher lane is served: a poll
/// leaves every lane above it as it was.
pub proof fn lemma_lane_priority(l: Seq<Seq<OutgoingView>>, chunk: nat, low: int, high: int)
    requires
        lanes_wf(l),
        chunk > 0,
        0 <= low < high < l.len(),
        l[low].len() > 0,
    ensures
        poll_step(l, chunk).0[high] == l[high],
        poll_step(l, chunk).1 matches Some(f) && f.id() == l[first_busy(l, 0)][0].id,
        first_busy(l, 0) <= low,
{
    lemma_first_busy(l, 0);
    let i = first_busy(l, 0);
    assert(l[i][0].wf() && !l[i][0].done());
}

/// `n` polls of the lanes, one after another.
pub open spec fn polls(l: Seq<Seq<OutgoingView>>, chunk: nat, n: nat) -> Seq<Seq<OutgoingView>>
    decreases n,
{
    if n == 0 {
        l
    } else {
        poll_step(polls(l, chunk, (n - 1) as nat), chunk).0
    }
}

/// Polls keep the lanes well formed.
pub proof fn lemma_polls_wf(l: Seq<Seq<OutgoingView>>, chunk: nat, n: nat)
    requires
        lanes_wf(l),
        chunk > 0,
    ensures
        lanes_wf(polls(l, chunk, n)),
    decreases n,
{
    if n > 0 {
        lemma_polls_wf(l, chunk, (n - 1) as nat);
        lemma_poll_wf(polls(l, chunk, (n - 1) as nat), chunk);
    }
}

proof fn lemma_poll_wf(l: Seq<Seq<OutgoingView>>, chunk: nat)
    requires
        lanes_wf(l),
        chunk > 0,
    ensures
        lanes_wf(poll_step(l, chunk).0),
{
    lemma_first_busy(l, 0);
    let i = first_busy(l, 0);
    if i < l.len() {
        assert(l[i][0].wf() && !l[i][0].done());
        let l2 = poll_step(l, chunk).0;
        assert forall|a: int, k: int| 0 <= a < l2.len() && 0 <= k < l2[a].len() implies
            #[trigger] l2[a][k].wf() && !l2[a][k].done() by {
            if a == i {
                let q = l[i][0].step(chunk).0;
                if !q.done() && k == 0 {
                    assert(l2[a][k] == q);
                } else if q.done() {
                    assert(l2[a][k] == l[i][k + 1]);
                } else {
                    assert(l2[a][k] == l[i][k]);
                }
            } else {
                assert(l2[a][k] == l[a][k]);
            }
        }
    }
}

/// Over any run of polls during which a lower lane holds a packet at every
/// poll, a higher lane is never served.
pub proof fn lemma_lane_priority_run(l: Seq<Seq<OutgoingView>>, chunk: nat, n: nat, low: int, high: int)
    requires
        lanes_wf(l),
        chunk > 0,
        0 <= low < high < l.len(),
        forall|k: nat| k < n ==> (#[trigger] polls(l, chunk, k))[low].len() > 0,
    ensures
        polls(l, chunk, n)[high] == l[high],
    decreases n,
{
    if n > 0 {
        let m = (n - 1) as nat;
        assert(polls(l, chunk, m)[low].len() > 0);
        lemma_lane_priority_run(l, chunk, m, low, high);
        lemma_polls_wf(l, chunk, m);
        lemma_lane_priority(polls(l, chunk, m), chunk, low, high);
    }
}

/// Within a lane, only the head packet produces frames; the packets behind
/// it keep their order, and the head leaves only after its last frame.
pub proof fn lemma_lane_fifo(l: Seq<Seq<OutgoingView>>, chunk: nat, lane: int)
    requires
        lanes_wf(l),
        chunk > 0,
        0 <= lane < l.len(),
        l[lane].len() > 0,
    ensures
        ({
            let l2 = poll_step(l, chunk).0;
            &&& l2[lane] == l[lane]
                || (l2[lane].len() == l[lane].len() && l2[lane].skip(1) == l[lane].skip(1))
                || (l2[lane] == l[lane].skip(1) && l[lane][0].step(chunk).0.done())
            &&& first_busy(l, 0) == lane ==> (poll_step(l, chunk).1 matches Some(f) && f.id() == l[lane][0].id)
        }),
{
    lemma_first_busy(l, 0);
    let i = first_busy(l, 0);
    if i == lane {
        assert(0 <= i < l.len() && 0 < l[i].len());
        assert(l[i][0].wf() && !l[i][0].done());
        let q = l[i][0].step(chunk).0;
        if !q.done() {
            assert(l[i].update(0, q).skip(1) =~= l[i].skip(1));
        }
    }
}

/// However many of a connection's workers see their transport fail, and
/// with whatever fault, the connection ends once: the first fault queues a
/// fatal error if it is one, then the single disconnect event, and the
/// second changes nothing.
pub proof fn lemma_disconnect_once(s: ConnectionView, first: TransportFault, second: TransportFault)
    requires
        s.wf(),
    ensures
        ({
            let s1 = s.fault_step(first);
            let s2 = s1.fault_step(second);
            let report = if first == TransportFault::Fatal {
                seq![EventView::Error(ConnectionError::Fatal)]
            } else {
                Seq::<EventView>::empty()
            };
            &&& s2 == s1
            &&& s2.state == LinkState::Disconnected
            &&& s.state != LinkState::Disconnected ==> s2.events == s.events + report + seq![EventView::Disconnected]
            &&& s.state == LinkState::Disconnected ==> s2 == s
        }),
{
    let s1 = s.fault_step(first);
    if s.state != LinkState::Disconnected {
        if first == TransportFault::Fatal {
            assert(s1.events =~= s.events + seq![EventView::Error(ConnectionError::Fatal)] + seq![EventView::Disconnected]);
        } else {
            assert(s1.events =~= s.events + Seq::<EventView>::empty() + seq![EventView::Disconnected]);
        }
    }
}

/// Once ended, a connection stays so: stopping it or any later fault
/// changes nothing and queues no further event.
pub proof fn lemma_disconnect_final(s: ConnectionView, fault: TransportFault)
    requires
        s.state == LinkState::Disconnected,
    ensures
        s.fault_step(fault) == s,
        s.disconnect() == s,
{
}

/// Frames reaching a connection one after another over `path`.
pub open spec fn receive_frames(s: ConnectionView, path: Path, fs: Seq<FrameView>) -> ConnectionView
    decreases fs.len(),
{
    if fs.len() == 0 {
        s
    } else {
        receive_frames(s.frame_step(path, fs[0]).0, path, fs.skip(1))
    }
}

/// The events that deliver messages `bs`, in order.
pub open spec fn messages(bs: Seq<Seq<u8>>) -> Seq<EventView> {
    bs.map_values(|b: Seq<u8>| EventView::Message(b))
}

/// While every frame fits, a live connection does what its reassembly map
/// does, and queues each completed message as an event.
proof fn lemma_connection_receives(s: ConnectionView, path: Path, fs: Seq<FrameView>)
    requires
        s.state != LinkState::Disconnected,
        all_fit(s.inflight, fs),
    ensures
        receive_frames(s, path, fs) == (ConnectionView {
            inflight: receive_all(s.inflight, fs).0,
            events: s.events + messages(receive_all(s.inflight, fs).1),
            ..s
        }),
    decreases fs.len(),
{
    if fs.len() == 0 {
        assert(s.events + messages(Seq::<Seq<u8>>::empty()) =~= s.events);
    } else {
        let (m1, r) = receive_step(s.inflight, fs[0]);
        let s1 = s.frame_step(path, fs[0]).0;
        lemma_connection_receives(s1, path, fs.skip(1));
        let out = receive_all(m1, fs.skip(1)).1;
        match r {
            Ok(Some(b)) => {
                assert(s1.events + messages(out) =~= s.events + messages(seq![b] + out));
            },
            _ => {
                assert(s1.events + messages(out) =~= s.events + messages(Seq::<Seq<u8>>::empty() + out));
            },
        }
    }
}

/// A message's frames reaching a live connection, over either path, in
/// order and where there is room for it, queue exactly that message as one
/// event, leave no buffer for its id and nothing else changed.
pub proof fn lemma_connection_round_trip(s: ConnectionView, path: Path, data: Seq<u8>, id: u64)
    requires
        s.state != LinkState::Disconnected,
        data.len() <= u64::MAX,
        s.inflight.contains_key(id) || s.inflight.len() < MAX_IN_FLIGHT,
    ensures
        receive_frames(s, path, frames_of(data, id, MAX_CHUNK as nat)) == (ConnectionView {
            inflight: s.inflight.remove(id),
            events: s.events.push(EventView::Message(data)),
            ..s
        }),
{
    lemma_round_trip(s.inflight, data, id, MAX_CHUNK as nat);
    lemma_connection_receives(s, path, frames_of(data, id, MAX_CHUNK as nat));
    assert(messages(seq![data]) =~= seq![EventView::Message(data)]);
    assert(s.events + messages(seq![data]) =~= s.events.push(EventView::Message(data)));
}

/// With one data frame of a message lost, a live connection that receives
/// the others queues no event and stays as it was but for that id's buffer.
pub proof fn lemma_connection_lost_frame(s: ConnectionView, path: Path, data: Seq<u8>, id: u64, lost: int)
    requires
        s.state != LinkState::Disconnected,
        data.len() <= u64::MAX,
        s.inflight.contains_key(id) || s.inflight.len() < MAX_IN_FLIGHT,
        1 <= lost < frames_of(data, id, MAX_CHUNK as nat).len(),
    ensures
        ({
            let s2 = receive_frames(s, path, frames_of(data, id, MAX_CHUNK as nat).remove(lost));
            &&& s2.events == s.events
            &&& s2.state == s.state
            &&& s2.lanes == s.lanes
            &&& forall|k: u64| k != id ==> (#[trigger] s2.inflight.contains_key(k) == s.inflight.contains_key(k))
            &&& forall|k: u64| k != id && s.inflight.contains_key(k) ==> #[trigger] s2.inflight[k] == s.inflight[k]
        }),
{
    let fs = frames_of(data, id, MAX_CHUNK as nat).remove(lost);
    lemma_lost_data_frame(s.inflight, data, id, MAX_CHUNK as nat, lost);
    lemma_connection_receives(s, path, fs);
    assert(s.events + messages(Seq::<Seq<u8>>::empty()) =~= s.events);
}

/// A header for an id in flight reaching a live connection, over either
/// path, starts that id's buffer again, empty, and changes nothing else.
pub proof fn lemma_connection_header_restarts(s: ConnectionView, path: Path, id: u64, total_size: u64)
    requires
        s.state != LinkState::Disconnected,
        s.inflight.contains_key(id),
        total_size > 0,
    ensures
        s.frame_step(path, FrameView::Header { id, total_size }) == (ConnectionView {
            inflight: s.inflight.insert(id, IncomingView { id, total: total_size as nat, received: Seq::empty() }),
            ..s
        }, RecvAction::Continue),
{
}

/// `n` polls of the lanes from the first on: the lanes after them and the
/// frames they produce, in order.
pub open spec fn poll_run(l: Seq<Seq<OutgoingView>>, chunk: nat, n: nat) -> (Seq<Seq<OutgoingView>>, Seq<FrameView>)
    decreases n,
{
    if n == 0 {
        (l, Seq::empty())
    } else {
        let (l1, f) = poll_step(l, chunk);
        let (l2, fs) = poll_run(l1, chunk, (n - 1) as nat);
        let first = match f {
            Some(f) => seq![f],
            None => Seq::empty(),
        };
        (l2, first + fs)
    }
}

/// `n` steps of a connection's send worker: the state after them and the
/// frames it writes, in order.
pub open spec fn writes(s: ConnectionView, n: nat) -> (ConnectionView, Seq<FrameView>)
    decreases n,
{
    if n == 0 {
        (s, Seq::empty())
    } else {
        let (s1, a) = s.send_step();
        let (s2, fs) = writes(s1, (n - 1) as nat);
        let first = match a {
            SendActionView::Write(f) => seq![f],
            _ => Seq::empty(),
        };
        (s2, first + fs)
    }
}

proof fn lemma_writes_poll(s: ConnectionView, n: nat)
    requires
        s.state != LinkState::Disconnected,
    ensures
        writes(s, n) == (ConnectionView { lanes: poll_run(s.lanes, MAX_CHUNK as nat, n).0, ..s },
            poll_run(s.lanes, MAX_CHUNK as nat, n).1),
    decreases n,
{
    if n > 0 {
        let s1 = s.send_step().0;
        assert(s1 == ConnectionView { lanes: poll_step(s.lanes, MAX_CHUNK as nat).0, ..s });
        lemma_writes_poll(s1, (n - 1) as nat);
    }
}

proof fn lemma_poll_run_split(l: Seq<Seq<OutgoingView>>, chunk: nat, a: nat, b: nat)
    ensures
        poll_run(l, chunk, a + b) == (poll_run(poll_run(l, chunk, a).0, chunk, b).0,
            poll_run(l, chunk, a).1 + poll_run(poll_run(l, chunk, a).0, chunk, b).1),
    decreases a,
{
    if a == 0 {
        assert(Seq::<FrameView>::empty() + poll_run(l, chunk, b).1 =~= poll_run(l, chunk, b).1);
    } else {
        let l1 = poll_step(l, chunk).0;
        lemma_poll_run_split(l1, chunk, (a - 1) as nat, b);
        assert((a + b - 1) as nat == (a - 1) as nat + b);
        let first = match poll_step(l, chunk).1 {
            Some(f) => seq![f],
            None => Seq::<FrameView>::empty(),
        };
        let x = poll_run(l1, chunk, (a - 1) as nat);
        let y = poll_run(x.0, chunk, b);
        assert(first + (x.1 + y.1) =~= (first + x.1) + y.1);
    }
}

proof fn lemma_first_busy_at(l: Seq<Seq<OutgoingView>>, i: int)
    requires
        0 <= i < l.len(),
        l[i].len() > 0,
        forall|j: int| 0 <= j < i ==> #[trigger] l[j].len() == 0,
    ensures
        first_busy(l, 0) == i,
{
    lemma_first_busy(l, 0);
    let b = first_busy(l, 0);
    if b > i {
        assert(l[i].len() == 0);
    }
}

/// The head packet of the lowest busy lane goes out whole, frame after
/// frame, before anything else; then it leaves its lane.
proof fn lemma_drain_head(l: Seq<Seq<OutgoingView>>, chunk: nat)
    requires
        lanes_wf(l),
        chunk > 0,
        first_busy(l, 0) < l.len(),
    ensures
        ({
            let i = first_busy(l, 0);
            let p = l[i][0];
            poll_run(l, chunk, p.pending(chunk).len()) == (l.update(i, l[i].skip(1)), p.pending(chunk))
        }),
    decreases l[first_busy(l, 0)][0].pending(chunk).len(),
{
    lemma_first_busy(l, 0);
    let i = first_busy(l, 0);
    let p = l[i][0];
    assert(p.wf() && !p.done());
    lemma_step_pending(p, chunk);
    let (q, r) = p.step(chunk);
    let f = r->Ok_0;
    let l1 = poll_step(l, chunk).0;
    if q.done() {
        assert(q.data.skip(q.cursor as int).len() == 0);
        assert(q.pending(chunk).len() == 0);
        assert(p.pending(chunk) =~= seq![f]);
        assert(poll_run(l1, chunk, 0) == (l1, Seq::<FrameView>::empty()));
        assert(seq![f] + Seq::<FrameView>::empty() =~= seq![f]);
    } else {
        lemma_poll_wf(l, chunk);
        assert(l1 == l.update(i, l[i].update(0, q)));
        assert forall|j: int| 0 <= j < i implies #[trigger] l1[j].len() == 0 by {
            assert(l1[j] == l[j]);
        }
        lemma_first_busy_at(l1, i);
        assert(l1[i][0] == q);
        lemma_drain_head(l1, chunk);
        assert(l1.update(i, l1[i].skip(1)) =~~= l.update(i, l[i].skip(1)));
        assert((p.pending(chunk).len() - 1) as nat == q.pending(chunk).len());
    }
}

proof fn lemma_idle_lanes(l: Seq<Seq<OutgoingView>>)
    requires
        first_busy(l, 0) >= l.len(),
    ensures
        forall|j: int| 0 <= j < l.len() ==> #[trigger] l[j].len() == 0,
{
    lemma_first_busy(l, 0);
}

/// A message sent on an idle, live connection goes out as exactly its
/// frames: one header and then `ceil(L / MAX_CHUNK)` data frames, over as
/// many steps of the send worker; then the lanes are idle again.
pub proof fn lemma_connection_fragments(s: ConnectionView, lane: int, data: Seq<u8>)
    requires
        s.wf(),
        s.state != LinkState::Disconnected,
        s.next_id < u64::MAX,
        0 <= lane < LANE_COUNT,
        first_busy(s.lanes, 0) >= LANE_COUNT,
        data.len() <= u64::MAX,
    ensures
        ({
            let (s1, r) = s.send(lane, data);
            let n = 1 + (data.len() + MAX_CHUNK - 1) / MAX_CHUNK as int;
            &&& r == Ok::<u64, SendError>(s.next_id)
            &&& writes(s1, n as nat) == (ConnectionView { next_id: (s.next_id + 1) as u64, ..s },
                frames_of(data, s.next_id, MAX_CHUNK as nat))
        }),
{
    let c = MAX_CHUNK as nat;
    let s1 = s.send(lane, data).0;
    let p = OutgoingView { data, id: s.next_id, header_sent: false, cursor: 0 };
    lemma_idle_lanes(s.lanes);
    lemma_fragment_count(data, s.next_id, c);
    let l1 = s1.lanes;
    assert(l1[lane] =~= seq![p]);
    assert forall|j: int| 0 <= j < lane implies #[trigger] l1[j].len() == 0 by {
        assert(l1[j] == s.lanes[j]);
    }
    lemma_first_busy_at(l1, lane);
    assert(lanes_wf(l1));
    lemma_drain_head(l1, c);
    assert(l1.update(lane, l1[lane].skip(1)) =~~= s.lanes);
    lemma_writes_poll(s1, p.pending(c).len());
}

/// Two messages sent on an idle, live connection, the first on a higher
/// lane than the second: the send worker writes every frame of the second
/// before any frame of the first, whatever the order of the calls.
pub proof fn lemma_connection_priority(s: ConnectionView, low: int, high: int, a: Seq<u8>, b: Seq<u8>)
    requires
        s.wf(),
        s.state != LinkState::Disconnected,
        s.next_id < u64::MAX - 1,
        0 <= low < high < LANE_COUNT,
        first_busy(s.lanes, 0) >= LANE_COUNT,
        a.len() <= u64::MAX,
        b.len() <= u64::MAX,
    ensures
        ({
            let (s1, rb) = s.send(high, b);
            let (s2, ra) = s1.send(low, a);
            let fa = frames_of(a, (s.next_id + 1) as u64, MAX_CHUNK as nat);
            let fb = frames_of(b, s.next_id, MAX_CHUNK as nat);
            &&& rb == Ok::<u64, SendError>(s.next_id)
            &&& ra == Ok::<u64, SendError>((s.next_id + 1) as u64)
            &&& writes(s2, (fa.len() + fb.len()) as nat) == (ConnectionView { next_id: (s.next_id + 2) as u64, ..s },
                fa + fb)
        }),
{
    let c = MAX_CHUNK as nat;
    let s1 = s.send(high, b).0;
    let s2 = s1.send(low, a).0;
    let pb = OutgoingView { data: b, id: s.next_id, header_sent: false, cursor: 0 };
    let pa = OutgoingView { data: a, id: (s.next_id + 1) as u64, header_sent: false, cursor: 0 };
    lemma_idle_lanes(s.lanes);
    lemma_fragment_count(a, pa.id, c);
    lemma_fragment_count(b, pb.id, c);
    let l2 = s2.lanes;
    assert(l2[low] =~= seq![pa]);
    assert(l2[high] =~= seq![pb]);
    assert forall|j: int| 0 <= j < low implies #[trigger] l2[j].len() == 0 by {
        assert(l2[j] == s.lanes[j]);
    }
    lemma_first_busy_at(l2, low);
    assert(lanes_wf(l2));
    lemma_drain_head(l2, c);
    let l3 = l2.update(low, l2[low].skip(1));
    assert(l3 =~~= s.lanes.update(high, seq![pb]));
    assert forall|j: int| 0 <= j < high implies #[trigger] l3[j].len() == 0 by {
        assert(l3[j] == s.lanes[j]);
    }
    lemma_first_busy_at(l3, high);
    lemma_drain_head(l3, c);
    assert(l3.update(high, l3[high].skip(1)) =~~= s.lanes);
    lemma_poll_run_split(l2, c, pa.pending(c).len(), pb.pending(c).len());
    lemma_writes_poll(s2, (pa.pending(c).len() + pb.pending(c).len()) as nat);
}

/// Two messages sent one after the other on the same lane of an idle, live
/// connection: the send worker writes every frame of the first before any
/// frame of the second.
pub proof fn lemma_connection_fifo(s: ConnectionView, lane: int, a: Seq<u8>, b: Seq<u8>)
    requires
        s.wf(),
        s.state != LinkState::Disconnected,
        s.next_id < u64::MAX - 1,
        0 <= lane < LANE_COUNT,
        first_busy(s.lanes, 0) >= LANE_COUNT,
        a.len() <= u64::MAX,
        b.len() <= u64::MAX,
    ensures
        ({
            let (s1, ra) = s.send(lane, a);
            let (s2, rb) = s1.send(lane, b);
            let fa = frames_of(a, s.next_id, MAX_CHUNK as nat);
            let fb = frames_of(b, (s.next_id + 1) as u64, MAX_CHUNK as nat);
            &&& ra == Ok::<u64, SendError>(s.next_id)
            &&& rb == Ok::<u64, SendError>((s.next_id + 1) as u64)
            &&& writes(s2, (fa.len() + fb.len()) as nat) == (ConnectionView { next_id: (s.next_id + 2) as u64, ..s },
                fa + fb)
        }),
{
    let c = MAX_CHUNK as nat;
    let s1 = s.send(lane, a).0;
    let s2 = s1.send(lane, b).0;
    let pa = OutgoingView { data: a, id: s.next_id, header_sent: false, cursor: 0 };
    let pb = OutgoingView { data: b, id: (s.next_id + 1) as u64, header_sent: false, cursor: 0 };
    lemma_idle_lanes(s.lanes);
    lemma_fragment_count(a, pa.id, c);
    lemma_fragment_count(b, pb.id, c);
    let l2 = s2.lanes;
    assert(l2[lane] =~= seq![pa, pb]);
    assert forall|j: int| 0 <= j < lane implies #[trigger] l2[j].len() == 0 by {
        assert(l2[j] == s.lanes[j]);
    }
    lemma_first_busy_at(l2, lane);
    assert(lanes_wf(l2));
    lemma_drain_head(l2, c);
    let l3 = l2.update(lane, l2[lane].skip(1));
    assert(l3 =~~= s.lanes.update(lane, seq![pb]));
    lemma_first_busy_at(l3, lane);
    lemma_drain_head(l3, c);
    assert(l3.update(lane, l3[lane].skip(1)) =~~= s.lanes);
    lemma_poll_run_split(l2, c, pa.pending(c).len(), pb.pending(c).len());
    lemma_writes_poll(s2, (pa.pending(c).len() + pb.pending(c).len()) as nat);
}

} // verus!
