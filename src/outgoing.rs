//! A message on its way out: one header frame, then its bytes in chunks.
use vstd::prelude::*;
use vstd::slice::{slice_subrange, slice_to_vec};
use crate::frame::{Frame, FrameView};
pub use crate::frame::MAX_CHUNK;

verus! {

/// Returned by [`OutgoingPacket::next_frame`] once every frame has been produced.
#[derive(Debug, Clone, Copy, PartialEq, Eq, Structural)]
pub struct SendDone;

/// One serialised message that is not yet fully framed.
#[derive(Debug)]
pub struct OutgoingPacket {
    data: Vec<u8>,
    id: u64,
    header_sent: bool,
    cursor: usize,
}

/// The mathematical value of an [`OutgoingPacket`].
pub struct OutgoingView {
    /// The whole message.
    pub data: Seq<u8>,
    pub id: u64,
    /// Whether the header frame has been produced.
    pub header_sent: bool,
    /// How many bytes of `data` have been framed.
    pub cursor: nat,
}

/// The data frames that carry `data` in chunks of at most `chunk` bytes.
pub open spec fn chunks_of(data: Seq<u8>, id: u64, chunk: nat) -> Seq<FrameView>
    decreases data.len(),
{
    if data.len() == 0 || chunk == 0 {
        Seq::empty()
    } else if data.len() <= chunk {
        seq![FrameView::Data { id, payload: data }]
    } else {
        seq![FrameView::Data { id, payload: data.take(chunk as int) }]
            + chunks_of(data.skip(chunk as int), id, chunk)
    }
}

/// All the frames of a message: its header, then its data frames.
pub open spec fn frames_of(data: Seq<u8>, id: u64, chunk: nat) -> Seq<FrameView> {
    seq![FrameView::Header { id, total_size: data.len() as u64 }] + chunks_of(data, id, chunk)
}

impl OutgoingView {
    pub open spec fn wf(self) -> bool {
        self.cursor <= self.data.len()
    }

    /// Every frame has been produced.
    pub open spec fn done(self) -> bool {
        self.header_sent && self.cursor == self.data.len()
    }

    /// The frames still to come, in order.
    pub open spec fn pending(self, chunk: nat) -> Seq<FrameView> {
        let rest = chunks_of(self.data.skip(self.cursor as int), self.id, chunk);
        if self.header_sent {
            rest
        } else {
            seq![FrameView::Header { id: self.id, total_size: self.data.len() as u64 }] + rest
        }
    }

    /// One call of `next_frame`: the packet after it and what it returns.
    pub open spec fn step(self, chunk: nat) -> (OutgoingView, Result<FrameView, SendDone>) {
        if !self.header_sent {
            (
                OutgoingView { header_sent: true, ..self },
                Ok(FrameView::Header { id: self.id, total_size: self.data.len() as u64 }),
            )
        } else if self.cursor < self.data.len() {
            let end: nat = if self.data.len() - self.cursor <= chunk {
                self.data.len()
            } else {
                self.cursor + chunk
            };
            (
                OutgoingView { cursor: end, ..self },
                Ok(FrameView::Data { id: self.id, payload: self.data.subrange(self.cursor as int, end as int) }),
            )
        } else {
            (self, Err(SendDone))
        }
    }
}

impl View for OutgoingPacket {
    type V = OutgoingView;

    closed spec fn view(&self) -> OutgoingView {
        OutgoingView {
            data: self.data@,
            id: self.id,
            header_sent: self.header_sent,
            cursor: self.cursor as nat,
        }
    }
}

impl OutgoingPacket {
    pub open spec fn wf(&self) -> bool {
        self@.wf()
    }

    /// A packet for message `id` that has produced no frame yet.
    pub fn new(data: Vec<u8>, id: u64) -> (r: OutgoingPacket)
        ensures
            r.wf(),
            r@ == (OutgoingView { data: data@, id, header_sent: false, cursor: 0 }),
    {
        OutgoingPacket { data, id, header_sent: false, cursor: 0 }
    }

    pub fn id(&self) -> (r: u64)
        ensures
            r == self@.id,
    {
        self.id
    }

    /// Whether every frame has been produced.
    pub fn is_done(&self) -> (r: bool)
        requires
            self.wf(),
        ensures
            r == self@.done(),
    {
        self.header_sent && self.cursor == self.data.len()
    }

    /// Produces the next frame: the header on the first call, then data
    /// frames of at most `max_chunk` bytes, then `SendDone` on every call
    /// once the whole message has been framed.
    pub fn next_frame(&mut self, max_chunk: usize) -> (r: Result<Frame, SendDone>)
        requires
            old(self).wf(),
            max_chunk > 0,
        ensures
            final(self).wf(),
            old(self)@.step(max_chunk as nat) == (final(self)@, match r {
                Ok(f) => Ok::<FrameView, SendDone>(f@),
                Err(d) => Err(d),
            }),
    {
        if !self.header_sent {
            self.header_sent = true;
            return Ok(Frame::Header { id: self.id, total_size: self.data.len() as u64 });
        }
        let len = self.data.len();
        if self.cursor < len {
            let end = if len - self.cursor <= max_chunk {
                len
            } else {
                self.cursor + max_chunk
            };
            let payload = slice_to_vec(slice_subrange(self.data.as_slice(), self.cursor, end));
            self.cursor = end;
            Ok(Frame::Data { id: self.id, payload })
        } else {
            Err(SendDone)
        }
    }
}

/// One step takes exactly the first pending frame, and `SendDone` comes
/// only when nothing is pending.
pub proof fn lemma_step_pending(p: OutgoingView, chunk: nat)
    requires
        p.wf(),
        chunk > 0,
    ensures
        p.step(chunk).0.wf(),
        match p.step(chunk).1 {
            Ok(f) => p.pending(chunk) == seq![f] + p.step(chunk).0.pending(chunk),
            Err(_) => p.pending(chunk).len() == 0 && p.done() && p.step(chunk).0 == p,
        },
{
    let (q, r) = p.step(chunk);
    if !p.header_sent {
        assert(p.pending(chunk) =~= seq![r->Ok_0] + q.pending(chunk));
    } else if p.cursor < p.data.len() {
        let rest = p.data.skip(p.cursor as int);
        let f = r->Ok_0;
        if rest.len() <= chunk {
            assert(rest =~= p.data.subrange(p.cursor as int, p.data.len() as int));
            assert(q.data.skip(q.cursor as int).len() == 0);
            assert(q.pending(chunk) =~= Seq::<FrameView>::empty());
            assert(p.pending(chunk) =~= seq![f] + q.pending(chunk));
        } else {
            assert(rest.take(chunk as int) =~= p.data.subrange(p.cursor as int, (p.cursor + chunk) as int));
            assert(rest.skip(chunk as int) =~= p.data.skip(q.cursor as int));
            assert(p.pending(chunk) =~= seq![f] + q.pending(chunk));
        }
    } else {
        assert(p.data.skip(p.cursor as int).len() == 0);
    }
}

/// A message of `L` bytes has `ceil(L / chunk)` data frames.
pub proof fn lemma_chunk_count(data: Seq<u8>, id: u64, chunk: nat)
    requires
        chunk > 0,
    ensures
        chunks_of(data, id, chunk).len() == (data.len() + chunk - 1) / chunk as int,
    decreases data.len(),
{
    let l = data.len() as int;
    let c = chunk as int;
    if l == 0 {
        assert((c - 1) / c == 0) by (nonlinear_arith) requires c > 0;
    } else if l <= c {
        assert((l + c - 1) / c == 1) by (nonlinear_arith) requires 0 < l <= c;
    } else {
        lemma_chunk_count(data.skip(chunk as int), id, chunk);
        assert((l + c - 1) / c == 1 + (l - c + c - 1) / c) by (nonlinear_arith) requires l > c, c > 0;
    }
}

/// Every data frame of a message carries between one and `chunk` bytes of
/// it, and together they carry the whole message, in order.
pub proof fn lemma_chunks_cover(data: Seq<u8>, id: u64, chunk: nat)
    requires
        chunk > 0,
    ensures
        forall|i: int| 0 <= i < chunks_of(data, id, chunk).len() ==> {
            let f = #[trigger] chunks_of(data, id, chunk)[i];
            &&& f is Data
            &&& f.id() == id
            &&& 0 < f->Data_payload.len() <= chunk
        },
        payloads(chunks_of(data, id, chunk)) == data,
    decreases data.len(),
{
    let cs = chunks_of(data, id, chunk);
    if data.len() == 0 {
        assert(payloads(cs) =~= data);
    } else if data.len() <= chunk {
        assert(payloads(cs) == data + payloads(cs.skip(1)));
        assert(payloads(cs.skip(1)) == Seq::<u8>::empty());
        assert(payloads(cs) =~= data);
    } else {
        let rest = chunks_of(data.skip(chunk as int), id, chunk);
        lemma_chunks_cover(data.skip(chunk as int), id, chunk);
        assert(cs.skip(1) =~= rest);
        assert(forall|i: int| 1 <= i < cs.len() ==> cs[i] == rest[i - 1]);
        assert(payloads(cs) == data.take(chunk as int) + payloads(rest));
        assert(payloads(cs) =~= data);
    }
}

/// The payloads of a sequence of frames, concatenated; headers add nothing.
pub open spec fn payloads(fs: Seq<FrameView>) -> Seq<u8>
    decreases fs.len(),
{
    if fs.len() == 0 {
        Seq::empty()
    } else {
        let first = match fs[0] {
            FrameView::Data { payload, .. } => payload,
            FrameView::Header { .. } => Seq::empty(),
        };
        first + payloads(fs.skip(1))
    }
}

} // verus!
