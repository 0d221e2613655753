//! A message on its way in: the buffer that data frames fill until the
//! size its header announced is reached.
use vstd::prelude::*;
use vstd::slice::slice_to_vec;
use crate::frame::{Frame, FrameView};

verus! {

/// A frame that breaks the order header, then data frames.
#[derive(Debug, Clone, Copy, PartialEq, Eq, Structural)]
pub enum ProtocolError {
    /// A data frame where a header was needed, or the reverse.
    UnexpectedFrame,
    /// A data frame for an id with no header before it.
    UnknownId,
    /// A data frame that would carry the message past its announced size.
    Overflow,
    /// A header for a new id while the most messages allowed are in flight.
    TooManyInFlight,
}

/// The reassembly buffer of one message.
#[derive(Debug)]
pub struct IncomingPacket {
    id: u64,
    total_size: u64,
    buffer: Vec<u8>,
}

/// The mathematical value of an [`IncomingPacket`].
pub struct IncomingView {
    pub id: u64,
    /// The size that the header announced.
    pub total: nat,
    /// The bytes received so far.
    pub received: Seq<u8>,
}

impl IncomingView {
    pub open spec fn wf(self) -> bool {
        self.received.len() <= self.total
    }

    pub open spec fn complete(self) -> bool {
        self.received.len() == self.total
    }

    /// An empty buffer for the message that header `f` announces.
    pub open spec fn started(f: FrameView) -> Result<IncomingView, ProtocolError> {
        match f {
            FrameView::Header { id, total_size } =>
                Ok(IncomingView { id, total: total_size as nat, received: Seq::empty() }),
            FrameView::Data { .. } => Err(ProtocolError::UnexpectedFrame),
        }
    }

    /// The buffer after taking frame `f` in, or why it cannot.
    pub open spec fn absorb(self, f: FrameView) -> Result<IncomingView, ProtocolError> {
        match f {
            FrameView::Header { .. } => Err(ProtocolError::UnexpectedFrame),
            FrameView::Data { id, payload } => {
                if id != self.id {
                    Err(ProtocolError::UnknownId)
                } else if self.received.len() + payload.len() > self.total {
                    Err(ProtocolError::Overflow)
                } else {
                    Ok(IncomingView { received: self.received + payload, ..self })
                }
            },
        }
    }
}

impl View for IncomingPacket {
    type V = IncomingView;

    closed spec fn view(&self) -> IncomingView {
        IncomingView { id: self.id, total: self.total_size as nat, received: self.buffer@ }
    }
}

impl IncomingPacket {
    pub open spec fn wf(&self) -> bool {
        self@.wf()
    }

    /// Starts the buffer of the message that a header frame announces.
    pub fn new(header: Frame) -> (r: Result<IncomingPacket, ProtocolError>)
        ensures
            match (r, IncomingView::started(header@)) {
                (Ok(p), Ok(q)) => p@ == q && p.wf(),
                (Err(e), Err(d)) => e == d,
                _ => false,
            },
    {
        match header {
            Frame::Header { id, total_size } => {
                let p = IncomingPacket { id, total_size, buffer: Vec::new() };
                proof {
                    assert(p@.received =~= Seq::<u8>::empty());
                }
                Ok(p)
            },
            Frame::Data { .. } => Err(ProtocolError::UnexpectedFrame),
        }
    }

    pub fn id(&self) -> (r: u64)
        ensures
            r == self@.id,
    {
        self.id
    }

    /// Whether every announced byte has arrived.
    pub fn is_complete(&self) -> (r: bool)
        ensures
            r == self@.complete(),
    {
        self.buffer.len() as u64 == self.total_size
    }

    /// Appends a data frame's payload. Returns whether the message is now
    /// complete; on an error the buffer is left as it was.
    pub fn absorb(&mut self, data: Frame) -> (r: Result<bool, ProtocolError>)
        requires
            old(self).wf(),
        ensures
            final(self).wf(),
            match (r, old(self)@.absorb(data@)) {
                (Ok(c), Ok(q)) => final(self)@ == q && c == q.complete(),
                (Err(e), Err(d)) => e == d && final(self)@ == old(self)@,
                _ => false,
            },
    {
        match data {
            Frame::Header { .. } => Err(ProtocolError::UnexpectedFrame),
            Frame::Data { id, payload } => {
                if id != self.id {
                    return Err(ProtocolError::UnknownId);
                }
                let room = self.total_size - self.buffer.len() as u64;
                if payload.len() as u64 > room {
                    return Err(ProtocolError::Overflow);
                }
                let mut payload = payload;
                self.buffer.append(&mut payload);
                Ok(self.buffer.len() as u64 == self.total_size)
            },
        }
    }

    /// Hands out the bytes received.
    pub fn take(self) -> (r: Vec<u8>)
        ensures
            r@ == self@.received,
    {
        self.buffer
    }
}

} // verus!
