//! The messages in flight on the receiving side, keyed by id.
//!
//! An incomplete message has no timeout: it keeps its buffer until its id
//! gets a new header or the connection ends. What that can hold is bounded
//! by count instead: at most [`MAX_IN_FLIGHT`] ids are in flight, and a
//! header for a further id is refused with
//! [`ProtocolError::TooManyInFlight`].
use vstd::prelude::*;
use std::collections::HashMap;
use crate::frame::{Frame, FrameView};
use crate::incoming::{IncomingPacket, IncomingView, ProtocolError};

verus! {

broadcast use vstd::std_specs::hash::group_hash_axioms;

/// The most messages that can be in flight at once.
pub const MAX_IN_FLIGHT: usize = 1024;

/// The in-flight messages of a connection.
#[derive(Debug)]
pub struct Reassembly {
    packets: HashMap<u64, IncomingPacket>,
}

/// What receiving one frame gives: a completed message, nothing yet, or
/// why the frame does not fit.
pub type Received = Result<Option<Seq<u8>>, ProtocolError>;

/// Receiving frame `f` when `m` is in flight: the messages in flight after
/// it, and what it gives.
///
/// A header starts (or starts again) the buffer of its id; one that
/// announces no bytes completes at once, and one for a new id finds no room
/// while [`MAX_IN_FLIGHT`] ids are in flight. A data frame goes to the buffer of
/// its id, and a buffer that is full leaves the map as a message. A frame
/// that does not fit leaves the map as it was.
pub open spec fn receive_step(m: Map<u64, IncomingView>, f: FrameView) -> (Map<u64, IncomingView>, Received) {
    match f {
        FrameView::Header { id, total_size } => {
            if total_size == 0 {
                (m.remove(id), Ok(Some(Seq::empty())))
            } else if !m.contains_key(id) && m.len() >= MAX_IN_FLIGHT {
                (m, Err(ProtocolError::TooManyInFlight))
            } else {
                (m.insert(id, IncomingView { id, total: total_size as nat, received: Seq::empty() }), Ok(None))
            }
        },
        FrameView::Data { id, .. } => {
            if !m.contains_key(id) {
                (m, Err(ProtocolError::UnknownId))
            } else {
                match m[id].absorb(f) {
                    Err(e) => (m, Err(e)),
                    Ok(q) => if q.complete() {
                        (m.remove(id), Ok(Some(q.received)))
                    } else {
                        (m.insert(id, q), Ok(None))
                    },
                }
            }
        },
    }
}

/// Receiving frames one after another: the messages in flight after the
/// last one, and the messages completed, in order. Frames that do not fit
/// are dropped.
pub open spec fn receive_all(m: Map<u64, IncomingView>, fs: Seq<FrameView>) -> (Map<u64, IncomingView>, Seq<Seq<u8>>)
    decreases fs.len(),
{
    if fs.len() == 0 {
        (m, Seq::empty())
    } else {
        let (m1, r) = receive_step(m, fs[0]);
        let (m2, out) = receive_all(m1, fs.skip(1));
        let first = match r {
            Ok(Some(b)) => seq![b],
            _ => Seq::empty(),
        };
        (m2, first + out)
    }
}

/// Every buffer in flight is well formed, sits under its own id, and still
/// waits for bytes.
pub open spec fn inflight_wf(m: Map<u64, IncomingView>) -> bool {
    forall|k: u64| #[trigger] m.contains_key(k) ==> m[k].wf() && m[k].id == k && !m[k].complete()
}

impl View for Reassembly {
    type V = Map<u64, IncomingView>;

    closed spec fn view(&self) -> Map<u64, IncomingView> {
        self.packets@.map_values(|p: IncomingPacket| p@)
    }
}

impl Reassembly {
    pub open spec fn wf(&self) -> bool {
        inflight_wf(self@)
    }

    /// Nothing in flight.
    pub fn new() -> (r: Reassembly)
        ensures
            r.wf(),
            r@ == Map::<u64, IncomingView>::empty(),
    {
        let r = Reassembly { packets: HashMap::new() };
        proof {
            assert(r@ =~= Map::<u64, IncomingView>::empty());
        }
        r
    }

    /// Whether message `id` is in flight.
    pub fn contains(&self, id: u64) -> (r: bool)
        ensures
            r == self@.contains_key(id),
    {
        self.packets.contains_key(&id)
    }

    /// Takes one frame in; see [`receive_step`].
    pub fn receive(&mut self, frame: Frame) -> (r: Result<Option<Vec<u8>>, ProtocolError>)
        requires
            old(self).wf(),
        ensures
            final(self).wf(),
            receive_step(old(self)@, frame@) == (final(self)@, match r {
                Ok(Some(b)) => Ok(Some(b@)),
                Ok(None) => Ok(None),
                Err(e) => Err::<Option<Seq<u8>>, ProtocolError>(e),
            }),
    {
        let ghost m = self@;
        let ghost fv = frame@;
        let id = frame.id();
        if frame.is_header() {
            let total_zero = match &frame {
                Frame::Header { total_size, .. } => *total_size == 0,
                Frame::Data { .. } => false,
            };
            if total_zero {
                self.packets.remove(&id);
                proof {
                    assert(self@ =~= m.remove(id));
                }
                return Ok(Some(Vec::new()));
            }
            proof {
                assert(self@.dom() =~= self.packets@.dom());
            }
            if !self.packets.contains_key(&id) && self.packets.len() >= MAX_IN_FLIGHT {
                return Err(ProtocolError::TooManyInFlight);
            }
            match IncomingPacket::new(frame) {
                Ok(p) => {
                    self.packets.insert(id, p);
                    proof {
                        assert(self@ =~= receive_step(m, fv).0);
                    }
                    Ok(None)
                },
                Err(e) => Err(e),
            }
        } else {
            match self.packets.remove(&id) {
                None => {
                    proof {
                        assert(self@ =~= m);
                    }
                    Err(ProtocolError::UnknownId)
                },
                Some(p) => {
                    proof {
                        assert(m.contains_key(id) && m[id] == p@);
                    }
                    let mut p = p;
                    match p.absorb(frame) {
                        Err(e) => {
                            self.packets.insert(id, p);
                            proof {
                                assert(self@ =~= m);
                            }
                            Err(e)
                        },
                        Ok(true) => {
                            proof {
                                assert(self@ =~= m.remove(id));
                            }
                            Ok(Some(p.take()))
                        },
                        Ok(false) => {
                            self.packets.insert(id, p);
                            proof {
                                assert(self@ =~= receive_step(m, fv).0);
                            }
                            Ok(None)
                        },
                    }
                },
            }
        }
    }
}

} // verus!
