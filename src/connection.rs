//! The connection: its lifecycle, what `send` enqueues, and the decisions
//! of its send and receive workers, as a state machine without I/O. The
//! caller owns the sockets and the threads: it hands each frame, decode
//! failure or transport fault to the connection and carries out the
//! action it gets back.
use vstd::prelude::*;
use std::collections::VecDeque;
use crate::frame::{Frame, FrameDecodeError, FrameView};
use crate::incoming::{IncomingView, ProtocolError};
use crate::lanes::{first_busy, lanes_wf, poll_step, Lanes, DEFAULT_LANE, LANE_COUNT};
use crate::outgoing::{OutgoingPacket, OutgoingView, MAX_CHUNK};
use crate::reassembly::{inflight_wf, receive_step, Reassembly};

verus! {

/// Where a connection is in its life.
#[derive(Debug, Clone, Copy, PartialEq, Eq, Structural)]
pub enum LinkState {
    /// Created; the workers have not been started.
    Open,
    /// The stream workers run.
    Running,
    /// Stopped, or the peer or the transport failed. Final.
    Disconnected,
}

/// The transport a frame came over or a worker serves.
#[derive(Debug, Clone, Copy, PartialEq, Eq, Structural)]
pub enum Path {
    /// Ordered and reliable: a frame out of order means the two ends
    /// disagree, and ends the connection.
    Stream,
    /// May lose, repeat or reorder frames: a frame that does not fit is
    /// dropped.
    Datagram,
}

/// An I/O failure that a transport reports.
#[derive(Debug, Clone, Copy, PartialEq, Eq, Structural)]
pub enum TransportFault {
    /// The peer reset, aborted or refused the connection.
    PeerDisconnected,
    /// Any other I/O failure.
    Fatal,
}

/// How a socket operation failed, as far as the connection cares.
#[derive(Debug, Clone, Copy, PartialEq, Eq, Structural)]
pub enum IoFailure {
    ConnectionReset,
    ConnectionAborted,
    ConnectionRefused,
    /// The peer closed the stream.
    Closed,
    /// Anything else.
    Other,
}

impl TransportFault {
    /// Whether a failure means the peer has gone away.
    pub open spec fn spec_classify(kind: IoFailure) -> TransportFault {
        match kind {
            IoFailure::Other => TransportFault::Fatal,
            _ => TransportFault::PeerDisconnected,
        }
    }

    /// A reset, aborted, refused or closed connection means the peer has
    /// gone away; any other failure is fatal.
    pub fn classify(kind: IoFailure) -> (r: TransportFault)
        ensures
            r == Self::spec_classify(kind),
    {
        match kind {
            IoFailure::Other => TransportFault::Fatal,
            _ => TransportFault::PeerDisconnected,
        }
    }
}

/// An error that reaches the consumer among the messages.
#[derive(Debug, Clone, Copy, PartialEq, Eq, Structural)]
pub enum ConnectionError {
    /// A frame out of sequence on the stream.
    Protocol(ProtocolError),
    /// Bytes on the stream that are no frame.
    Decode(FrameDecodeError),
    /// An I/O failure other than the peer going away.
    Fatal,
}

/// Why `send` enqueued nothing.
#[derive(Debug, Clone, Copy, PartialEq, Eq, Structural)]
pub enum SendError {
    /// The connection is disconnected.
    Disconnected,
    /// There is no lane with that index.
    NoSuchLane,
    /// Every message id has been used.
    IdsExhausted,
}

/// What the consumer receives, in order.
#[derive(Debug, PartialEq, Eq)]
pub enum Event {
    /// A complete message.
    Message(Vec<u8>),
    /// An error; see [`ConnectionError`].
    Error(ConnectionError),
    /// The connection is over. Sent once.
    Disconnected,
}

/// The mathematical value of an [`Event`].
pub enum EventView {
    Message(Seq<u8>),
    Error(ConnectionError),
    Disconnected,
}

impl View for Event {
    type V = EventView;

    open spec fn view(&self) -> EventView {
        match self {
            Event::Message(b) => EventView::Message(b@),
            Event::Error(e) => EventView::Error(*e),
            Event::Disconnected => EventView::Disconnected,
        }
    }
}

/// What a send worker does next.
#[derive(Debug, PartialEq, Eq)]
pub enum SendAction {
    /// Write this frame.
    Write(Frame),
    /// Nothing to send: wait until `send` wakes it.
    Park,
    /// The connection is over: leave the loop.
    Exit,
}

/// What a receive worker does next.
#[derive(Debug, Clone, Copy, PartialEq, Eq, Structural)]
pub enum RecvAction {
    /// Read the next frame.
    Continue,
    /// The connection is over: leave the loop.
    Exit,
}

/// The transport state of one connection.
#[derive(Debug)]
pub struct Connection {
    state: LinkState,
    datagram_open: bool,
    next_id: u64,
    lanes: Lanes,
    inflight: Reassembly,
    events: VecDeque<Event>,
}

/// The mathematical value of a [`Connection`].
pub struct ConnectionView {
    pub state: LinkState,
    pub datagram_open: bool,
    /// The id the next message gets.
    pub next_id: u64,
    pub lanes: Seq<Seq<OutgoingView>>,
    pub inflight: Map<u64, IncomingView>,
    /// Events not yet taken by the consumer, oldest first.
    pub events: Seq<EventView>,
}

impl ConnectionView {
    pub open spec fn wf(self) -> bool {
        &&& self.next_id >= 1
        &&& lanes_wf(self.lanes)
        &&& inflight_wf(self.inflight)
    }

    /// The state after the connection ends: the disconnect event is queued
    /// on the way in, and never again.
    pub open spec fn disconnect(self) -> ConnectionView {
        if self.state == LinkState::Disconnected {
            self
        } else {
            ConnectionView {
                state: LinkState::Disconnected,
                events: self.events.push(EventView::Disconnected),
                ..self
            }
        }
    }

    /// Queues an event.
    pub open spec fn emit(self, e: EventView) -> ConnectionView {
        ConnectionView { events: self.events.push(e), ..self }
    }

    /// `send_on_lane`: the state after it and the id given or the error.
    pub open spec fn send(self, lane: int, data: Seq<u8>) -> (ConnectionView, Result<u64, SendError>) {
        if self.state == LinkState::Disconnected {
            (self, Err(SendError::Disconnected))
        } else if !(0 <= lane < LANE_COUNT) {
            (self, Err(SendError::NoSuchLane))
        } else if self.next_id == u64::MAX {
            (self, Err(SendError::IdsExhausted))
        } else {
            let p = OutgoingView { data, id: self.next_id, header_sent: false, cursor: 0 };
            (
                ConnectionView {
                    next_id: (self.next_id + 1) as u64,
                    lanes: self.lanes.update(lane, self.lanes[lane].push(p)),
                    ..self
                },
                Ok(self.next_id),
            )
        }
    }

    /// The send worker's decision: the state after it and its action.
    pub open spec fn send_step(self) -> (ConnectionView, SendActionView) {
        if self.state == LinkState::Disconnected {
            (self, SendActionView::Exit)
        } else {
            let (l, f) = poll_step(self.lanes, MAX_CHUNK as nat);
            match f {
                Some(f) => (ConnectionView { lanes: l, ..self }, SendActionView::Write(f)),
                None => (self, SendActionView::Park),
            }
        }
    }

    /// A frame from `path` reaches the receive worker.
    pub open spec fn frame_step(self, path: Path, f: FrameView) -> (ConnectionView, RecvAction) {
        if self.state == LinkState::Disconnected {
            (self, RecvAction::Exit)
        } else {
            let (m, r) = receive_step(self.inflight, f);
            match r {
                Ok(Some(b)) => (ConnectionView { inflight: m, ..self }.emit(EventView::Message(b)), RecvAction::Continue),
                Ok(None) => (ConnectionView { inflight: m, ..self }, RecvAction::Continue),
                Err(e) => match path {
                    Path::Stream => (
                        self.emit(EventView::Error(ConnectionError::Protocol(e))).disconnect(),
                        RecvAction::Exit,
                    ),
                    Path::Datagram => (self, RecvAction::Continue),
                },
            }
        }
    }

    /// Bytes from `path` that are no frame reach the receive worker.
    pub open spec fn decode_error_step(self, path: Path, e: FrameDecodeError) -> (ConnectionView, RecvAction) {
        if self.state == LinkState::Disconnected {
            (self, RecvAction::Exit)
        } else {
            match path {
                Path::Stream => (self.emit(EventView::Error(ConnectionError::Decode(e))).disconnect(), RecvAction::Exit),
                Path::Datagram => (self, RecvAction::Continue),
            }
        }
    }

    /// A worker's transport reports a fault.
    pub open spec fn fault_step(self, fault: TransportFault) -> ConnectionView {
        if self.state == LinkState::Disconnected {
            self
        } else {
            match fault {
                TransportFault::PeerDisconnected => self.disconnect(),
                TransportFault::Fatal => self.emit(EventView::Error(ConnectionError::Fatal)).disconnect(),
            }
        }
    }
}

/// The mathematical value of a [`SendAction`].
pub enum SendActionView {
    Write(FrameView),
    Park,
    Exit,
}

impl View for SendAction {
    type V = SendActionView;

    open spec fn view(&self) -> SendActionView {
        match self {
            SendAction::Write(f) => SendActionView::Write(f@),
            SendAction::Park => SendActionView::Park,
            SendAction::Exit => SendActionView::Exit,
        }
    }
}

impl View for Connection {
    type V = ConnectionView;

    closed spec fn view(&self) -> ConnectionView {
        ConnectionView {
            state: self.state,
            datagram_open: self.datagram_open,
            next_id: self.next_id,
            lanes: self.lanes@,
            inflight: self.inflight@,
            events: self.events@.map_values(|e: Event| e@),
        }
    }
}

impl Connection {
    pub open spec fn wf(&self) -> bool {
        self@.wf()
    }

    /// A connection that is open, not yet started, with no datagram
    /// channel, empty lanes and nothing in flight; the first message gets
    /// id 1.
    pub fn new() -> (r: Connection)
        ensures
            r.wf(),
            r@.state == LinkState::Open,
            !r@.datagram_open,
            r@.next_id == 1,
            r@.lanes == Seq::new(LANE_COUNT as nat, |i: int| Seq::<OutgoingView>::empty()),
            r@.inflight == Map::<u64, IncomingView>::empty(),
            r@.events == Seq::<EventView>::empty(),
    {
        let r = Connection {
            state: LinkState::Open,
            datagram_open: false,
            next_id: 1,
            lanes: Lanes::new(),
            inflight: Reassembly::new(),
            events: VecDeque::new(),
        };
        proof {
            assert(r@.events =~= Seq::<EventView>::empty());
        }
        r
    }

    pub fn state(&self) -> (r: LinkState)
        ensures
            r == self@.state,
    {
        self.state
    }

    pub fn is_datagram_open(&self) -> (r: bool)
        ensures
            r == self@.datagram_open,
    {
        self.datagram_open
    }

    /// Whether message `id` is being reassembled.
    pub fn is_in_flight(&self, id: u64) -> (r: bool)
        ensures
            r == self@.inflight.contains_key(id),
    {
        self.inflight.contains(id)
    }

    /// Whether no packet waits to be sent.
    pub fn is_idle(&self) -> (r: bool)
        requires
            self.wf(),
        ensures
            r == (first_busy(self@.lanes, 0) >= LANE_COUNT),
    {
        self.lanes.is_idle()
    }

    /// Moves an open connection to running; any other state stays.
    pub fn start(&mut self)
        ensures
            final(self)@ == (ConnectionView {
                state: if old(self)@.state == LinkState::Open { LinkState::Running } else { old(self)@.state },
                ..old(self)@
            }),
    {
        if self.state == LinkState::Open {
            self.state = LinkState::Running;
        }
    }

    /// Opens the datagram channel, and enqueues on the default lane, under
    /// the next id, the serialised announcement that tells the peer where
    /// datagrams are received; returns that id as `send` does. The channel
    /// can be opened once: a second opening is a caller's error.
    pub fn open_udp(&mut self, announcement: Vec<u8>) -> (r: Result<u64, SendError>)
        requires
            old(self).wf(),
            !old(self)@.datagram_open,
        ensures
            final(self).wf(),
            (ConnectionView { datagram_open: true, ..old(self)@ }).send(DEFAULT_LANE as int, announcement@)
                == (final(self)@, r),
    {
        self.datagram_open = true;
        self.send(announcement)
    }

    fn emit(&mut self, e: Event)
        ensures
            final(self)@ == old(self)@.emit(e@),
    {
        let ghost v = e@;
        self.events.push_back(e);
        proof {
            assert(self@.events =~= old(self)@.events.push(v));
        }
    }

    fn disconnect(&mut self)
        ensures
            final(self)@ == old(self)@.disconnect(),
    {
        if self.state != LinkState::Disconnected {
            self.state = LinkState::Disconnected;
            self.emit(Event::Disconnected);
        }
    }

    /// Ends the connection: the workers leave their loops, and a consumer
    /// waiting for an event gets the disconnect event (once).
    pub fn stop(&mut self)
        ensures
            final(self)@ == old(self)@.disconnect(),
    {
        self.disconnect();
    }

    /// Enqueues a serialised message on a lane under the next id, and
    /// returns that id.
    pub fn send_on_lane(&mut self, lane: usize, data: Vec<u8>) -> (r: Result<u64, SendError>)
        requires
            old(self).wf(),
        ensures
            final(self).wf(),
            old(self)@.send(lane as int, data@) == (final(self)@, r),
    {
        if self.state == LinkState::Disconnected {
            return Err(SendError::Disconnected);
        }
        if lane >= LANE_COUNT {
            return Err(SendError::NoSuchLane);
        }
        if self.next_id == u64::MAX {
            return Err(SendError::IdsExhausted);
        }
        let id = self.next_id;
        self.lanes.push(lane, OutgoingPacket::new(data, id));
        self.next_id = id + 1;
        Ok(id)
    }

    /// Enqueues a serialised message on the default lane; see
    /// [`Connection::send_on_lane`].
    pub fn send(&mut self, data: Vec<u8>) -> (r: Result<u64, SendError>)
        requires
            old(self).wf(),
        ensures
            final(self).wf(),
            old(self)@.send(DEFAULT_LANE as int, data@) == (final(self)@, r),
    {
        self.send_on_lane(DEFAULT_LANE, data)
    }

    /// The send worker's next step: the next frame of the highest-priority
    /// waiting packet, or park when none waits, or leave once disconnected.
    pub fn next_send_action(&mut self) -> (r: SendAction)
        requires
            old(self).wf(),
        ensures
            final(self).wf(),
            old(self)@.send_step() == (final(self)@, r@),
    {
        if self.state == LinkState::Disconnected {
            return SendAction::Exit;
        }
        match self.lanes.poll(MAX_CHUNK) {
            Some(f) => SendAction::Write(f),
            None => SendAction::Park,
        }
    }

    /// The receive worker has read a frame from `path`.
    pub fn on_frame(&mut self, path: Path, frame: Frame) -> (r: RecvAction)
        requires
            old(self).wf(),
        ensures
            final(self).wf(),
            old(self)@.frame_step(path, frame@) == (final(self)@, r),
    {
        if self.state == LinkState::Disconnected {
            return RecvAction::Exit;
        }
        let ghost before = self.inflight@;
        match self.inflight.receive(frame) {
            Ok(Some(b)) => {
                self.emit(Event::Message(b));
                RecvAction::Continue
            },
            Ok(None) => RecvAction::Continue,
            Err(e) => {
                assert(self.inflight@ == before);
                match path {
                    Path::Stream => {
                        self.emit(Event::Error(ConnectionError::Protocol(e)));
                        self.disconnect();
                        RecvAction::Exit
                    },
                    Path::Datagram => RecvAction::Continue,
                }
            },
        }
    }

    /// The receive worker has read bytes from `path` that are no frame.
    pub fn on_decode_error(&mut self, path: Path, e: FrameDecodeError) -> (r: RecvAction)
        requires
            old(self).wf(),
        ensures
            final(self).wf(),
            old(self)@.decode_error_step(path, e) == (final(self)@, r),
    {
        if self.state == LinkState::Disconnected {
            return RecvAction::Exit;
        }
        match path {
            Path::Stream => {
                self.emit(Event::Error(ConnectionError::Decode(e)));
                self.disconnect();
                RecvAction::Exit
            },
            Path::Datagram => RecvAction::Continue,
        }
    }

    /// A worker's transport failed. The worker leaves its loop; the
    /// connection ends, reporting a fatal fault first.
    pub fn on_fault(&mut self, fault: TransportFault)
        requires
            old(self).wf(),
        ensures
            final(self).wf(),
            final(self)@ == old(self)@.fault_step(fault),
    {
        if self.state == LinkState::Disconnected {
            return;
        }
        match fault {
            TransportFault::PeerDisconnected => self.disconnect(),
            TransportFault::Fatal => {
                self.emit(Event::Error(ConnectionError::Fatal));
                self.disconnect();
            },
        }
    }

    /// Takes the oldest event, if any.
    pub fn try_recv(&mut self) -> (r: Option<Event>)
        ensures
            old(self)@.events.len() == 0 ==> r is None && final(self)@ == old(self)@,
            old(self)@.events.len() > 0 ==> (r matches Some(e) && e@ == old(self)@.events[0]),
            old(self)@.events.len() > 0 ==> final(self)@ == (ConnectionView {
                events: old(self)@.events.skip(1),
                ..old(self)@
            }),
    {
        let r = self.events.pop_front();
        proof {
            if old(self)@.events.len() > 0 {
                assert(self@.events =~= old(self)@.events.skip(1));
            } else {
                assert(self@.events =~= old(self)@.events);
            }
        }
        r
    }
}

} // verus!
