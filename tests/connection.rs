use voxel_net::frame::{decode_stream, encode_stream};
use voxel_net::{
    Connection, ConnectionError, Error, Event, Frame, FrameDecodeError, IoFailure, KickSession, LinkState,
    PacketReceived, Path, ProtocolError, RecvAction, SendAction, SendError, Shader, TransportFault, DEFAULT_LANE,
    LANE_COUNT, MAX_IN_FLIGHT,
};

/// Runs the send worker of `a` until it parks, and returns the frames it wrote.
fn drain(a: &mut Connection) -> Vec<Frame> {
    let mut out = Vec::new();
    loop {
        match a.next_send_action() {
            SendAction::Write(f) => out.push(f),
            SendAction::Park => return out,
            SendAction::Exit => panic!("connection ended"),
        }
    }
}

fn events(b: &mut Connection) -> Vec<Event> {
    let mut out = Vec::new();
    while let Some(e) = b.try_recv() {
        out.push(e);
    }
    out
}

#[test]
fn hello_over_a_loopback_stream() {
    let mut a = Connection::new();
    let mut b = Connection::new();
    a.start();
    b.start();
    assert_eq!(a.send(b"Hello".to_vec()), Ok(1));
    let mut wire = Vec::new();
    for f in drain(&mut a) {
        wire.extend(encode_stream(&f));
    }
    let mut at = 0;
    while let Ok(Some((f, n))) = decode_stream(&wire[at..]) {
        assert_eq!(b.on_frame(Path::Stream, f), RecvAction::Continue);
        at += n;
    }
    assert_eq!(at, wire.len());
    assert_eq!(events(&mut b), vec![Event::Message(b"Hello".to_vec())]);
}

#[test]
fn five_thousand_bytes_on_the_wire() {
    let mut a = Connection::new();
    a.start();
    a.send(vec![3u8; 5000]).unwrap();
    let frames = drain(&mut a);
    let headers = frames.iter().filter(|f| f.is_header()).count();
    assert_eq!(headers, 1);
    assert_eq!(frames.len() - headers, 3);
    assert!(a.is_idle());
}

#[test]
fn ids_start_at_one_and_grow() {
    let mut a = Connection::new();
    assert_eq!(a.send(vec![1]), Ok(1));
    assert_eq!(a.send(vec![2]), Ok(2));
    assert_eq!(a.send_on_lane(0, vec![3]), Ok(3));
}

#[test]
fn lower_lane_goes_first() {
    let mut a = Connection::new();
    a.start();
    let bulk = a.send_on_lane(200, vec![0u8; 4100]).unwrap();
    let urgent = a.send_on_lane(2, vec![1u8; 2500]).unwrap();
    let default = a.send(vec![2u8; 10]).unwrap();
    let ids: Vec<u64> = drain(&mut a).iter().map(|f| f.id()).collect();
    assert_eq!(ids, vec![urgent, urgent, urgent, default, default, bulk, bulk, bulk, bulk]);
}

#[test]
fn same_lane_keeps_order() {
    let mut a = Connection::new();
    a.start();
    let first = a.send(vec![1u8; 2001]).unwrap();
    let second = a.send(vec![2u8; 1]).unwrap();
    let ids: Vec<u64> = drain(&mut a).iter().map(|f| f.id()).collect();
    assert_eq!(ids, vec![first, first, first, second, second]);
}

#[test]
fn peer_reset_seen_by_both_workers_ends_once() {
    let mut a = Connection::new();
    a.start();
    a.on_fault(TransportFault::PeerDisconnected);
    a.on_fault(TransportFault::PeerDisconnected);
    assert_eq!(a.state(), LinkState::Disconnected);
    assert_eq!(events(&mut a), vec![Event::Disconnected]);
    assert_eq!(a.next_send_action(), SendAction::Exit);
    assert_eq!(a.on_frame(Path::Stream, Frame::Header { id: 1, total_size: 1 }), RecvAction::Exit);
}

#[test]
fn fatal_fault_is_reported_then_ends() {
    let mut a = Connection::new();
    a.start();
    a.on_fault(TransportFault::Fatal);
    a.on_fault(TransportFault::PeerDisconnected);
    assert_eq!(events(&mut a), vec![Event::Error(ConnectionError::Fatal), Event::Disconnected]);
}

#[test]
fn stop_ends_once_and_refuses_sends() {
    let mut a = Connection::new();
    a.start();
    a.stop();
    a.stop();
    a.on_fault(TransportFault::PeerDisconnected);
    assert_eq!(events(&mut a), vec![Event::Disconnected]);
    assert_eq!(a.send(vec![1]), Err(SendError::Disconnected));
}

#[test]
fn no_lane_past_the_last() {
    let mut a = Connection::new();
    assert_eq!(a.send_on_lane(LANE_COUNT, vec![1]), Err(SendError::NoSuchLane));
    assert_eq!(a.send_on_lane(LANE_COUNT - 1, vec![1]), Ok(1));
    assert!(DEFAULT_LANE < LANE_COUNT);
}

#[test]
fn start_only_from_open() {
    let mut a = Connection::new();
    assert_eq!(a.state(), LinkState::Open);
    a.start();
    assert_eq!(a.state(), LinkState::Running);
    a.stop();
    a.start();
    assert_eq!(a.state(), LinkState::Disconnected);
}

#[test]
fn opening_the_datagram_channel_announces_it() {
    let mut a = Connection::new();
    a.start();
    assert_eq!(a.send(vec![1]), Ok(1));
    assert!(!a.is_datagram_open());
    assert_eq!(a.open_udp(b"udp:9000".to_vec()), Ok(2));
    assert!(a.is_datagram_open());
    assert_eq!(a.send(vec![2]), Ok(3));
    let frames = drain(&mut a);
    let ids: Vec<u64> = frames.iter().map(|f| f.id()).collect();
    assert_eq!(ids, vec![1, 1, 2, 2, 3, 3]);
    assert_eq!(frames[3], Frame::Data { id: 2, payload: b"udp:9000".to_vec() });
}

#[test]
fn too_many_messages_in_flight() {
    let mut b = Connection::new();
    b.start();
    for id in 1..=MAX_IN_FLIGHT as u64 {
        assert_eq!(b.on_frame(Path::Datagram, Frame::Header { id, total_size: 2 }), RecvAction::Continue);
    }
    let extra = MAX_IN_FLIGHT as u64 + 1;
    assert_eq!(b.on_frame(Path::Datagram, Frame::Header { id: extra, total_size: 2 }), RecvAction::Continue);
    assert!(!b.is_in_flight(extra));
    assert_eq!(b.on_frame(Path::Datagram, Frame::Header { id: 1, total_size: 1 }), RecvAction::Continue);
    assert!(b.is_in_flight(1));
    assert_eq!(b.on_frame(Path::Stream, Frame::Header { id: extra, total_size: 2 }), RecvAction::Exit);
    assert_eq!(
        events(&mut b),
        vec![Event::Error(ConnectionError::Protocol(ProtocolError::TooManyInFlight)), Event::Disconnected]
    );
}

#[test]
fn stream_protocol_error_ends_the_connection() {
    let mut a = Connection::new();
    a.start();
    let r = a.on_frame(Path::Stream, Frame::Data { id: 9, payload: vec![1] });
    assert_eq!(r, RecvAction::Exit);
    assert_eq!(
        events(&mut a),
        vec![Event::Error(ConnectionError::Protocol(ProtocolError::UnknownId)), Event::Disconnected]
    );
}

#[test]
fn datagram_protocol_error_is_dropped() {
    let mut a = Connection::new();
    a.start();
    let r = a.on_frame(Path::Datagram, Frame::Data { id: 9, payload: vec![1] });
    assert_eq!(r, RecvAction::Continue);
    assert_eq!(a.state(), LinkState::Running);
    assert_eq!(events(&mut a), vec![]);
}

#[test]
fn stream_decode_error_ends_the_connection() {
    let mut a = Connection::new();
    a.start();
    assert_eq!(a.on_decode_error(Path::Stream, FrameDecodeError::UnknownKind), RecvAction::Exit);
    assert_eq!(
        events(&mut a),
        vec![Event::Error(ConnectionError::Decode(FrameDecodeError::UnknownKind)), Event::Disconnected]
    );
    let mut b = Connection::new();
    b.start();
    assert_eq!(b.on_decode_error(Path::Datagram, FrameDecodeError::Truncated), RecvAction::Continue);
    assert_eq!(events(&mut b), vec![]);
}

#[test]
fn datagram_reordering_completes_in_absorb_order() {
    let mut b = Connection::new();
    b.start();
    b.on_frame(Path::Datagram, Frame::Header { id: 1, total_size: 3 });
    b.on_frame(Path::Datagram, Frame::Header { id: 2, total_size: 1 });
    b.on_frame(Path::Datagram, Frame::Data { id: 2, payload: vec![5] });
    assert!(b.is_in_flight(1));
    b.on_frame(Path::Datagram, Frame::Data { id: 1, payload: vec![1, 2, 3] });
    assert!(!b.is_in_flight(1));
    assert_eq!(events(&mut b), vec![Event::Message(vec![5]), Event::Message(vec![1, 2, 3])]);
}

#[test]
fn zero_length_message_arrives_empty() {
    let mut a = Connection::new();
    let mut b = Connection::new();
    a.start();
    b.start();
    a.send(Vec::new()).unwrap();
    for f in drain(&mut a) {
        b.on_frame(Path::Stream, f);
    }
    assert_eq!(events(&mut b), vec![Event::Message(Vec::new())]);
}

#[test]
fn client_error_wraps_connection_error() {
    let e: Error = ConnectionError::Fatal.into();
    assert_eq!(e, Error::NetworkErr(ConnectionError::Fatal));
}

#[test]
fn shader_bytes_are_its_text() {
    let s = Shader::from_str("void main() {}");
    assert_eq!(s.bytes(), b"void main() {}");
}

#[test]
fn session_events_carry_their_session() {
    let p = PacketReceived { session_id: 3, data: vec![1] };
    let k = KickSession { session_id: 3 };
    assert_eq!(p.session_id, k.session_id);
}

#[test]
fn io_failures_split_into_peer_gone_and_fatal() {
    for k in [IoFailure::ConnectionReset, IoFailure::ConnectionAborted, IoFailure::ConnectionRefused, IoFailure::Closed] {
        assert_eq!(TransportFault::classify(k), TransportFault::PeerDisconnected);
    }
    assert_eq!(TransportFault::classify(IoFailure::Other), TransportFault::Fatal);
}
