use voxel_net::{Frame, IncomingPacket, OutgoingPacket, ProtocolError, Reassembly, SendDone, MAX_CHUNK};

fn message(len: usize) -> Vec<u8> {
    (0..len).map(|i| (i * 7 % 256) as u8).collect()
}

fn all_frames(data: Vec<u8>, id: u64, chunk: usize) -> Vec<Frame> {
    let mut p = OutgoingPacket::new(data, id);
    let mut out = Vec::new();
    while let Ok(f) = p.next_frame(chunk) {
        out.push(f);
    }
    assert!(p.is_done());
    assert_eq!(p.next_frame(chunk), Err(SendDone));
    out
}

fn data_sizes(frames: &[Frame]) -> Vec<usize> {
    frames
        .iter()
        .filter_map(|f| match f {
            Frame::Data { payload, .. } => Some(payload.len()),
            Frame::Header { .. } => None,
        })
        .collect()
}

#[test]
fn five_thousand_bytes_make_a_header_and_three_data_frames() {
    let frames = all_frames(message(5000), 1, MAX_CHUNK);
    assert_eq!(frames.len(), 4);
    assert_eq!(frames[0], Frame::Header { id: 1, total_size: 5000 });
    assert_eq!(data_sizes(&frames), vec![2000, 2000, 1000]);
}

#[test]
fn fragment_counts_at_chunk_edges() {
    assert_eq!(data_sizes(&all_frames(message(1), 1, MAX_CHUNK)), vec![1]);
    assert_eq!(data_sizes(&all_frames(message(1999), 1, MAX_CHUNK)), vec![1999]);
    assert_eq!(data_sizes(&all_frames(message(2000), 1, MAX_CHUNK)), vec![2000]);
    assert_eq!(data_sizes(&all_frames(message(2001), 1, MAX_CHUNK)), vec![2000, 1]);
    assert_eq!(data_sizes(&all_frames(message(6000), 1, MAX_CHUNK)), vec![2000, 2000, 2000]);
}

#[test]
fn empty_message_is_a_lone_header() {
    let frames = all_frames(Vec::new(), 9, MAX_CHUNK);
    assert_eq!(frames, vec![Frame::Header { id: 9, total_size: 0 }]);
}

#[test]
fn incoming_needs_a_header() {
    let r = IncomingPacket::new(Frame::Data { id: 1, payload: vec![1] });
    assert_eq!(r.err(), Some(ProtocolError::UnexpectedFrame));
}

#[test]
fn incoming_absorbs_until_complete() {
    let mut p = IncomingPacket::new(Frame::Header { id: 4, total_size: 3 }).unwrap();
    assert_eq!(p.absorb(Frame::Data { id: 4, payload: vec![1, 2] }), Ok(false));
    assert!(!p.is_complete());
    assert_eq!(p.absorb(Frame::Data { id: 4, payload: vec![3] }), Ok(true));
    assert!(p.is_complete());
    assert_eq!(p.take(), vec![1, 2, 3]);
}

#[test]
fn incoming_rejects_wrong_id_overflow_and_headers() {
    let mut p = IncomingPacket::new(Frame::Header { id: 4, total_size: 2 }).unwrap();
    assert_eq!(p.absorb(Frame::Data { id: 5, payload: vec![1] }), Err(ProtocolError::UnknownId));
    assert_eq!(p.absorb(Frame::Data { id: 4, payload: vec![1, 2, 3] }), Err(ProtocolError::Overflow));
    assert_eq!(p.absorb(Frame::Header { id: 4, total_size: 2 }), Err(ProtocolError::UnexpectedFrame));
    assert_eq!(p.absorb(Frame::Data { id: 4, payload: vec![1, 2] }), Ok(true));
    assert_eq!(p.take(), vec![1, 2]);
}

fn reassemble(frames: Vec<Frame>, r: &mut Reassembly) -> Vec<Vec<u8>> {
    let mut out = Vec::new();
    for f in frames {
        if let Ok(Some(m)) = r.receive(f) {
            out.push(m);
        }
    }
    out
}

#[test]
fn round_trip_for_every_size_class() {
    for len in [0usize, 1, 1999, 2000, 4000, 4500] {
        let data = message(len);
        let mut r = Reassembly::new();
        let got = reassemble(all_frames(data.clone(), 11, MAX_CHUNK), &mut r);
        assert_eq!(got, vec![data]);
        assert!(!r.contains(11));
    }
}

#[test]
fn data_without_header_is_unknown() {
    let mut r = Reassembly::new();
    assert_eq!(r.receive(Frame::Data { id: 1, payload: vec![1] }), Err(ProtocolError::UnknownId));
}

#[test]
fn duplicate_data_after_completion_is_unknown() {
    let mut r = Reassembly::new();
    assert_eq!(r.receive(Frame::Header { id: 1, total_size: 1 }), Ok(None));
    assert_eq!(r.receive(Frame::Data { id: 1, payload: vec![8] }), Ok(Some(vec![8])));
    assert_eq!(r.receive(Frame::Data { id: 1, payload: vec![8] }), Err(ProtocolError::UnknownId));
}

#[test]
fn repeated_header_restarts_only_its_own_id() {
    let mut r = Reassembly::new();
    assert_eq!(r.receive(Frame::Header { id: 1, total_size: 4 }), Ok(None));
    assert_eq!(r.receive(Frame::Header { id: 2, total_size: 2 }), Ok(None));
    assert_eq!(r.receive(Frame::Data { id: 1, payload: vec![1, 2] }), Ok(None));
    assert_eq!(r.receive(Frame::Data { id: 2, payload: vec![7] }), Ok(None));
    assert_eq!(r.receive(Frame::Header { id: 1, total_size: 4 }), Ok(None));
    assert_eq!(r.receive(Frame::Data { id: 1, payload: vec![5, 6, 7, 8] }), Ok(Some(vec![5, 6, 7, 8])));
    assert_eq!(r.receive(Frame::Data { id: 2, payload: vec![9] }), Ok(Some(vec![7, 9])));
}

#[test]
fn lost_data_frame_leaves_message_incomplete_and_others_intact() {
    let big = message(5000);
    let small = message(10);
    let mut frames = all_frames(big, 1, MAX_CHUNK);
    frames.remove(2);
    let mut r = Reassembly::new();
    let mut got = reassemble(frames, &mut r);
    got.extend(reassemble(all_frames(small.clone(), 2, MAX_CHUNK), &mut r));
    assert_eq!(got, vec![small]);
    assert!(r.contains(1));
    assert!(!r.contains(2));
}
