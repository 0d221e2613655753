use voxel_net::frame::{decode, decode_stream, encode, encode_stream};
use voxel_net::{Frame, FrameDecodeError, StreamReader};

#[test]
fn header_encoding_is_kind_id_size() {
    let f = Frame::Header { id: 0x0102, total_size: 5 };
    let b = encode(&f);
    assert_eq!(b, vec![0, 2, 1, 0, 0, 0, 0, 0, 0, 5, 0, 0, 0, 0, 0, 0, 0]);
}

#[test]
fn data_encoding_is_kind_id_payload() {
    let f = Frame::Data { id: 7, payload: vec![9, 8] };
    assert_eq!(encode(&f), vec![1, 7, 0, 0, 0, 0, 0, 0, 0, 9, 8]);
}

#[test]
fn header_round_trip() {
    let f = Frame::Header { id: u64::MAX, total_size: 123456789 };
    assert_eq!(decode(&encode(&f)), Ok(Frame::Header { id: u64::MAX, total_size: 123456789 }));
}

#[test]
fn data_round_trip() {
    let payload: Vec<u8> = (0..2000u32).map(|i| (i % 251) as u8).collect();
    let f = Frame::Data { id: 42, payload: payload.clone() };
    assert_eq!(decode(&encode(&f)), Ok(Frame::Data { id: 42, payload }));
}

#[test]
fn empty_data_round_trip() {
    let f = Frame::Data { id: 3, payload: vec![] };
    assert_eq!(decode(&encode(&f)), Ok(Frame::Data { id: 3, payload: vec![] }));
}

#[test]
fn decode_errors() {
    assert_eq!(decode(&[]), Err(FrameDecodeError::Truncated));
    assert_eq!(decode(&[0, 1, 2, 3]), Err(FrameDecodeError::Truncated));
    let mut long = encode(&Frame::Header { id: 1, total_size: 1 });
    long.push(0);
    assert_eq!(decode(&long), Err(FrameDecodeError::TrailingBytes));
    assert_eq!(decode(&[1, 0, 0]), Err(FrameDecodeError::Truncated));
    assert_eq!(decode(&[2, 0, 0, 0, 0, 0, 0, 0, 0]), Err(FrameDecodeError::UnknownKind));
}

#[test]
fn stream_frame_is_length_prefixed() {
    let f = Frame::Header { id: 1, total_size: 2 };
    let b = encode_stream(&f);
    assert_eq!(b.len(), 8 + 17);
    assert_eq!(&b[0..8], &[17, 0, 0, 0, 0, 0, 0, 0]);
}

#[test]
fn stream_decode_reads_one_frame_and_leaves_the_rest() {
    let mut buf = encode_stream(&Frame::Data { id: 5, payload: vec![1, 2, 3] });
    let first_len = buf.len();
    buf.extend(encode_stream(&Frame::Header { id: 6, total_size: 0 }));
    match decode_stream(&buf) {
        Ok(Some((f, n))) => {
            assert_eq!(f, Frame::Data { id: 5, payload: vec![1, 2, 3] });
            assert_eq!(n, first_len);
            assert_eq!(decode_stream(&buf[n..]), Ok(Some((Frame::Header { id: 6, total_size: 0 }, 25))));
        }
        other => panic!("unexpected {:?}", other),
    }
}

#[test]
fn stream_decode_waits_for_more_bytes() {
    let buf = encode_stream(&Frame::Data { id: 5, payload: vec![1, 2, 3] });
    assert_eq!(decode_stream(&buf[..5]), Ok(None));
    assert_eq!(decode_stream(&buf[..buf.len() - 1]), Ok(None));
}

#[test]
fn stream_decode_reports_a_bad_body() {
    let buf = vec![1, 0, 0, 0, 0, 0, 0, 0, 9];
    assert_eq!(decode_stream(&buf), Err(FrameDecodeError::UnknownKind));
}

#[test]
fn stream_reader_reassembles_split_frames() {
    let mut wire = encode_stream(&Frame::Header { id: 1, total_size: 3 });
    wire.extend(encode_stream(&Frame::Data { id: 1, payload: vec![4, 5, 6] }));
    let mut r = StreamReader::new();
    let mut got = Vec::new();
    for piece in wire.chunks(5) {
        r.push(piece);
        while let Ok(Some(f)) = r.next_frame() {
            got.push(f);
        }
    }
    assert_eq!(got, vec![Frame::Header { id: 1, total_size: 3 }, Frame::Data { id: 1, payload: vec![4, 5, 6] }]);
    assert_eq!(r.next_frame(), Ok(None));
}

#[test]
fn stream_reader_reports_garbage() {
    let mut r = StreamReader::new();
    r.push(&[1, 0, 0, 0, 0, 0, 0, 0, 7]);
    assert_eq!(r.next_frame(), Err(FrameDecodeError::UnknownKind));
    assert_eq!(r.next_frame(), Err(FrameDecodeError::UnknownKind));
}

#[test]
fn oversized_frames_are_refused() {
    let f = Frame::Data { id: 1, payload: vec![0; 2001] };
    assert_eq!(decode(&encode(&f)), Err(FrameDecodeError::Oversized));
    let full = Frame::Data { id: 1, payload: vec![0; 2000] };
    assert_eq!(decode(&encode(&full)), Ok(Frame::Data { id: 1, payload: vec![0; 2000] }));
    let mut prefix = vec![0xff, 0xff, 0xff, 0xff, 0, 0, 0, 0];
    prefix.push(1);
    assert_eq!(decode_stream(&prefix), Err(FrameDecodeError::Oversized));
    let mut r = StreamReader::new();
    r.push(&[218, 7, 0, 0, 0, 0, 0, 0]);
    assert_eq!(r.next_frame(), Err(FrameDecodeError::Oversized));
}
