//! The two wire frames and their byte encodings.
//!
//! A frame body is a kind byte followed by its fields in little-endian order:
//! `0, id, total_size` for a header and `1, id, payload` for a data frame.
//! Over a byte stream each body is preceded by its length as a little-endian
//! `u64`; over datagrams one body fills one datagram.
use vstd::prelude::*;
use vstd::bytes::{
    spec_u64_from_le_bytes, spec_u64_to_le_bytes, u64_from_le_bytes, u64_to_le_bytes,
    lemma_auto_spec_u64_to_from_le_bytes,
};
use vstd::slice::{slice_subrange, slice_to_vec};

verus! {

/// Kind byte of a header frame.
pub const HEADER_KIND: u8 = 0;

/// Kind byte of a data frame.
pub const DATA_KIND: u8 = 1;

/// Length of an encoded header frame: kind, id and total size.
pub const HEADER_LEN: usize = 17;

/// Length of the fixed part of an encoded data frame: kind and id.
pub const DATA_PREFIX_LEN: usize = 9;

/// The largest payload of one data frame.
pub const MAX_CHUNK: usize = 2000;

/// The longest frame body: a data frame with a full payload.
pub const MAX_BODY_LEN: usize = DATA_PREFIX_LEN + MAX_CHUNK;

/// Length of the prefix that delimits a frame body on a byte stream.
pub const STREAM_PREFIX_LEN: usize = 8;

/// The unit written to and read from a transport.
#[derive(Debug, PartialEq, Eq)]
pub enum Frame {
    /// Announces message `id`, whose payload is `total_size` bytes long.
    Header { id: u64, total_size: u64 },
    /// Carries the next chunk of message `id`.
    Data { id: u64, payload: Vec<u8> },
}

/// The mathematical value of a [`Frame`].
pub enum FrameView {
    Header { id: u64, total_size: u64 },
    Data { id: u64, payload: Seq<u8> },
}

impl FrameView {
    pub open spec fn id(self) -> u64 {
        match self {
            FrameView::Header { id, .. } => id,
            FrameView::Data { id, .. } => id,
        }
    }
}

impl View for Frame {
    type V = FrameView;

    open spec fn view(&self) -> FrameView {
        match self {
            Frame::Header { id, total_size } => FrameView::Header { id: *id, total_size: *total_size },
            Frame::Data { id, payload } => FrameView::Data { id: *id, payload: payload@ },
        }
    }
}

impl Frame {
    /// The id of the message this frame belongs to.
    pub fn id(&self) -> (r: u64)
        ensures
            r == self@.id(),
    {
        match self {
            Frame::Header { id, .. } => *id,
            Frame::Data { id, .. } => *id,
        }
    }

    /// Whether this is a header frame.
    pub fn is_header(&self) -> (r: bool)
        ensures
            r == (self@ is Header),
    {
        match self {
            Frame::Header { .. } => true,
            Frame::Data { .. } => false,
        }
    }
}

/// Why a byte buffer is not a frame.
#[derive(Debug, Clone, Copy, PartialEq, Eq, Structural)]
pub enum FrameDecodeError {
    /// The buffer ends before the frame does.
    Truncated,
    /// A header frame is followed by further bytes.
    TrailingBytes,
    /// The kind byte names no frame kind.
    UnknownKind,
    /// A data frame with more than [`MAX_CHUNK`] payload bytes, or a stream
    /// length prefix longer than any frame body.
    Oversized,
}

/// The encoded body of a frame.
pub open spec fn spec_encode(f: FrameView) -> Seq<u8> {
    match f {
        FrameView::Header { id, total_size } =>
            seq![HEADER_KIND] + spec_u64_to_le_bytes(id) + spec_u64_to_le_bytes(total_size),
        FrameView::Data { id, payload } =>
            seq![DATA_KIND] + spec_u64_to_le_bytes(id) + payload,
    }
}

/// The frame that a whole buffer holds, or why it holds none.
pub open spec fn spec_decode(b: Seq<u8>) -> Result<FrameView, FrameDecodeError> {
    if b.len() == 0 {
        Err(FrameDecodeError::Truncated)
    } else if b[0] == HEADER_KIND {
        if b.len() < HEADER_LEN {
            Err(FrameDecodeError::Truncated)
        } else if b.len() > HEADER_LEN {
            Err(FrameDecodeError::TrailingBytes)
        } else {
            Ok(FrameView::Header {
                id: spec_u64_from_le_bytes(b.subrange(1, 9)),
                total_size: spec_u64_from_le_bytes(b.subrange(9, 17)),
            })
        }
    } else if b[0] == DATA_KIND {
        if b.len() < DATA_PREFIX_LEN {
            Err(FrameDecodeError::Truncated)
        } else if b.len() > MAX_BODY_LEN {
            Err(FrameDecodeError::Oversized)
        } else {
            Ok(FrameView::Data {
                id: spec_u64_from_le_bytes(b.subrange(1, 9)),
                payload: b.subrange(9, b.len() as int),
            })
        }
    } else {
        Err(FrameDecodeError::UnknownKind)
    }
}

/// A frame that can travel: a data frame carries at most [`MAX_CHUNK`] bytes.
pub open spec fn fits(f: FrameView) -> bool {
    f is Data ==> f->Data_payload.len() <= MAX_CHUNK
}

/// A frame body preceded by its length, as written to a byte stream.
pub open spec fn spec_encode_stream(f: FrameView) -> Seq<u8> {
    spec_u64_to_le_bytes(spec_encode(f).len() as u64) + spec_encode(f)
}

/// The first frame of a byte stream and the number of bytes it takes;
/// `None` while the stream holds only part of it.
pub open spec fn spec_decode_stream(b: Seq<u8>) -> Result<Option<(FrameView, nat)>, FrameDecodeError> {
    if b.len() < STREAM_PREFIX_LEN {
        Ok(None)
    } else {
        let n = spec_u64_from_le_bytes(b.subrange(0, 8));
        if n > MAX_BODY_LEN {
            Err(FrameDecodeError::Oversized)
        } else if b.len() - STREAM_PREFIX_LEN < n {
            Ok(None)
        } else {
            match spec_decode(b.subrange(8, 8 + n)) {
                Ok(f) => Ok(Some((f, (8 + n) as nat))),
                Err(e) => Err(e),
            }
        }
    }
}

/// Encodes the body of a frame.
pub fn encode(frame: &Frame) -> (r: Vec<u8>)
    ensures
        r@ == spec_encode(frame@),
{
    let mut out: Vec<u8> = Vec::new();
    match frame {
        Frame::Header { id, total_size } => {
            out.push(HEADER_KIND);
            let mut a = u64_to_le_bytes(*id);
            out.append(&mut a);
            let mut b = u64_to_le_bytes(*total_size);
            out.append(&mut b);
        },
        Frame::Data { id, payload } => {
            out.push(DATA_KIND);
            let mut a = u64_to_le_bytes(*id);
            out.append(&mut a);
            let mut p = slice_to_vec(payload.as_slice());
            out.append(&mut p);
        },
    }
    proof {
        assert(out@ =~= spec_encode(frame@));
    }
    out
}

/// Decodes a whole buffer as one frame body.
pub fn decode(bytes: &[u8]) -> (r: Result<Frame, FrameDecodeError>)
    ensures
        match (r, spec_decode(bytes@)) {
            (Ok(f), Ok(g)) => f@ == g,
            (Err(e), Err(d)) => e == d,
            _ => false,
        },
{
    let len = bytes.len();
    if len == 0 {
        return Err(FrameDecodeError::Truncated);
    }
    let kind = bytes[0];
    if kind == HEADER_KIND {
        if len < HEADER_LEN {
            Err(FrameDecodeError::Truncated)
        } else if len > HEADER_LEN {
            Err(FrameDecodeError::TrailingBytes)
        } else {
            let id = u64_from_le_bytes(slice_subrange(bytes, 1, 9));
            let total_size = u64_from_le_bytes(slice_subrange(bytes, 9, 17));
            Ok(Frame::Header { id, total_size })
        }
    } else if kind == DATA_KIND {
        if len < DATA_PREFIX_LEN {
            Err(FrameDecodeError::Truncated)
        } else if len > MAX_BODY_LEN {
            Err(FrameDecodeError::Oversized)
        } else {
            let id = u64_from_le_bytes(slice_subrange(bytes, 1, 9));
            let payload = slice_to_vec(slice_subrange(bytes, 9, len));
            Ok(Frame::Data { id, payload })
        }
    } else {
        Err(FrameDecodeError::UnknownKind)
    }
}

/// Encodes a frame for a byte stream: its body's length, then the body.
pub fn encode_stream(frame: &Frame) -> (r: Vec<u8>)
    ensures
        r@ == spec_encode_stream(frame@),
{
    let body = encode(frame);
    let mut out = u64_to_le_bytes(body.len() as u64);
    let mut body = body;
    out.append(&mut body);
    out
}

/// Reads the first frame of a byte stream. Returns the frame and the number
/// of bytes it took, or `None` while the buffer holds only part of it.
pub fn decode_stream(bytes: &[u8]) -> (r: Result<Option<(Frame, usize)>, FrameDecodeError>)
    ensures
        match (r, spec_decode_stream(bytes@)) {
            (Ok(None), Ok(None)) => true,
            (Ok(Some((f, n))), Ok(Some((g, m)))) => f@ == g && n == m,
            (Err(e), Err(d)) => e == d,
            _ => false,
        },
{
    let len = bytes.len();
    if len < STREAM_PREFIX_LEN {
        return Ok(None);
    }
    let n = u64_from_le_bytes(slice_subrange(bytes, 0, 8));
    if n > MAX_BODY_LEN as u64 {
        return Err(FrameDecodeError::Oversized);
    }
    if ((len - STREAM_PREFIX_LEN) as u64) < n {
        return Ok(None);
    }
    let end = STREAM_PREFIX_LEN + n as usize;
    match decode(slice_subrange(bytes, 8, end)) {
        Ok(f) => Ok(Some((f, end))),
        Err(e) => Err(e),
    }
}

/// Decoding an encoded frame body gives the frame back.
pub proof fn lemma_decode_encode(f: FrameView)
    requires
        fits(f),
    ensures
        spec_decode(spec_encode(f)) == Ok::<FrameView, FrameDecodeError>(f),
{
    lemma_auto_spec_u64_to_from_le_bytes();
    let b = spec_encode(f);
    match f {
        FrameView::Header { id, total_size } => {
            assert(b.subrange(1, 9) =~= spec_u64_to_le_bytes(id));
            assert(b.subrange(9, 17) =~= spec_u64_to_le_bytes(total_size));
        },
        FrameView::Data { id, payload } => {
            assert(b.subrange(1, 9) =~= spec_u64_to_le_bytes(id));
            assert(b.subrange(9, b.len() as int) =~= payload);
        },
    }
}

/// A buffer decodes to a frame only if it is that frame's encoding: each
/// frame has exactly one body.
pub proof fn lemma_encode_decode(b: Seq<u8>)
    ensures
        spec_decode(b) matches Ok(f) ==> spec_encode(f) == b,
{
    lemma_auto_spec_u64_to_from_le_bytes();
    if let Ok(f) = spec_decode(b) {
        match f {
            FrameView::Header { id, total_size } => {
                assert(spec_u64_to_le_bytes(id) == b.subrange(1, 9));
                assert(spec_u64_to_le_bytes(total_size) == b.subrange(9, 17));
                assert(spec_encode(f) =~= b);
            },
            FrameView::Data { id, payload } => {
                assert(spec_u64_to_le_bytes(id) == b.subrange(1, 9));
                assert(spec_encode(f) =~= b);
            },
        }
    }
}

/// On a byte stream a frame is read back whole, whatever bytes follow it,
/// and takes exactly the bytes that were written for it.
pub proof fn lemma_decode_stream_encode(f: FrameView, rest: Seq<u8>)
    requires
        fits(f),
    ensures
        spec_decode_stream(spec_encode_stream(f) + rest) == Ok::<Option<(FrameView, nat)>, FrameDecodeError>(
            Some((f, spec_encode_stream(f).len()))),
{
    lemma_auto_spec_u64_to_from_le_bytes();
    lemma_decode_encode(f);
    let body = spec_encode(f);
    let b = spec_encode_stream(f) + rest;
    assert(b.subrange(0, 8) =~= spec_u64_to_le_bytes(body.len() as u64));
    assert(b.subrange(8, 8 + body.len() as int) =~= body);
}

} // verus!
