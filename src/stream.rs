//! Reading frames off a byte stream that arrives in pieces of any size.
use vstd::prelude::*;
use vstd::slice::{slice_subrange, slice_to_vec};
use crate::frame::{decode_stream, spec_decode_stream, Frame, FrameDecodeError, FrameView};

verus! {

/// The bytes of a stream that have arrived but are not yet read as frames.
#[derive(Debug)]
pub struct StreamReader {
    pending: Vec<u8>,
}

impl View for StreamReader {
    type V = Seq<u8>;

    closed spec fn view(&self) -> Seq<u8> {
        self.pending@
    }
}

impl StreamReader {
    /// A reader with nothing pending.
    pub fn new() -> (r: StreamReader)
        ensures
            r@ == Seq::<u8>::empty(),
    {
        StreamReader { pending: Vec::new() }
    }

    /// Adds bytes that arrived.
    pub fn push(&mut self, bytes: &[u8])
        ensures
            final(self)@ == old(self)@ + bytes@,
    {
        let mut more = slice_to_vec(bytes);
        self.pending.append(&mut more);
    }

    /// Takes the next whole frame off the pending bytes. `None` while only
    /// part of it has arrived; on an error nothing is taken.
    pub fn next_frame(&mut self) -> (r: Result<Option<Frame>, FrameDecodeError>)
        ensures
            match (r, spec_decode_stream(old(self)@)) {
                (Ok(None), Ok(None)) => final(self)@ == old(self)@,
                (Ok(Some(f)), Ok(Some((g, n)))) => f@ == g && final(self)@ == old(self)@.skip(n as int),
                (Err(e), Err(d)) => e == d && final(self)@ == old(self)@,
                _ => false,
            },
    {
        match decode_stream(self.pending.as_slice()) {
            Ok(Some((f, n))) => {
                let len = self.pending.len();
                let rest = slice_to_vec(slice_subrange(self.pending.as_slice(), n, len));
                self.pending = rest;
                Ok(Some(f))
            },
            Ok(None) => Ok(None),
            Err(e) => Err(e),
        }
    }
}

} // verus!
