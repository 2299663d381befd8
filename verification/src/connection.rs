//! The pure half of a connection: the growable receive buffer with its
//! try-decode step and end-of-stream decision, and the response write path.
//! The surrounding read/write loop performs the actual I/O and feeds bytes
//! in and out of these functions.

use vstd::prelude::*;
use crate::codec::{
    check_at, copy_range, encode_frame, parse_at, push_bytes, spec_decode, spec_encode, Decoding,
    FrameCheck,
};
use crate::frame::{Frame, FrameModel};

verus! {

broadcast use vstd::std_specs::vec::group_vec_axioms, vstd::seq::group_seq_axioms;

/// How an exchange fails.
#[derive(Clone, Copy, PartialEq, Eq, Structural, Debug)]
pub enum WireError {
    /// Malformed bytes: fatal to the current frame and to further use of
    /// the connection.
    Malformed,
    /// The peer closed the stream while the buffer still held part of a
    /// frame, distinct from a clean close.
    Reset,
    /// A syntactically valid construct outside the implemented protocol
    /// surface; fatal by design rather than silently mishandled.
    Unsupported,
}

/// Accumulates bytes read from the stream and extracts complete frames,
/// discarding exactly the consumed prefix after each success.
pub struct FrameDecoder {
    buf: Vec<u8>,
}

impl View for FrameDecoder {
    type V = Seq<u8>;

    closed spec fn view(&self) -> Seq<u8> {
        self.buf@
    }
}

impl FrameDecoder {
    pub fn new() -> (r: FrameDecoder)
        ensures
            r@ == Seq::<u8>::empty(),
    {
        FrameDecoder { buf: Vec::new() }
    }

    /// How many unconsumed bytes are buffered.
    pub fn buffered(&self) -> (r: usize)
        ensures
            r == self@.len(),
    {
        self.buf.len()
    }

    /// Appends bytes just read from the stream.
    pub fn feed(&mut self, bytes: &Vec<u8>)
        ensures
            final(self)@ == old(self)@ + bytes@,
    {
        push_bytes(&mut self.buf, bytes);
    }

    /// Tries to extract one complete frame from the front of the buffer:
    /// the frame with its consumed prefix discarded and the rest preserved
    /// in order, `None` when more bytes are needed (buffer untouched), or a
    /// decode error.
    pub fn try_frame(&mut self) -> (r: Result<Option<Frame>, WireError>)
        ensures
            ({
                match spec_decode(old(self)@) {
                    Decoding::Done(m, used) => r matches Ok(Some(f)) && f@ == m
                        && m.well_formed() && final(self)@ == old(self)@.skip(used),
                    Decoding::Partial => r == Ok::<Option<Frame>, WireError>(None)
                        && final(self)@ == old(self)@,
                    Decoding::Bad => r == Err::<Option<Frame>, WireError>(WireError::Malformed)
                        && final(self)@ == old(self)@,
                }
            }),
    {
        proof {
            assert(self.buf@.skip(0) =~= self.buf@);
            crate::codec::lemma_decode_well_formed(self.buf@);
        }
        match check_at(&self.buf, 0) {
            FrameCheck::Incomplete => Ok(None),
            FrameCheck::Malformed => Err(WireError::Malformed),
            FrameCheck::Complete(_) => {
                let (f, end) = parse_at(&self.buf, 0);
                let tail = copy_range(&self.buf, end, self.buf.len());
                proof {
                    assert(old(self)@.subrange(end as int, old(self)@.len() as int) =~= old(
                        self,
                    )@.skip(end as int));
                }
                self.buf = tail;
                Ok(Some(f))
            },
        }
    }

    /// The decision when a read returns zero bytes (the peer closed the
    /// stream): a clean end of stream with an empty buffer, a peer-reset
    /// error otherwise.
    pub fn on_close(&self) -> (r: Result<(), WireError>)
        ensures
            self@.len() == 0 ==> r == Ok::<(), WireError>(()),
            self@.len() > 0 ==> r == Err::<(), WireError>(WireError::Reset),
    {
        if self.buf.len() == 0 {
            Ok(())
        } else {
            Err(WireError::Reset)
        }
    }
}

/// Serializes one response frame to its wire bytes. Array output is outside
/// this core's implemented response surface: it is reported as unsupported,
/// never guessed at or silently dropped.
pub fn encode_response(f: &Frame) -> (r: Result<Vec<u8>, WireError>)
    ensures
        !(f@ is Array) ==> (r matches Ok(v) && v@ == spec_encode(f@)),
        f@ is Array ==> r == Err::<Vec<u8>, WireError>(WireError::Unsupported),
{
    match f {
        Frame::Array(_) => Err(WireError::Unsupported),
        _ => Ok(encode_frame(f)),
    }
}

} // verus!
