//! The inbound half of a connection: bytes come in as the socket hands them
//! over, whole messages go out.
use vstd::prelude::*;
use vstd::slice::{slice_subrange, slice_to_vec};

use crate::codec::{decode, parse_at, DecodeError};
use crate::message::{Epistle, EpistleView};

verus! {

/// What reading the buffered bytes gave.
#[derive(Clone, Debug, PartialEq, Eq)]
pub enum Poll {
    /// A whole message; its frame has left the buffer.
    Frame(Epistle),
    /// The buffer holds no whole frame yet, and nothing wrong so far.
    NeedMore,
    /// The buffered bytes can never become a frame: the connection is dead.
    Fatal(DecodeError),
}

/// Bytes received on one connection that are not yet part of a message.
pub struct FrameReader {
    pending: Vec<u8>,
}

impl View for FrameReader {
    type V = Seq<u8>;

    closed spec fn view(&self) -> Seq<u8> {
        self.pending@
    }
}

impl FrameReader {
    pub fn new() -> (r: FrameReader)
        ensures
            r@ == Seq::<u8>::empty(),
    {
        FrameReader { pending: Vec::new() }
    }

    /// Appends bytes just read from the socket.
    pub fn feed(&mut self, chunk: &[u8])
        ensures
            final(self)@ == old(self)@ + chunk@,
    {
        let ghost start = self.pending@;
        let mut i: usize = 0;
        while i < chunk.len()
            invariant
                i <= chunk@.len(),
                self.pending@ == start + chunk@.subrange(0, i as int),
            decreases chunk@.len() - i,
        {
            self.pending.push(chunk[i]);
            i = i + 1;
            assert(self.pending@ =~= start + chunk@.subrange(0, i as int));
        }
        assert(chunk@.subrange(0, chunk@.len() as int) =~= chunk@);
    }

    /// Takes the next whole message out of the buffer, if there is one.
    ///
    /// A frame that has only partly arrived, or no byte at all, asks for more;
    /// an unknown tag or a text field that is not UTF-8 is fatal.
    pub fn next_frame(&mut self) -> (r: Poll)
        ensures
            match r {
                Poll::Frame(m) => exists|end: int|
                    parse_at(old(self)@, 0) == Ok::<(EpistleView, int), DecodeError>((m@, end))
                        && final(self)@ == old(self)@.subrange(end, old(self)@.len() as int),
                Poll::NeedMore => final(self)@ == old(self)@ && (parse_at(old(self)@, 0)
                    == Err::<(EpistleView, int), DecodeError>(DecodeError::EndOfStream)
                    || parse_at(old(self)@, 0) == Err::<(EpistleView, int), DecodeError>(
                    DecodeError::Truncated,
                )),
                Poll::Fatal(e) => final(self)@ == old(self)@ && e != DecodeError::EndOfStream
                    && e != DecodeError::Truncated && parse_at(old(self)@, 0) == Err::<
                    (EpistleView, int),
                    DecodeError,
                >(e),
            },
    {
        match decode(self.pending.as_slice(), 0) {
            Ok((m, end)) => {
                let rest = slice_to_vec(slice_subrange(self.pending.as_slice(), end, self.pending.len()));
                self.pending = rest;
                Poll::Frame(m)
            },
            Err(DecodeError::EndOfStream) => Poll::NeedMore,
            Err(DecodeError::Truncated) => Poll::NeedMore,
            Err(e) => Poll::Fatal(e),
        }
    }

    /// Why the stream ended, once the peer has closed it: cleanly if no
    /// partial frame was left behind.
    pub fn close(&self) -> (r: DecodeError)
        ensures
            r == (if self@.len() == 0 {
                DecodeError::EndOfStream
            } else {
                DecodeError::Truncated
            }),
    {
        if self.pending.len() == 0 {
            DecodeError::EndOfStream
        } else {
            DecodeError::Truncated
        }
    }
}

} // verus!
