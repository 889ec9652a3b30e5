//! The connection-facing side of the codec: a growable receive buffer that
//! accumulates bytes from a stream, and the check-then-parse step that pulls
//! one complete frame off its front.

use vstd::prelude::*;

use crate::frame::Error;
use crate::frame::Frame;
use crate::frame::ParseResult;
use crate::frame::spec_parse;
use crate::frame::Cursor;

verus! {

/// An append-only receive buffer owned by one connection: bytes arrive at
/// the tail and are discarded from the head once a frame has been fully
/// consumed.
pub struct RecvBuffer {
    data: Vec<u8>,
}

impl View for RecvBuffer {
    type V = Seq<u8>;

    closed spec fn view(&self) -> Seq<u8> {
        self.data@
    }
}

impl RecvBuffer {
    pub fn new() -> (r: RecvBuffer)
        ensures
            r@ == Seq::<u8>::empty(),
    {
        let r = RecvBuffer { data: Vec::new() };
        proof {
            assert(r@ =~= Seq::<u8>::empty());
        }
        r
    }

    pub fn is_empty(&self) -> (r: bool)
        ensures
            r == (self@.len() == 0),
    {
        self.data.len() == 0
    }

    /// Append freshly read bytes at the tail.
    pub fn extend(&mut self, bytes: &[u8])
        ensures
            final(self)@ == old(self)@ + bytes@,
    {
        self.data.extend_from_slice(bytes);
        proof {
            assert(self.data@ =~= old(self).data@ + bytes@);
        }
    }

    /// Discard `n` consumed bytes from the head.
    #[verifier::loop_isolation(false)]
    fn consume(&mut self, n: usize)
        requires
            n <= old(self)@.len(),
        ensures
            final(self)@ == old(self)@.skip(n as int),
    {
        let mut rest: Vec<u8> = Vec::new();
        let mut i = n;
        proof {
            assert(rest@ =~= old(self).data@.subrange(n as int, n as int));
        }
        while i < self.data.len()
            invariant
                n <= i <= self.data.len(),
                self.data == old(self).data,
                rest@ == self.data@.subrange(n as int, i as int),
            decreases self.data@.len() - i,
        {
            rest.push(self.data[i]);
            proof {
                assert(self.data@.subrange(n as int, i as int) + seq![self.data@[i as int]]
                    =~= self.data@.subrange(n as int, i + 1));
            }
            i = i + 1;
        }
        proof {
            assert(self.data@.subrange(n as int, self.data@.len() as int)
                =~= self.data@.skip(n as int));
        }
        self.data = rest;
    }

    /// Try to pull one complete frame off the front of the buffer. A first
    /// pass checks that a full well-formed frame is present without
    /// allocating; only then does a second pass materialize it, and the
    /// consumed prefix is dropped. `Ok(None)` means more bytes are needed;
    /// a protocol error is fatal to the connection and the buffer is left
    /// untouched.
    pub fn parse_frame(&mut self) -> (r: Result<Option<Frame>, Error>)
        ensures
            match r {
                Ok(Some(frame)) => spec_parse(old(self)@) matches ParseResult::Parsed { f, n }
                    && f == frame@
                    && final(self)@ == old(self)@.skip(n as int),
                Ok(None) => spec_parse(old(self)@) is Incomplete && *final(self) == *old(self),
                Err(e) => e == Error::ProtocolErr && spec_parse(old(self)@) is Malformed
                    && *final(self) == *old(self),
            },
    {
        proof {
            assert(self.data@.skip(0) =~= self.data@);
        }
        let consumed: usize;
        {
            let mut cur = Cursor::new(self.data.as_slice());
            match Frame::check(&mut cur) {
                Ok(()) => {
                    consumed = cur.pos;
                },
                Err(Error::Incomplete) => {
                    return Ok(None);
                },
                Err(e) => {
                    return Err(e);
                },
            }
        }
        let frame: Frame;
        {
            let mut cur = Cursor::new(self.data.as_slice());
            match Frame::parse(&mut cur) {
                Ok(f) => {
                    frame = f;
                },
                Err(_) => {
                    // unreachable: check already saw a complete frame here
                    proof {
                        assert(false);
                    }
                    return Err(Error::ProtocolErr);
                },
            }
        }
        self.consume(consumed);
        Ok(Some(frame))
    }
}

/// Serialize one outgoing frame into a fresh byte vector, ready to be
/// written to the stream. Arrays are rejected by contract, as in
/// `frame::write_value`: responses in this subset are always scalar.
pub fn write_frame(frame: &Frame) -> (out: Vec<u8>)
    requires
        !(frame is Array),
    ensures
        out@ == crate::frame::spec_encode(frame@),
{
    let mut out: Vec<u8> = Vec::new();
    crate::frame::write_value(frame, &mut out);
    proof {
        assert(out@ =~= crate::frame::spec_encode(frame@));
    }
    out
}

} // verus!
