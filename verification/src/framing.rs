//! Per-connection framing: one growable byte buffer with a consumed-bytes
//! cursor. Newly read bytes are appended under a size bound, complete
//! frames are taken off the front one by one, and a protocol violation is
//! terminal for the connection.

use vstd::prelude::*;
use vstd::slice::slice_subrange;
use crate::decode::DecodeOutcome;
use crate::decode::MAX_FRAME_BYTES;
use crate::decode::ProtocolError;
use crate::decode::SpecDec;
use crate::decode::copy_range;
use crate::decode::dec_frame;
use crate::decode::decode_at;
use crate::decode::lemma_dec_frame_bounds;
use crate::encode::enc_frame;
use crate::encode::encode_frame_into;
use crate::encode::push_bytes;
use crate::frame::FrameV;
use crate::frame::RespFrame;
use crate::frame::SimpleError;

verus! {

/// What one polling step yielded: a complete frame, a wait for more input,
/// or a terminal protocol violation.
pub enum PollStep {
    Frame(RespFrame),
    Need,
    Fatal(ProtocolError),
}

/// Per-connection framing state.
pub struct Connection {
    buf: Vec<u8>,
    start: usize,
    max: usize,
}

impl Connection {
    /// The bytes buffered but not yet decoded.
    pub closed spec fn window(&self) -> Seq<u8> {
        self.buf@.skip(self.start as int)
    }

    /// The cursor never passes the end of the buffer.
    pub closed spec fn wf(&self) -> bool {
        self.start <= self.buf@.len()
    }

    /// The configured bound on declared sizes and on buffered bytes.
    pub closed spec fn max_spec(&self) -> nat {
        self.max as nat
    }

    /// A fresh connection state with the given size bound.
    pub fn new(max: usize) -> (r: Connection)
        ensures
            r.wf(),
            r.window() == Seq::<u8>::empty(),
            r.max_spec() == max as nat,
    {
        let c = Connection { buf: Vec::new(), start: 0, max };
        proof {
            assert(c.window() =~= Seq::<u8>::empty());
        }
        c
    }

    /// A fresh connection state with the default size bound.
    pub fn with_default_max() -> (r: Connection)
        ensures
            r.wf(),
            r.window() == Seq::<u8>::empty(),
            r.max_spec() == MAX_FRAME_BYTES as nat,
    {
        Connection::new(MAX_FRAME_BYTES)
    }

    /// Appends newly read bytes. Returns false, leaving the state as it
    /// was, when the undecoded bytes would outgrow the bound: the caller
    /// treats that as an oversize violation and closes the connection.
    pub fn append(&mut self, chunk: &[u8]) -> (r: bool)
        requires
            old(self).wf(),
        ensures
            final(self).wf(),
            final(self).max_spec() == old(self).max_spec(),
            r ==> final(self).window() == old(self).window() + chunk@ && old(
                self,
            ).window().len() + chunk@.len() <= old(self).max_spec(),
            !r ==> *final(self) == *old(self) && old(self).window().len() + chunk@.len() > old(
                self,
            ).max_spec(),
    {
        let pending = self.buf.len() - self.start;
        if chunk.len() > self.max || pending > self.max - chunk.len() {
            return false;
        }
        push_bytes(&mut self.buf, chunk);
        proof {
            assert(self.buf@.skip(self.start as int) =~= old(self).window() + chunk@);
        }
        true
    }

    /// Attempts to take one complete frame off the front of the window.
    /// The outcome is what the decoder says of the window; on a complete
    /// frame the cursor advances past it, on a wait the consumed prefix is
    /// compacted away, and a violation leaves the state unchanged.
    pub fn poll(&mut self) -> (r: PollStep)
        requires
            old(self).wf(),
        ensures
            final(self).wf(),
            final(self).max_spec() == old(self).max_spec(),
            match r {
                PollStep::Frame(f) => dec_frame(
                    old(self).window(),
                    0,
                    old(self).max_spec(),
                ) matches SpecDec::Done(fv, u) && fv == f@ && final(self).window() == old(
                    self,
                ).window().skip(u as int),
                PollStep::Need => dec_frame(old(self).window(), 0, old(self).max_spec())
                    is More && final(self).window() == old(self).window(),
                PollStep::Fatal(e) => dec_frame(old(self).window(), 0, old(self).max_spec())
                    == SpecDec::<FrameV>::Fail(e) && final(self).window() == old(self).window(),
            },
    {
        let len = self.buf.len();
        let sub = slice_subrange(self.buf.as_slice(), self.start, len);
        match decode_at(sub, 0, self.max) {
            DecodeOutcome::Decoded(f, u) => {
                proof {
                    lemma_dec_frame_bounds(sub@, 0, self.max as nat);
                }
                self.start = self.start + u;
                proof {
                    assert(self.buf@.skip(self.start as int) =~= old(self).window().skip(
                        u as int,
                    ));
                }
                PollStep::Frame(f)
            },
            DecodeOutcome::Incomplete => {
                let rest = copy_range(self.buf.as_slice(), self.start, len);
                proof {
                    assert(rest@ =~= old(self).window());
                }
                self.buf = rest;
                self.start = 0;
                proof {
                    assert(self.window() =~= self.buf@);
                }
                PollStep::Need
            },
            DecodeOutcome::Error(e) => PollStep::Fatal(e),
        }
    }
}

/// The text of the error reply for each protocol violation.
pub open spec fn err_text(e: ProtocolError) -> Seq<u8> {
    match e {
        // "ERR bad tag"
        ProtocolError::UnknownTag => seq![
            69u8, 82u8, 82u8, 32u8, 98u8, 97u8, 100u8, 32u8, 116u8, 97u8, 103u8,
        ],
        // "ERR bad length"
        ProtocolError::BadLength => seq![
            69u8, 82u8, 82u8, 32u8, 98u8, 97u8, 100u8, 32u8, 108u8, 101u8, 110u8, 103u8, 116u8,
            104u8,
        ],
        // "ERR bad number"
        ProtocolError::BadNumber => seq![
            69u8, 82u8, 82u8, 32u8, 98u8, 97u8, 100u8, 32u8, 110u8, 117u8, 109u8, 98u8, 101u8,
            114u8,
        ],
        // "ERR bad payload"
        ProtocolError::BadPayload => seq![
            69u8, 82u8, 82u8, 32u8, 98u8, 97u8, 100u8, 32u8, 112u8, 97u8, 121u8, 108u8, 111u8,
            97u8, 100u8,
        ],
        // "ERR bad terminator"
        ProtocolError::BadTerminator => seq![
            69u8, 82u8, 82u8, 32u8, 98u8, 97u8, 100u8, 32u8, 116u8, 101u8, 114u8, 109u8, 105u8,
            110u8, 97u8, 116u8, 111u8, 114u8,
        ],
        // "ERR oversize"
        ProtocolError::Oversize => seq![
            69u8, 82u8, 82u8, 32u8, 111u8, 118u8, 101u8, 114u8, 115u8, 105u8, 122u8, 101u8,
        ],
    }
}

/// The bytes of the error reply sent to the peer before the connection is
/// closed: a simple error frame naming the violation.
pub fn error_reply(e: ProtocolError) -> (r: Vec<u8>)
    ensures
        r@ == enc_frame(FrameV::SimpleError(err_text(e))),
{
    let mut text: Vec<u8> = Vec::new();
    text.push(69);
    text.push(82);
    text.push(82);
    text.push(32);
    match e {
        ProtocolError::UnknownTag => {
            text.push(98);
            text.push(97);
            text.push(100);
            text.push(32);
            text.push(116);
            text.push(97);
            text.push(103);
        },
        ProtocolError::BadLength => {
            text.push(98);
            text.push(97);
            text.push(100);
            text.push(32);
            text.push(108);
            text.push(101);
            text.push(110);
            text.push(103);
            text.push(116);
            text.push(104);
        },
        ProtocolError::BadNumber => {
            text.push(98);
            text.push(97);
            text.push(100);
            text.push(32);
            text.push(110);
            text.push(117);
            text.push(109);
            text.push(98);
            text.push(101);
            text.push(114);
        },
        ProtocolError::BadPayload => {
            text.push(98);
            text.push(97);
            text.push(100);
            text.push(32);
            text.push(112);
            text.push(97);
            text.push(121);
            text.push(108);
            text.push(111);
            text.push(97);
            text.push(100);
        },
        ProtocolError::BadTerminator => {
            text.push(98);
            text.push(97);
            text.push(100);
            text.push(32);
            text.push(116);
            text.push(101);
            text.push(114);
            text.push(109);
            text.push(105);
            text.push(110);
            text.push(97);
            text.push(116);
            text.push(111);
            text.push(114);
        },
        ProtocolError::Oversize => {
            text.push(111);
            text.push(118);
            text.push(101);
            text.push(114);
            text.push(115);
            text.push(105);
            text.push(122);
            text.push(101);
        },
    }
    proof {
        assert(text@ =~= err_text(e));
    }
    let frame = RespFrame::SimpleError(SimpleError(text));
    let mut out: Vec<u8> = Vec::new();
    encode_frame_into(&frame, &mut out);
    out
}

} // verus!
