//! The encoder: the spec-level byte form of every frame, and the executable
//! encoder proved to emit exactly that form. Encoding is total: every
//! constructible frame has one wire representation.

use vstd::prelude::*;
use crate::digits::push_digits_u128;
use crate::digits::spec_decimal;
use crate::digits::spec_digits;
use crate::digits::spec_signed;
use crate::frame::Arrays;
use crate::frame::BulkString;
use crate::frame::Double;
use crate::frame::DoubleV;
use crate::frame::FrameV;
use crate::frame::Null;
use crate::frame::NullBulkString;
use crate::frame::RespFrame;
use crate::frame::RespMap;
use crate::frame::RespSet;
use crate::frame::SimpleError;
use crate::frame::SimpleString;
use crate::frame::entries_view;
use crate::frame::frame_view;
use crate::frame::frames_view;
use crate::frame::lemma_entries_view;
use crate::frame::lemma_frames_view;

verus! {

/// The protocol line terminator.
pub open spec fn crlf() -> Seq<u8> {
    seq![13u8, 10u8]
}

/// The line token of a double payload.
pub open spec fn double_token(d: DoubleV) -> Seq<u8> {
    match d {
        DoubleV::Nan => seq![110u8, 97u8, 110u8],
        DoubleV::PosInf => seq![43u8, 105u8, 110u8, 102u8],
        DoubleV::NegInf => seq![45u8, 105u8, 110u8, 102u8],
        DoubleV::Finite(t) => t,
    }
}

/// The wire form of a frame.
pub open spec fn enc_frame(f: FrameV) -> Seq<u8>
    decreases f,
{
    match f {
        FrameV::SimpleString(s) => seq![43u8] + s + crlf(),
        FrameV::SimpleError(s) => seq![45u8] + s + crlf(),
        FrameV::Integer(v) => seq![58u8] + spec_signed(v as int) + crlf(),
        FrameV::Boolean(b) => seq![35u8] + (if b {
            seq![116u8]
        } else {
            seq![102u8]
        }) + crlf(),
        FrameV::Double(d) => seq![44u8] + double_token(d) + crlf(),
        FrameV::BigNumber(v) => seq![40u8] + spec_signed(v as int) + crlf(),
        FrameV::NullBulkString => seq![36u8, 45u8, 49u8] + crlf(),
        FrameV::Nil => seq![95u8] + crlf(),
        FrameV::ArrayNil => seq![42u8, 45u8, 49u8] + crlf(),
        FrameV::BulkString(p) => seq![36u8] + spec_digits(p.len()) + crlf() + p + crlf(),
        FrameV::BulkErrors(o) => match o {
            Option::None => seq![33u8, 45u8, 49u8] + crlf(),
            Option::Some(p) => seq![33u8] + spec_digits(p.len()) + crlf() + p + crlf(),
        },
        FrameV::BulkResp(es) => seq![42u8] + spec_digits(es.len()) + crlf() + enc_elems(es),
        FrameV::RespMap(es) => seq![37u8] + spec_digits(es.len()) + crlf() + enc_entries(es),
        FrameV::RespSet(es) => seq![126u8] + spec_digits(es.len()) + crlf() + enc_elems(es),
    }
}

/// The concatenated wire forms of a run of elements.
pub open spec fn enc_elems(es: Seq<FrameV>) -> Seq<u8>
    decreases es,
{
    if es.len() == 0 {
        Seq::empty()
    } else {
        enc_frame(es[0]) + enc_elems(es.drop_first())
    }
}

/// The concatenated wire forms of a run of map entries: each key as a
/// simple string, then the value.
pub open spec fn enc_entries(es: Seq<(Seq<u8>, FrameV)>) -> Seq<u8>
    decreases es,
{
    if es.len() == 0 {
        Seq::empty()
    } else {
        seq![43u8] + es[0].0 + crlf() + enc_frame(es[0].1) + enc_entries(es.drop_first())
    }
}

/// Encoding one more element extends the run's wire form at its end.
pub proof fn lemma_enc_elems_take_step(es: Seq<FrameV>, i: int)
    requires
        0 <= i < es.len(),
    ensures
        enc_elems(es.take(i + 1)) == enc_elems(es.take(i)) + enc_frame(es[i]),
    decreases i,
{
    let a = es.take(i + 1);
    let b = es.take(i);
    if i == 0 {
        assert(a.drop_first() =~= Seq::<FrameV>::empty());
        assert(enc_elems(a) == enc_frame(es[0]) + enc_elems(a.drop_first()));
        assert(enc_elems(a) =~= enc_elems(b) + enc_frame(es[0]));
    } else {
        lemma_enc_elems_take_step(es.drop_first(), i - 1);
        assert(a.drop_first() =~= es.drop_first().take(i));
        assert(b.drop_first() =~= es.drop_first().take(i - 1));
        assert(es.drop_first()[i - 1] == es[i]);
        assert(enc_elems(a) == enc_frame(es[0]) + enc_elems(es.drop_first().take(i)));
        assert(enc_elems(b) == enc_frame(es[0]) + enc_elems(es.drop_first().take(i - 1)));
        assert(enc_elems(a) =~= enc_elems(b) + enc_frame(es[i]));
    }
}

/// Encoding one more entry extends the run's wire form at its end.
pub proof fn lemma_enc_entries_take_step(es: Seq<(Seq<u8>, FrameV)>, i: int)
    requires
        0 <= i < es.len(),
    ensures
        enc_entries(es.take(i + 1)) == enc_entries(es.take(i)) + (seq![43u8] + es[i].0 + crlf()
            + enc_frame(es[i].1)),
    decreases i,
{
    let a = es.take(i + 1);
    let b = es.take(i);
    let head = seq![43u8] + es[0].0 + crlf() + enc_frame(es[0].1);
    if i == 0 {
        assert(a.drop_first() =~= Seq::<(Seq<u8>, FrameV)>::empty());
        assert(enc_entries(a) == head + enc_entries(a.drop_first()));
        assert(enc_entries(a) =~= enc_entries(b) + (seq![43u8] + es[0].0 + crlf() + enc_frame(
            es[0].1,
        )));
    } else {
        lemma_enc_entries_take_step(es.drop_first(), i - 1);
        assert(a.drop_first() =~= es.drop_first().take(i));
        assert(b.drop_first() =~= es.drop_first().take(i - 1));
        assert(es.drop_first()[i - 1] == es[i]);
        assert(enc_entries(a) == head + enc_entries(es.drop_first().take(i)));
        assert(enc_entries(b) == head + enc_entries(es.drop_first().take(i - 1)));
        assert(enc_entries(a) =~= enc_entries(b) + (seq![43u8] + es[i].0 + crlf() + enc_frame(
            es[i].1,
        )));
    }
}

/// Relies on itoa::Buffer::format for i64: the value's shortest decimal
/// digits in base ten, preceded by '-' exactly when the value is negative.
#[verifier::external_body]
fn i64_decimal(v: i64) -> (r: Vec<u8>)
    ensures
        r@ == spec_decimal(v as int),
{
    let mut buf = itoa::Buffer::new();
    buf.format(v).as_bytes().to_vec()
}

/// Appends all of `b` to `out`.
pub fn push_bytes(out: &mut Vec<u8>, b: &[u8])
    ensures
        final(out)@ == old(out)@ + b@,
{
    let mut i: usize = 0;
    while i < b.len()
        invariant
            0 <= i <= b@.len(),
            out@ == old(out)@ + b@.take(i as int),
        decreases b@.len() - i,
    {
        out.push(b[i]);
        proof {
            assert(b@.take(i + 1) =~= b@.take(i as int) + seq![b@[i as int]]);
            assert(out@ =~= old(out)@ + b@.take(i + 1));
        }
        i = i + 1;
    }
    proof {
        assert(b@.take(b@.len() as int) =~= b@);
    }
}

/// Appends the line terminator to `out`.
fn push_crlf(out: &mut Vec<u8>)
    ensures
        final(out)@ == old(out)@ + crlf(),
{
    out.push(13);
    out.push(10);
    proof {
        assert(out@ =~= old(out)@ + crlf());
    }
}

/// Appends the explicit-sign decimal form of `v` to `out`.
fn push_signed_i64(v: i64, out: &mut Vec<u8>)
    ensures
        final(out)@ == old(out)@ + spec_signed(v as int),
{
    if v >= 0 {
        out.push(43);
    }
    let digits = i64_decimal(v);
    push_bytes(out, digits.as_slice());
    proof {
        assert(out@ =~= old(out)@ + spec_signed(v as int));
    }
}

/// Appends the explicit-sign decimal form of `v` to `out`.
fn push_signed_i128(v: i128, out: &mut Vec<u8>)
    ensures
        final(out)@ == old(out)@ + spec_signed(v as int),
{
    if v >= 0 {
        out.push(43);
        push_digits_u128(v as u128, out);
    } else {
        out.push(45);
        let mag: u128 = ((-(v + 1)) as u128) + 1;
        proof {
            assert(mag as int == -(v as int));
        }
        push_digits_u128(mag, out);
    }
    proof {
        assert(out@ =~= old(out)@ + spec_signed(v as int));
    }
}

/// Appends the wire form of `f` to `out`.
#[verifier::rlimit(30)]
pub fn encode_frame_into(f: &RespFrame, out: &mut Vec<u8>)
    ensures
        final(out)@ == old(out)@ + enc_frame(frame_view(*f)),
    decreases *f,
{
    match f {
        RespFrame::SimpleString(s) => {
            out.push(43);
            push_bytes(out, s.0.as_slice());
            push_crlf(out);
            proof {
                assert(out@ =~= old(out)@ + enc_frame(frame_view(*f)));
            }
        },
        RespFrame::SimpleError(s) => {
            out.push(45);
            push_bytes(out, s.0.as_slice());
            push_crlf(out);
            proof {
                assert(out@ =~= old(out)@ + enc_frame(frame_view(*f)));
            }
        },
        RespFrame::Integer(v) => {
            out.push(58);
            push_signed_i64(*v, out);
            push_crlf(out);
            proof {
                assert(out@ =~= old(out)@ + enc_frame(frame_view(*f)));
            }
        },
        RespFrame::Boolean(b) => {
            out.push(35);
            out.push(if *b {
                116
            } else {
                102
            });
            push_crlf(out);
            proof {
                assert(out@ =~= old(out)@ + enc_frame(frame_view(*f)));
            }
        },
        RespFrame::Double(d) => {
            out.push(44);
            match d {
                Double::Nan => {
                    out.push(110);
                    out.push(97);
                    out.push(110);
                },
                Double::PosInf => {
                    out.push(43);
                    out.push(105);
                    out.push(110);
                    out.push(102);
                },
                Double::NegInf => {
                    out.push(45);
                    out.push(105);
                    out.push(110);
                    out.push(102);
                },
                Double::Finite(t) => {
                    push_bytes(out, t.as_slice());
                },
            }
            push_crlf(out);
            proof {
                assert(out@ =~= old(out)@ + enc_frame(frame_view(*f)));
            }
        },
        RespFrame::BigNumber(v) => {
            out.push(40);
            push_signed_i128(*v, out);
            push_crlf(out);
            proof {
                assert(out@ =~= old(out)@ + enc_frame(frame_view(*f)));
            }
        },
        RespFrame::NullBulkString(_) => {
            out.push(36);
            out.push(45);
            out.push(49);
            push_crlf(out);
            proof {
                assert(out@ =~= old(out)@ + enc_frame(frame_view(*f)));
            }
        },
        RespFrame::Nil(_) => {
            out.push(95);
            push_crlf(out);
            proof {
                assert(out@ =~= old(out)@ + enc_frame(frame_view(*f)));
            }
        },
        RespFrame::ArrayNil(_) => {
            out.push(42);
            out.push(45);
            out.push(49);
            push_crlf(out);
            proof {
                assert(out@ =~= old(out)@ + enc_frame(frame_view(*f)));
            }
        },
        RespFrame::BulkString(b) => {
            out.push(36);
            push_digits_u128(b.0.len() as u128, out);
            push_crlf(out);
            push_bytes(out, b.0.as_slice());
            push_crlf(out);
            proof {
                assert(out@ =~= old(out)@ + enc_frame(frame_view(*f)));
            }
        },
        RespFrame::BulkErrors(o) => {
            out.push(33);
            match o {
                Option::None => {
                    out.push(45);
                    out.push(49);
                    push_crlf(out);
                },
                Option::Some(p) => {
                    push_digits_u128(p.len() as u128, out);
                    push_crlf(out);
                    push_bytes(out, p.as_slice());
                    push_crlf(out);
                },
            }
            proof {
                assert(out@ =~= old(out)@ + enc_frame(frame_view(*f)));
            }
        },
        RespFrame::BulkResp(a) => {
            out.push(42);
            encode_elems_into(&a.0, out);
            proof {
                lemma_frames_view(a.0@);
                assert(out@ =~= old(out)@ + enc_frame(frame_view(*f)));
            }
        },
        RespFrame::RespSet(s) => {
            out.push(126);
            encode_elems_into(&s.0, out);
            proof {
                lemma_frames_view(s.0@);
                assert(out@ =~= old(out)@ + enc_frame(frame_view(*f)));
            }
        },
        RespFrame::RespMap(m) => {
            out.push(37);
            encode_entries_into(&m.0, out);
            proof {
                lemma_entries_view(m.0@);
                assert(out@ =~= old(out)@ + enc_frame(frame_view(*f)));
            }
        },
    }
}

/// Appends the entry count header and the entries' wire forms to `out`.
fn encode_entries_into(entries: &Vec<(SimpleString, RespFrame)>, out: &mut Vec<u8>)
    ensures
        final(out)@ == old(out)@ + spec_digits(entries@.len()) + crlf() + enc_entries(
            entries_view(entries@),
        ),
    decreases entries@,
{
    let n = entries.len();
    push_digits_u128(n as u128, out);
    push_crlf(out);
    let ghost es = entries_view(entries@);
    proof {
        lemma_entries_view(entries@);
    }
    let ghost mark = out@;
    let mut i: usize = 0;
    while i < n
        invariant
            0 <= i <= n == entries@.len(),
            es == entries_view(entries@),
            es.len() == n,
            forall|k: int|
                0 <= k < n ==> es[k] == (#[trigger] entries@[k].0.0@, frame_view(entries@[k].1)),
            out@ == mark + enc_entries(es.take(i as int)),
        decreases n - i,
    {
        out.push(43);
        push_bytes(out, entries[i].0.0.as_slice());
        push_crlf(out);
        encode_frame_into(&entries[i].1, out);
        proof {
            lemma_enc_entries_take_step(es, i as int);
            assert(out@ =~= mark + enc_entries(es.take(i + 1)));
        }
        i = i + 1;
    }
    proof {
        assert(es.take(n as int) =~= es);
        assert(out@ =~= old(out)@ + spec_digits(entries@.len()) + crlf() + enc_entries(es));
    }
}

/// Appends the element count header and the elements' wire forms to `out`.
fn encode_elems_into(elems: &Vec<RespFrame>, out: &mut Vec<u8>)
    ensures
        final(out)@ == old(out)@ + spec_digits(elems@.len()) + crlf() + enc_elems(
            frames_view(elems@),
        ),
    decreases elems@,
{
    let n = elems.len();
    push_digits_u128(n as u128, out);
    push_crlf(out);
    let ghost es = frames_view(elems@);
    proof {
        lemma_frames_view(elems@);
    }
    let ghost mark = out@;
    let mut i: usize = 0;
    while i < n
        invariant
            0 <= i <= n == elems@.len(),
            es == frames_view(elems@),
            es.len() == n,
            forall|k: int| 0 <= k < n ==> es[k] == frame_view(#[trigger] elems@[k]),
            out@ == mark + enc_elems(es.take(i as int)),
        decreases n - i,
    {
        encode_frame_into(&elems[i], out);
        proof {
            lemma_enc_elems_take_step(es, i as int);
            assert(out@ =~= mark + enc_elems(es.take(i + 1)));
        }
        i = i + 1;
    }
    proof {
        assert(es.take(n as int) =~= es);
        assert(out@ =~= old(out)@ + spec_digits(elems@.len()) + crlf() + enc_elems(es));
    }
}

/// Serialization to the wire form: every value maps to exactly the byte
/// sequence `enc_spec` gives.
pub trait RespEncode: Sized {
    /// The wire form of this value.
    spec fn enc_spec(&self) -> Seq<u8>;

    /// Emits the wire form.
    fn encode(self) -> (r: Vec<u8>)
        ensures
            r@ == self.enc_spec(),
    ;
}

impl RespEncode for RespFrame {
    open spec fn enc_spec(&self) -> Seq<u8> {
        enc_frame(frame_view(*self))
    }

    fn encode(self) -> (r: Vec<u8>) {
        let mut out: Vec<u8> = Vec::new();
        encode_frame_into(&self, &mut out);
        out
    }
}

impl RespEncode for i64 {
    open spec fn enc_spec(&self) -> Seq<u8> {
        enc_frame(FrameV::Integer(*self))
    }

    fn encode(self) -> (r: Vec<u8>) {
        let mut out: Vec<u8> = Vec::new();
        encode_frame_into(&RespFrame::Integer(self), &mut out);
        out
    }
}

impl RespEncode for bool {
    open spec fn enc_spec(&self) -> Seq<u8> {
        enc_frame(FrameV::Boolean(*self))
    }

    fn encode(self) -> (r: Vec<u8>) {
        let mut out: Vec<u8> = Vec::new();
        encode_frame_into(&RespFrame::Boolean(self), &mut out);
        out
    }
}

impl RespEncode for SimpleString {
    open spec fn enc_spec(&self) -> Seq<u8> {
        enc_frame(FrameV::SimpleString(self.0@))
    }

    fn encode(self) -> (r: Vec<u8>) {
        let mut out: Vec<u8> = Vec::new();
        encode_frame_into(&RespFrame::SimpleString(self), &mut out);
        out
    }
}

impl RespEncode for SimpleError {
    open spec fn enc_spec(&self) -> Seq<u8> {
        enc_frame(FrameV::SimpleError(self.0@))
    }

    fn encode(self) -> (r: Vec<u8>) {
        let mut out: Vec<u8> = Vec::new();
        encode_frame_into(&RespFrame::SimpleError(self), &mut out);
        out
    }
}

impl RespEncode for BulkString {
    open spec fn enc_spec(&self) -> Seq<u8> {
        enc_frame(FrameV::BulkString(self.0@))
    }

    fn encode(self) -> (r: Vec<u8>) {
        let mut out: Vec<u8> = Vec::new();
        encode_frame_into(&RespFrame::BulkString(self), &mut out);
        out
    }
}

impl RespEncode for NullBulkString {
    open spec fn enc_spec(&self) -> Seq<u8> {
        enc_frame(FrameV::NullBulkString)
    }

    fn encode(self) -> (r: Vec<u8>) {
        let mut out: Vec<u8> = Vec::new();
        encode_frame_into(&RespFrame::NullBulkString(self), &mut out);
        out
    }
}

impl RespEncode for Null {
    open spec fn enc_spec(&self) -> Seq<u8> {
        enc_frame(FrameV::Nil)
    }

    fn encode(self) -> (r: Vec<u8>) {
        let mut out: Vec<u8> = Vec::new();
        encode_frame_into(&RespFrame::Nil(self), &mut out);
        out
    }
}

impl RespEncode for Double {
    open spec fn enc_spec(&self) -> Seq<u8> {
        enc_frame(FrameV::Double(self@))
    }

    fn encode(self) -> (r: Vec<u8>) {
        let mut out: Vec<u8> = Vec::new();
        encode_frame_into(&RespFrame::Double(self), &mut out);
        out
    }
}

impl RespEncode for Arrays {
    open spec fn enc_spec(&self) -> Seq<u8> {
        enc_frame(FrameV::BulkResp(self@))
    }

    fn encode(self) -> (r: Vec<u8>) {
        let mut out: Vec<u8> = Vec::new();
        encode_frame_into(&RespFrame::BulkResp(self), &mut out);
        out
    }
}

impl RespEncode for RespMap {
    open spec fn enc_spec(&self) -> Seq<u8> {
        enc_frame(FrameV::RespMap(self@))
    }

    fn encode(self) -> (r: Vec<u8>) {
        let mut out: Vec<u8> = Vec::new();
        encode_frame_into(&RespFrame::RespMap(self), &mut out);
        out
    }
}

impl RespEncode for RespSet {
    open spec fn enc_spec(&self) -> Seq<u8> {
        enc_frame(FrameV::RespSet(self@))
    }

    fn encode(self) -> (r: Vec<u8>) {
        let mut out: Vec<u8> = Vec::new();
        encode_frame_into(&RespFrame::RespSet(self), &mut out);
        out
    }
}

} // verus!
