//! The laws tying the encoder and the decoder together: decoding an encoded
//! frame yields that frame and consumes exactly its bytes, whatever follows
//! it in the buffer; and no strict prefix of an encoded frame decodes to
//! anything but a request for more input.

use vstd::prelude::*;
use crate::decode::HeaderV;
use crate::decode::SpecDec;
use crate::decode::SpecLine;
use crate::decode::dec_elems;
use crate::decode::dec_entries;
use crate::decode::dec_frame;
use crate::decode::find_cr;
use crate::decode::lemma_find_cr_skip;
use crate::decode::parse_double;
use crate::decode::parse_header;
use crate::decode::parse_signed;
use crate::decode::spec_line;
use crate::digits::digits_val;
use crate::digits::lemma_spec_digits;
use crate::digits::spec_digits;
use crate::digits::spec_signed;
use crate::encode::crlf;
use crate::encode::double_token;
use crate::encode::enc_elems;
use crate::encode::enc_entries;
use crate::encode::enc_frame;
use crate::frame::DoubleV;
use crate::frame::FrameV;
use crate::frame::frame_wf;
use crate::frame::is_digit;
use crate::frame::line_ok;

verus! {

/// Every declared length and count in the frame is within `max`, so the
/// decoder's size guard lets the frame through.
pub open spec fn frame_fits(f: FrameV, max: nat) -> bool
    decreases f,
{
    match f {
        FrameV::BulkString(p) => p.len() <= max,
        FrameV::BulkErrors(o) => match o {
            Option::Some(p) => p.len() <= max,
            Option::None => true,
        },
        FrameV::BulkResp(es) => es.len() <= max && forall|i: int|
            0 <= i < es.len() ==> frame_fits(#[trigger] es[i], max),
        FrameV::RespMap(es) => es.len() <= max && forall|i: int|
            0 <= i < es.len() ==> frame_fits((#[trigger] es[i]).1, max),
        FrameV::RespSet(es) => es.len() <= max && forall|i: int|
            0 <= i < es.len() ==> frame_fits(#[trigger] es[i], max),
        _ => true,
    }
}

/// A window whose subrange is `c` holds `c`'s bytes at those offsets.
proof fn lemma_window_index(w: Seq<u8>, pos: int, c: Seq<u8>)
    requires
        0 <= pos,
        pos + c.len() <= w.len(),
        w.subrange(pos, pos + c.len()) == c,
    ensures
        forall|k: int| 0 <= k < c.len() ==> w[pos + k] == c[k],
{
    assert forall|k: int| 0 <= k < c.len() implies w[pos + k] == c[k] by {
        assert(w.subrange(pos, pos + c.len())[k] == w[pos + k]);
    }
}

/// A window holding a concatenation holds each part at its own offset.
proof fn lemma_window_split(w: Seq<u8>, pos: int, a: Seq<u8>, b: Seq<u8>)
    requires
        0 <= pos,
        pos + a.len() + b.len() <= w.len(),
        w.subrange(pos, pos + a.len() + b.len()) == a + b,
    ensures
        w.subrange(pos, pos + a.len()) == a,
        w.subrange(pos + a.len(), pos + a.len() + b.len()) == b,
{
    lemma_window_index(w, pos, a + b);
    assert forall|k: int| 0 <= k < a.len() implies w.subrange(pos, pos + a.len())[k] == a[k] by {
        assert(w[pos + k] == (a + b)[k]);
    }
    assert(w.subrange(pos, pos + a.len()) =~= a);
    assert forall|k: int|
        0 <= k < b.len() implies w.subrange(pos + a.len(), pos + a.len() + b.len())[k] == b[k] by {
        assert(w[pos + a.len() + k] == (a + b)[a.len() + k]);
    }
    assert(w.subrange(pos + a.len(), pos + a.len() + b.len()) =~= b);
}

/// A window holding tag, CR-free content and CRLF scans to exactly that
/// line.
proof fn lemma_enc_line_at(w: Seq<u8>, pos: int, tag: u8, content: Seq<u8>)
    requires
        0 <= pos,
        pos + 3 + content.len() <= w.len(),
        w.subrange(pos, pos + 3 + content.len()) == seq![tag] + content + crlf(),
        forall|j: int| 0 <= j < content.len() ==> content[j] != 13u8,
    ensures
        w[pos] == tag,
        spec_line(w, pos + 1) == SpecLine::Ready(content, pos + content.len() + 3),
{
    let c = seq![tag] + content + crlf();
    lemma_window_index(w, pos, c);
    assert(w[pos] == c[0]);
    assert forall|j: int| pos + 1 <= j < pos + 1 + content.len() implies w[j] != 13u8 by {
        assert(w[j] == c[j - pos]);
        assert(c[j - pos] == content[j - pos - 1]);
    }
    let cr = pos + 1 + content.len();
    assert(w[cr] == c[1 + content.len() as int]);
    assert(c[1 + content.len() as int] == 13u8);
    assert(w[cr + 1] == c[2 + content.len() as int]);
    assert(c[2 + content.len() as int] == 10u8);
    lemma_find_cr_skip(w, pos + 1, cr);
    assert(find_cr(w, cr) == Option::<int>::Some(cr));
    assert forall|j: int| 0 <= j < content.len() implies w.subrange(pos + 1, cr)[j] == content[j] by {
        assert(w[pos + 1 + j] == c[1 + j]);
        assert(c[1 + j] == content[j]);
    }
    assert(w.subrange(pos + 1, cr) =~= content);
}

/// The explicit-sign form of an in-range value parses back to the value.
proof fn lemma_parse_spec_signed(v: int, lo: int, hi: int)
    requires
        lo <= v <= hi,
        lo < 0 < hi,
    ensures
        parse_signed(spec_signed(v), lo, hi) == Option::Some(v),
        forall|j: int| 0 <= j < spec_signed(v).len() ==> spec_signed(v)[j] != 13u8
            && spec_signed(v)[j] != 10u8,
{
    let mag: nat = if v >= 0 {
        v as nat
    } else {
        (-v) as nat
    };
    lemma_spec_digits(mag);
    let line = spec_signed(v);
    assert(line.drop_first() =~= spec_digits(mag));
    assert(line[0] == 43u8 || line[0] == 45u8);
    assert(digits_val(line.drop_first()) == mag);
    assert forall|j: int| 0 <= j < line.len() implies line[j] != 13u8 && line[j] != 10u8 by {
        if j > 0 {
            assert(line[j] == spec_digits(mag)[j - 1]);
            assert(is_digit(spec_digits(mag)[j - 1]));
        }
    }
}

/// The digit form of a count parses back as that count's header.
proof fn lemma_parse_header_digits(n: nat)
    ensures
        parse_header(spec_digits(n)) == HeaderV::Count(n),
        forall|j: int| 0 <= j < spec_digits(n).len() ==> spec_digits(n)[j] != 13u8
            && spec_digits(n)[j] != 10u8,
{
    lemma_spec_digits(n);
    let line = spec_digits(n);
    assert(is_digit(line[0]));
    assert(line != seq![45u8, 49u8]);
    assert forall|j: int| 0 <= j < line.len() implies line[j] != 13u8 && line[j] != 10u8 by {
        assert(is_digit(line[j]));
    }
}

/// Decoding a window that holds an encoded well-formed frame at `pos`
/// yields that frame and consumes exactly its bytes.
#[verifier::rlimit(100)]
pub proof fn lemma_enc_dec_at(w: Seq<u8>, pos: int, f: FrameV, max: nat)
    requires
        frame_wf(f),
        frame_fits(f, max),
        0 <= pos,
        pos + enc_frame(f).len() <= w.len(),
        w.subrange(pos, pos + enc_frame(f).len()) == enc_frame(f),
    ensures
        dec_frame(w, pos, max) == SpecDec::<FrameV>::Done(f, enc_frame(f).len() as nat),
    decreases f,
{
    let e = enc_frame(f);
    match f {
        FrameV::SimpleString(s) => {
            assert(e =~= seq![43u8] + s + crlf());
            lemma_enc_line_at(w, pos, 43u8, s);
        },
        FrameV::SimpleError(s) => {
            assert(e =~= seq![45u8] + s + crlf());
            lemma_enc_line_at(w, pos, 45u8, s);
        },
        FrameV::Integer(v) => {
            lemma_parse_spec_signed(v as int, i64::MIN as int, i64::MAX as int);
            assert(e =~= seq![58u8] + spec_signed(v as int) + crlf());
            lemma_enc_line_at(w, pos, 58u8, spec_signed(v as int));
        },
        FrameV::Boolean(b) => {
            let t = if b {
                seq![116u8]
            } else {
                seq![102u8]
            };
            assert(e =~= seq![35u8] + t + crlf());
            lemma_enc_line_at(w, pos, 35u8, t);
            assert(t != seq![116u8] ==> t == seq![102u8]);
        },
        FrameV::Double(d) => {
            let t = double_token(d);
            assert(e =~= seq![44u8] + t + crlf());
            match d {
                DoubleV::Nan => {
                    lemma_enc_line_at(w, pos, 44u8, t);
                    assert(parse_double(t) == Option::Some(d));
                },
                DoubleV::PosInf => {
                    lemma_enc_line_at(w, pos, 44u8, t);
                    assert(t != seq![110u8, 97u8, 110u8]);
                    assert(parse_double(t) == Option::Some(d));
                },
                DoubleV::NegInf => {
                    lemma_enc_line_at(w, pos, 44u8, t);
                    assert(t != seq![110u8, 97u8, 110u8]);
                    assert(t != seq![43u8, 105u8, 110u8, 102u8]);
                    assert(parse_double(t) == Option::Some(d));
                },
                DoubleV::Finite(tok) => {
                    assert(forall|j: int|
                        0 <= j < tok.len() ==> crate::frame::token_byte_ok(#[trigger] tok[j]));
                    assert(forall|j: int| 0 <= j < tok.len() ==> tok[j] != 13u8);
                    lemma_enc_line_at(w, pos, 44u8, tok);
                    assert(tok != seq![110u8, 97u8, 110u8]) by {
                        assert(tok[0] == 43u8 || tok[0] == 45u8);
                    }
                    assert(tok != seq![43u8, 105u8, 110u8, 102u8]) by {
                        assert(is_digit(tok[1]));
                    }
                    assert(tok != seq![45u8, 105u8, 110u8, 102u8]) by {
                        assert(is_digit(tok[1]));
                    }
                    assert(parse_double(tok) == Option::Some(d));
                },
            }
        },
        FrameV::BigNumber(v) => {
            lemma_parse_spec_signed(v as int, i128::MIN as int, i128::MAX as int);
            assert(e =~= seq![40u8] + spec_signed(v as int) + crlf());
            lemma_enc_line_at(w, pos, 40u8, spec_signed(v as int));
        },
        FrameV::NullBulkString => {
            let t = seq![45u8, 49u8];
            assert(e =~= seq![36u8] + t + crlf());
            lemma_enc_line_at(w, pos, 36u8, t);
            assert(parse_header(t) == HeaderV::NilHeader);
        },
        FrameV::Nil => {
            let t = Seq::<u8>::empty();
            assert(e =~= seq![95u8] + t + crlf());
            lemma_enc_line_at(w, pos, 95u8, t);
        },
        FrameV::ArrayNil => {
            let t = seq![45u8, 49u8];
            assert(e =~= seq![42u8] + t + crlf());
            lemma_enc_line_at(w, pos, 42u8, t);
            assert(parse_header(t) == HeaderV::NilHeader);
        },
        FrameV::BulkString(p) => {
            lemma_bulk_at(w, pos, 36u8, p, max);
        },
        FrameV::BulkErrors(o) => {
            match o {
                Option::None => {
                    let t = seq![45u8, 49u8];
                    assert(e =~= seq![33u8] + t + crlf());
                    lemma_enc_line_at(w, pos, 33u8, t);
                    assert(parse_header(t) == HeaderV::NilHeader);
                },
                Option::Some(p) => {
                    lemma_bulk_at(w, pos, 33u8, p, max);
                },
            }
        },
        FrameV::BulkResp(es) => {
            let hdr = spec_digits(es.len());
            lemma_parse_header_digits(es.len());
            assert(e =~= (seq![42u8] + hdr + crlf()) + enc_elems(es));
            lemma_window_split(w, pos, seq![42u8] + hdr + crlf(), enc_elems(es));
            assert((seq![42u8] + hdr + crlf()).subrange(0, 3 + hdr.len() as int) =~= seq![42u8] + hdr
                + crlf());
            lemma_enc_line_at(w, pos, 42u8, hdr);
            let end = pos + hdr.len() + 3;
            lemma_enc_dec_elems(w, end, es, max);
        },
        FrameV::RespSet(es) => {
            let hdr = spec_digits(es.len());
            lemma_parse_header_digits(es.len());
            assert(e =~= (seq![126u8] + hdr + crlf()) + enc_elems(es));
            lemma_window_split(w, pos, seq![126u8] + hdr + crlf(), enc_elems(es));
            lemma_enc_line_at(w, pos, 126u8, hdr);
            let end = pos + hdr.len() + 3;
            lemma_enc_dec_elems(w, end, es, max);
        },
        FrameV::RespMap(es) => {
            let hdr = spec_digits(es.len());
            lemma_parse_header_digits(es.len());
            assert forall|i: int|
                0 <= i < es.len() implies line_ok((#[trigger] es[i]).0) && frame_wf(es[i].1)
                && frame_fits(es[i].1, max) by {
                assert(frame_wf(f));
                assert(frame_fits(f, max));
                assert(line_ok((es[i]).0) && frame_wf((es[i]).1));
                assert(frame_fits((es[i]).1, max));
            }
            assert(e =~= (seq![37u8] + hdr + crlf()) + enc_entries(es));
            lemma_window_split(w, pos, seq![37u8] + hdr + crlf(), enc_entries(es));
            lemma_enc_line_at(w, pos, 37u8, hdr);
            let end = pos + hdr.len() + 3;
            lemma_enc_dec_entries(w, end, es, max);
        },
    }
}

/// The length-prefixed payload cases: a bulk string or a present bulk
/// error decodes back to its payload.
#[verifier::rlimit(100)]
proof fn lemma_bulk_at(w: Seq<u8>, pos: int, tag: u8, p: Seq<u8>, max: nat)
    requires
        0 <= pos,
        p.len() <= max,
        tag == 36u8 || tag == 33u8,
        pos + 1 + spec_digits(p.len()).len() + 2 + p.len() + 2 <= w.len(),
        w.subrange(pos, pos + 1 + spec_digits(p.len()).len() + 2 + p.len() + 2) == seq![tag]
            + spec_digits(p.len()) + crlf() + p + crlf(),
    ensures
        dec_frame(w, pos, max) == (if tag == 36u8 {
            SpecDec::<FrameV>::Done(
                FrameV::BulkString(p),
                (1 + spec_digits(p.len()).len() + 2 + p.len() + 2) as nat,
            )
        } else {
            SpecDec::<FrameV>::Done(
                FrameV::BulkErrors(Option::Some(p)),
                (1 + spec_digits(p.len()).len() + 2 + p.len() + 2) as nat,
            )
        }),
{
    let hdr = spec_digits(p.len());
    lemma_parse_header_digits(p.len());
    let head = seq![tag] + hdr + crlf();
    assert(seq![tag] + hdr + crlf() + p + crlf() =~= head + (p + crlf()));
    lemma_window_split(w, pos, head, p + crlf());
    assert(head.subrange(0, head.len() as int) =~= head);
    lemma_enc_line_at(w, pos, tag, hdr);
    let end = pos + hdr.len() + 3;
    lemma_window_index(w, end, p + crlf());
    assert(w[end + p.len()] == (p + crlf())[p.len() as int]);
    assert(w[end + p.len() + 1] == (p + crlf())[p.len() + 1int]);
    assert(w.subrange(end, end + p.len()) =~= p) by {
        assert forall|k: int| 0 <= k < p.len() implies w.subrange(end, end + p.len())[k] == p[k] by {
            assert(w[end + k] == (p + crlf())[k]);
        }
    }
}

/// Decoding a window that holds an encoded run of elements yields the run.
proof fn lemma_enc_dec_elems(w: Seq<u8>, pos: int, es: Seq<FrameV>, max: nat)
    requires
        forall|i: int| 0 <= i < es.len() ==> frame_wf(#[trigger] es[i]),
        forall|i: int| 0 <= i < es.len() ==> frame_fits(#[trigger] es[i], max),
        0 <= pos,
        pos + enc_elems(es).len() <= w.len(),
        w.subrange(pos, pos + enc_elems(es).len()) == enc_elems(es),
    ensures
        dec_elems(w, pos, max, es.len()) == SpecDec::<Seq<FrameV>>::Done(
            es,
            enc_elems(es).len() as nat,
        ),
    decreases es,
{
    if es.len() == 0 {
        assert(dec_elems(w, pos, max, 0) == SpecDec::<Seq<FrameV>>::Done(Seq::empty(), 0));
        assert(es =~= Seq::<FrameV>::empty());
    } else {
        let e0 = enc_frame(es[0]);
        let rest = es.drop_first();
        assert(enc_elems(es) == e0 + enc_elems(rest));
        lemma_window_split(w, pos, e0, enc_elems(rest));
        lemma_enc_dec_at(w, pos, es[0], max);
        assert(forall|i: int| 0 <= i < rest.len() ==> rest[i] == es[i + 1]);
        assert(forall|i: int| 0 <= i < rest.len() ==> frame_wf(#[trigger] rest[i]));
        assert(forall|i: int| 0 <= i < rest.len() ==> frame_fits(#[trigger] rest[i], max));
        lemma_enc_dec_elems(w, pos + e0.len(), rest, max);
        assert(seq![es[0]] + rest =~= es);
    }
}

/// Decoding a window that holds an encoded run of entries yields the run.
proof fn lemma_enc_dec_entries(w: Seq<u8>, pos: int, es: Seq<(Seq<u8>, FrameV)>, max: nat)
    requires
        forall|i: int| 0 <= i < es.len() ==> line_ok((#[trigger] es[i]).0),
        forall|i: int| 0 <= i < es.len() ==> frame_wf((#[trigger] es[i]).1),
        forall|i: int| 0 <= i < es.len() ==> frame_fits((#[trigger] es[i]).1, max),
        0 <= pos,
        pos + enc_entries(es).len() <= w.len(),
        w.subrange(pos, pos + enc_entries(es).len()) == enc_entries(es),
    ensures
        dec_entries(w, pos, max, es.len()) == SpecDec::<Seq<(Seq<u8>, FrameV)>>::Done(
            es,
            enc_entries(es).len() as nat,
        ),
    decreases es,
{
    if es.len() == 0 {
        assert(es =~= Seq::<(Seq<u8>, FrameV)>::empty());
    } else {
        let k = es[0].0;
        let v = es[0].1;
        let ek = enc_frame(FrameV::SimpleString(k));
        let ev = enc_frame(v);
        let rest = es.drop_first();
        assert(ek == seq![43u8] + k + crlf());
        assert(enc_entries(es) =~= ek + (ev + enc_entries(rest)));
        lemma_window_split(w, pos, ek, ev + enc_entries(rest));
        lemma_window_split(w, pos + ek.len(), ev, enc_entries(rest));
        lemma_enc_line_at(w, pos, 43u8, k);
        assert(dec_frame(w, pos, max) == SpecDec::<FrameV>::Done(
            FrameV::SimpleString(k),
            ek.len() as nat,
        ));
        lemma_enc_dec_at(w, pos + ek.len(), v, max);
        assert(forall|i: int| 0 <= i < rest.len() ==> rest[i] == es[i + 1]);
        assert(forall|i: int| 0 <= i < rest.len() ==> line_ok((#[trigger] rest[i]).0));
        assert(forall|i: int| 0 <= i < rest.len() ==> frame_wf((#[trigger] rest[i]).1));
        assert(forall|i: int| 0 <= i < rest.len() ==> frame_fits((#[trigger] rest[i]).1, max));
        lemma_enc_dec_entries(w, pos + ek.len() + ev.len(), rest, max);
        assert(seq![(k, v)] + rest =~= es);
    }
}

/// Round trip: whatever tail follows it in the buffer, the encoding of a
/// well-formed frame that fits the size bound decodes back to that very
/// frame, consuming exactly the encoding's length.
pub proof fn lemma_round_trip(f: FrameV, tail: Seq<u8>, max: nat)
    requires
        frame_wf(f),
        frame_fits(f, max),
    ensures
        dec_frame(enc_frame(f) + tail, 0, max) == SpecDec::<FrameV>::Done(
            f,
            enc_frame(f).len() as nat,
        ),
{
    let w = enc_frame(f) + tail;
    assert(w.subrange(0, enc_frame(f).len() as int) =~= enc_frame(f));
    lemma_enc_dec_at(w, 0, f, max);
}


/// Taking a short prefix of a concatenation only reads the first part.
proof fn lemma_take_of_concat(a: Seq<u8>, b: Seq<u8>, r: int)
    requires
        0 <= r <= a.len(),
    ensures
        (a + b).take(r) == a.take(r),
{
    assert((a + b).take(r) =~= a.take(r));
}

/// A window ending inside a line scans to a request for more input.
proof fn lemma_line_prefix_more(w: Seq<u8>, pos: int, tag: u8, content: Seq<u8>)
    requires
        0 <= pos < w.len(),
        w.len() - pos < 3 + content.len(),
        w.subrange(pos, w.len() as int) == (seq![tag] + content + crlf()).take(w.len() - pos),
        forall|j: int| 0 <= j < content.len() ==> content[j] != 13u8,
    ensures
        spec_line(w, pos + 1) == SpecLine::More,
{
    let r = w.len() - pos;
    let c = seq![tag] + content + crlf();
    lemma_window_index(w, pos, c.take(r));
    assert forall|j: int| pos + 1 <= j < w.len() && j - pos <= content.len() implies w[j]
        != 13u8 by {
        assert(w[j] == c.take(r)[j - pos]);
        assert(c[j - pos] == content[j - pos - 1]);
    }
    if r <= 1 + content.len() {
        lemma_find_cr_skip(w, pos + 1, w.len() as int);
    } else {
        let cr = pos + 1 + content.len();
        assert(cr == w.len() - 1);
        assert(w[cr] == c.take(r)[cr - pos]);
        assert(c[cr - pos] == 13u8);
        lemma_find_cr_skip(w, pos + 1, cr);
        assert(find_cr(w, cr) == Option::<int>::Some(cr));
    }
}

/// A window that ends strictly inside the encoding of a well-formed frame
/// decodes to a request for more input: no strict prefix is a frame, and
/// none is a violation.
#[verifier::rlimit(100)]
pub proof fn lemma_prefix_more_at(w: Seq<u8>, pos: int, f: FrameV, max: nat)
    requires
        frame_wf(f),
        frame_fits(f, max),
        0 <= pos <= w.len(),
        w.len() - pos < enc_frame(f).len(),
        w.subrange(pos, w.len() as int) == enc_frame(f).take(w.len() - pos),
    ensures
        dec_frame(w, pos, max) == SpecDec::<FrameV>::More,
    decreases f,
{
    let r = w.len() - pos;
    let e = enc_frame(f);
    if r == 0 {
    } else {
        lemma_window_index(w, pos, e.take(r));
        assert(w[pos] == e.take(r)[0]) by {
            assert(w[pos + 0] == e.take(r)[0]);
        }
        assert(w[pos] == e[0]);
        match f {
            FrameV::SimpleString(s) => {
                assert(e =~= seq![43u8] + s + crlf());
                lemma_line_prefix_more(w, pos, 43u8, s);
            },
            FrameV::SimpleError(s) => {
                assert(e =~= seq![45u8] + s + crlf());
                lemma_line_prefix_more(w, pos, 45u8, s);
            },
            FrameV::Integer(v) => {
                lemma_parse_spec_signed(v as int, i64::MIN as int, i64::MAX as int);
                assert(e =~= seq![58u8] + spec_signed(v as int) + crlf());
                lemma_line_prefix_more(w, pos, 58u8, spec_signed(v as int));
            },
            FrameV::Boolean(b) => {
                let t = if b {
                    seq![116u8]
                } else {
                    seq![102u8]
                };
                assert(e =~= seq![35u8] + t + crlf());
                lemma_line_prefix_more(w, pos, 35u8, t);
            },
            FrameV::Double(d) => {
                let t = double_token(d);
                assert(e =~= seq![44u8] + t + crlf());
                assert forall|j: int| 0 <= j < t.len() implies t[j] != 13u8 by {
                    if d is Finite {
                        assert(crate::frame::token_byte_ok(t[j]));
                    }
                }
                lemma_line_prefix_more(w, pos, 44u8, t);
            },
            FrameV::BigNumber(v) => {
                lemma_parse_spec_signed(v as int, i128::MIN as int, i128::MAX as int);
                assert(e =~= seq![40u8] + spec_signed(v as int) + crlf());
                lemma_line_prefix_more(w, pos, 40u8, spec_signed(v as int));
            },
            FrameV::NullBulkString => {
                assert(e =~= seq![36u8] + seq![45u8, 49u8] + crlf());
                lemma_line_prefix_more(w, pos, 36u8, seq![45u8, 49u8]);
            },
            FrameV::Nil => {
                assert(e =~= seq![95u8] + Seq::<u8>::empty() + crlf());
                lemma_line_prefix_more(w, pos, 95u8, Seq::<u8>::empty());
            },
            FrameV::ArrayNil => {
                assert(e =~= seq![42u8] + seq![45u8, 49u8] + crlf());
                lemma_line_prefix_more(w, pos, 42u8, seq![45u8, 49u8]);
            },
            FrameV::BulkString(p) => {
                lemma_bulk_prefix_more(w, pos, 36u8, p, max);
            },
            FrameV::BulkErrors(o) => {
                match o {
                    Option::None => {
                        assert(e =~= seq![33u8] + seq![45u8, 49u8] + crlf());
                        lemma_line_prefix_more(w, pos, 33u8, seq![45u8, 49u8]);
                    },
                    Option::Some(p) => {
                        lemma_bulk_prefix_more(w, pos, 33u8, p, max);
                    },
                }
            },
            FrameV::BulkResp(es) => {
                let hdr = spec_digits(es.len());
                let head = seq![42u8] + hdr + crlf();
                lemma_parse_header_digits(es.len());
                assert(e =~= head + enc_elems(es));
                if r < head.len() {
                    lemma_take_of_concat(head, enc_elems(es), r);
                    lemma_line_prefix_more(w, pos, 42u8, hdr);
                } else {
                    assert(w.subrange(pos, pos + head.len()) =~= head) by {
                        assert forall|j: int|
                            0 <= j < head.len() implies w.subrange(pos, pos + head.len())[j]
                            == head[j] by {
                            assert(w[pos + j] == e.take(r)[j]);
                        }
                    }
                    lemma_enc_line_at(w, pos, 42u8, hdr);
                    let end = pos + head.len();
                    assert(w.subrange(end, w.len() as int) =~= enc_elems(es).take(w.len()
                        - end)) by {
                        assert forall|j: int|
                            0 <= j < w.len() - end implies w.subrange(end, w.len() as int)[j]
                            == enc_elems(es).take(w.len() - end)[j] by {
                            assert(w[end + j] == e.take(r)[head.len() + j]);
                            assert(e[head.len() + j] == enc_elems(es)[j]);
                        }
                    }
                    lemma_prefix_more_elems(w, end, es, max);
                }
            },
            FrameV::RespSet(es) => {
                let hdr = spec_digits(es.len());
                let head = seq![126u8] + hdr + crlf();
                lemma_parse_header_digits(es.len());
                assert(e =~= head + enc_elems(es));
                if r < head.len() {
                    lemma_take_of_concat(head, enc_elems(es), r);
                    lemma_line_prefix_more(w, pos, 126u8, hdr);
                } else {
                    assert(w.subrange(pos, pos + head.len()) =~= head) by {
                        assert forall|j: int|
                            0 <= j < head.len() implies w.subrange(pos, pos + head.len())[j]
                            == head[j] by {
                            assert(w[pos + j] == e.take(r)[j]);
                        }
                    }
                    lemma_enc_line_at(w, pos, 126u8, hdr);
                    let end = pos + head.len();
                    assert(w.subrange(end, w.len() as int) =~= enc_elems(es).take(w.len()
                        - end)) by {
                        assert forall|j: int|
                            0 <= j < w.len() - end implies w.subrange(end, w.len() as int)[j]
                            == enc_elems(es).take(w.len() - end)[j] by {
                            assert(w[end + j] == e.take(r)[head.len() + j]);
                            assert(e[head.len() + j] == enc_elems(es)[j]);
                        }
                    }
                    lemma_prefix_more_elems(w, end, es, max);
                }
            },
            FrameV::RespMap(es) => {
                let hdr = spec_digits(es.len());
                let head = seq![37u8] + hdr + crlf();
                lemma_parse_header_digits(es.len());
                assert forall|i: int|
                    0 <= i < es.len() implies line_ok((#[trigger] es[i]).0) && frame_wf(es[i].1)
                    && frame_fits(es[i].1, max) by {
                    assert(frame_wf(f));
                    assert(frame_fits(f, max));
                    assert(line_ok((es[i]).0) && frame_wf((es[i]).1));
                    assert(frame_fits((es[i]).1, max));
                }
                assert(e =~= head + enc_entries(es));
                if r < head.len() {
                    lemma_take_of_concat(head, enc_entries(es), r);
                    lemma_line_prefix_more(w, pos, 37u8, hdr);
                } else {
                    assert(w.subrange(pos, pos + head.len()) =~= head) by {
                        assert forall|j: int|
                            0 <= j < head.len() implies w.subrange(pos, pos + head.len())[j]
                            == head[j] by {
                            assert(w[pos + j] == e.take(r)[j]);
                        }
                    }
                    lemma_enc_line_at(w, pos, 37u8, hdr);
                    let end = pos + head.len();
                    assert(w.subrange(end, w.len() as int) =~= enc_entries(es).take(w.len()
                        - end)) by {
                        assert forall|j: int|
                            0 <= j < w.len() - end implies w.subrange(end, w.len() as int)[j]
                            == enc_entries(es).take(w.len() - end)[j] by {
                            assert(w[end + j] == e.take(r)[head.len() + j]);
                            assert(e[head.len() + j] == enc_entries(es)[j]);
                        }
                    }
                    lemma_prefix_more_entries(w, end, es, max);
                }
            },
        }
    }
}

/// A window ending inside a length-prefixed payload decodes to a request
/// for more input.
#[verifier::rlimit(100)]
proof fn lemma_bulk_prefix_more(w: Seq<u8>, pos: int, tag: u8, p: Seq<u8>, max: nat)
    requires
        0 <= pos < w.len(),
        p.len() <= max,
        tag == 36u8 || tag == 33u8,
        w.len() - pos < 1 + spec_digits(p.len()).len() + 2 + p.len() + 2,
        w.subrange(pos, w.len() as int) == (seq![tag] + spec_digits(p.len()) + crlf() + p
            + crlf()).take(w.len() - pos),
    ensures
        dec_frame(w, pos, max) == SpecDec::<FrameV>::More,
{
    let r = w.len() - pos;
    let hdr = spec_digits(p.len());
    let head = seq![tag] + hdr + crlf();
    let e = seq![tag] + hdr + crlf() + p + crlf();
    lemma_parse_header_digits(p.len());
    assert(e =~= head + (p + crlf()));
    lemma_window_index(w, pos, e.take(r));
    assert(w[pos] == e.take(r)[0]) by {
        assert(w[pos + 0] == e.take(r)[0]);
    }
    assert(w[pos] == tag);
    if r < head.len() {
        lemma_take_of_concat(head, p + crlf(), r);
        lemma_line_prefix_more(w, pos, tag, hdr);
    } else {
        assert(w.subrange(pos, pos + head.len()) =~= head) by {
            assert forall|j: int|
                0 <= j < head.len() implies w.subrange(pos, pos + head.len())[j] == head[j] by {
                assert(w[pos + j] == e.take(r)[j]);
            }
        }
        lemma_enc_line_at(w, pos, tag, hdr);
        let end = pos + head.len();
        assert(w.len() < end + p.len() + 2);
    }
}

/// A window ending inside an encoded run of elements decodes to a request
/// for more input.
proof fn lemma_prefix_more_elems(w: Seq<u8>, pos: int, es: Seq<FrameV>, max: nat)
    requires
        forall|i: int| 0 <= i < es.len() ==> frame_wf(#[trigger] es[i]),
        forall|i: int| 0 <= i < es.len() ==> frame_fits(#[trigger] es[i], max),
        0 <= pos <= w.len(),
        w.len() - pos < enc_elems(es).len(),
        w.subrange(pos, w.len() as int) == enc_elems(es).take(w.len() - pos),
    ensures
        dec_elems(w, pos, max, es.len()) == SpecDec::<Seq<FrameV>>::More,
    decreases es,
{
    let r = w.len() - pos;
    let e0 = enc_frame(es[0]);
    let rest = es.drop_first();
    assert(es.len() > 0);
    assert(enc_elems(es) == e0 + enc_elems(rest));
    lemma_window_index(w, pos, enc_elems(es).take(r));
    if r < e0.len() {
        assert(w.subrange(pos, w.len() as int) =~= e0.take(r)) by {
            lemma_take_of_concat(e0, enc_elems(rest), r);
        }
        lemma_prefix_more_at(w, pos, es[0], max);
    } else {
        assert(w.subrange(pos, pos + e0.len()) =~= e0) by {
            assert forall|j: int|
                0 <= j < e0.len() implies w.subrange(pos, pos + e0.len())[j] == e0[j] by {
                assert(w[pos + j] == enc_elems(es).take(r)[j]);
            }
        }
        lemma_enc_dec_at(w, pos, es[0], max);
        let mid = pos + e0.len();
        assert(w.subrange(mid, w.len() as int) =~= enc_elems(rest).take(w.len() - mid)) by {
            assert forall|j: int|
                0 <= j < w.len() - mid implies w.subrange(mid, w.len() as int)[j] == enc_elems(
                    rest,
                ).take(w.len() - mid)[j] by {
                assert(w[mid + j] == enc_elems(es).take(r)[e0.len() + j]);
                assert(enc_elems(es)[e0.len() + j] == enc_elems(rest)[j]);
            }
        }
        assert(forall|i: int| 0 <= i < rest.len() ==> rest[i] == es[i + 1]);
        assert(forall|i: int| 0 <= i < rest.len() ==> frame_wf(#[trigger] rest[i]));
        assert(forall|i: int| 0 <= i < rest.len() ==> frame_fits(#[trigger] rest[i], max));
        lemma_prefix_more_elems(w, mid, rest, max);
    }
}

/// A window ending inside an encoded run of entries decodes to a request
/// for more input.
#[verifier::rlimit(100)]
proof fn lemma_prefix_more_entries(w: Seq<u8>, pos: int, es: Seq<(Seq<u8>, FrameV)>, max: nat)
    requires
        forall|i: int| 0 <= i < es.len() ==> line_ok((#[trigger] es[i]).0),
        forall|i: int| 0 <= i < es.len() ==> frame_wf((#[trigger] es[i]).1),
        forall|i: int| 0 <= i < es.len() ==> frame_fits((#[trigger] es[i]).1, max),
        0 <= pos <= w.len(),
        w.len() - pos < enc_entries(es).len(),
        w.subrange(pos, w.len() as int) == enc_entries(es).take(w.len() - pos),
    ensures
        dec_entries(w, pos, max, es.len()) == SpecDec::<Seq<(Seq<u8>, FrameV)>>::More,
    decreases es,
{
    let r = w.len() - pos;
    let k = es[0].0;
    let v = es[0].1;
    let ek = enc_frame(FrameV::SimpleString(k));
    let ev = enc_frame(v);
    let rest = es.drop_first();
    assert(es.len() > 0);
    assert(line_ok(k));
    assert(ek == seq![43u8] + k + crlf());
    assert(enc_entries(es) =~= ek + (ev + enc_entries(rest)));
    lemma_window_index(w, pos, enc_entries(es).take(r));
    if r == 0 {
    } else if r < ek.len() {
        assert(w[pos] == enc_entries(es).take(r)[0]) by {
            assert(w[pos + 0] == enc_entries(es).take(r)[0]);
        }
        assert(w[pos] == 43u8);
        assert(w.subrange(pos, w.len() as int) =~= ek.take(r)) by {
            lemma_take_of_concat(ek, ev + enc_entries(rest), r);
        }
        lemma_line_prefix_more(w, pos, 43u8, k);
    } else {
        assert(w.subrange(pos, pos + ek.len()) =~= ek) by {
            assert forall|j: int|
                0 <= j < ek.len() implies w.subrange(pos, pos + ek.len())[j] == ek[j] by {
                assert(w[pos + j] == enc_entries(es).take(r)[j]);
            }
        }
        lemma_enc_line_at(w, pos, 43u8, k);
        assert(dec_frame(w, pos, max) == SpecDec::<FrameV>::Done(
            FrameV::SimpleString(k),
            ek.len() as nat,
        ));
        let mid = pos + ek.len();
        assert(w.subrange(mid, w.len() as int) =~= (ev + enc_entries(rest)).take(w.len()
            - mid)) by {
            assert forall|j: int|
                0 <= j < w.len() - mid implies w.subrange(mid, w.len() as int)[j] == (ev
                    + enc_entries(rest)).take(w.len() - mid)[j] by {
                assert(w[mid + j] == enc_entries(es).take(r)[ek.len() + j]);
                assert(enc_entries(es)[ek.len() + j] == (ev + enc_entries(rest))[j]);
            }
        }
        if r - ek.len() < ev.len() {
            assert(w.subrange(mid, w.len() as int) =~= ev.take(w.len() - mid)) by {
                lemma_take_of_concat(ev, enc_entries(rest), w.len() - mid);
            }
            lemma_prefix_more_at(w, mid, v, max);
        } else {
            assert(w.subrange(mid, mid + ev.len()) =~= ev) by {
                assert forall|j: int|
                    0 <= j < ev.len() implies w.subrange(mid, mid + ev.len())[j] == ev[j] by {
                    assert(w[mid + j] == enc_entries(es).take(r)[ek.len() + j]);
                    assert(enc_entries(es)[ek.len() + j] == (ev + enc_entries(rest))[j]);
                }
            }
            lemma_enc_dec_at(w, mid, v, max);
            let mid2 = mid + ev.len();
            assert(w.subrange(mid2, w.len() as int) =~= enc_entries(rest).take(w.len()
                - mid2)) by {
                assert forall|j: int|
                    0 <= j < w.len() - mid2 implies w.subrange(mid2, w.len() as int)[j]
                    == enc_entries(rest).take(w.len() - mid2)[j] by {
                    assert(w[mid2 + j] == enc_entries(es).take(r)[ek.len() + ev.len() + j]);
                    assert(enc_entries(es)[ek.len() + ev.len() + j] == (ev + enc_entries(
                        rest,
                    ))[ev.len() + j]);
                }
            }
            assert(forall|i: int| 0 <= i < rest.len() ==> rest[i] == es[i + 1]);
            assert(forall|i: int| 0 <= i < rest.len() ==> line_ok((#[trigger] rest[i]).0));
            assert(forall|i: int| 0 <= i < rest.len() ==> frame_wf((#[trigger] rest[i]).1));
            assert(forall|i: int|
                0 <= i < rest.len() ==> frame_fits((#[trigger] rest[i]).1, max));
            lemma_prefix_more_entries(w, mid2, rest, max);
        }
    }
}

/// Partial-input stability, first half: any strict prefix of an encoded
/// well-formed frame decodes to a request for more input, never to a frame
/// and never to a violation.
pub proof fn lemma_prefix_incomplete(f: FrameV, k: int, max: nat)
    requires
        frame_wf(f),
        frame_fits(f, max),
        0 <= k < enc_frame(f).len(),
    ensures
        dec_frame(enc_frame(f).take(k), 0, max) == SpecDec::<FrameV>::More,
{
    let w = enc_frame(f).take(k);
    assert(w.subrange(0, w.len() as int) =~= enc_frame(f).take(w.len() - 0));
    lemma_prefix_more_at(w, 0, f, max);
}

/// Partial-input stability, second half: splitting a buffer into two reads
/// and joining them again hands the decoder the same bytes, so the same
/// outcome; with the round-trip law, decoding after both chunks of a split
/// encoding arrive yields the frame itself.
pub proof fn lemma_split_rejoin(w: Seq<u8>, k: int, max: nat)
    requires
        0 <= k <= w.len(),
    ensures
        dec_frame(w.take(k) + w.skip(k), 0, max) == dec_frame(w, 0, max),
{
    assert(w.take(k) + w.skip(k) =~= w);
}

} // verus!
