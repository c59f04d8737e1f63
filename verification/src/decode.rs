//! The decoder: a spec-level decoding function over a byte window, and the
//! executable decoder proved to return exactly what it says. Decoding never
//! needs the whole message: it reports a frame with its byte length, asks
//! for more input, or reports the wire-format violation it found.

use vstd::prelude::*;
use crate::digits::check_all_digits;
use crate::digits::digits_canonical;
use crate::digits::digits_val;
use crate::digits::parse_digits_bounded;
use crate::frame::ArrayNil;
use crate::frame::Arrays;
use crate::frame::BulkString;
use crate::frame::Double;
use crate::frame::DoubleV;
use crate::frame::FrameV;
use crate::frame::Null;
use crate::frame::NullBulkString;
use crate::frame::RespFrame;
use crate::frame::RespMap;
use crate::frame::RespSet;
use crate::frame::SimpleError;
use crate::frame::SimpleString;
use crate::frame::frame_view;
use crate::frame::frames_view;
use crate::frame::entries_view;
use crate::frame::lemma_frames_view_push;
use crate::frame::lemma_entries_view_push;
use crate::frame::token_wf;

verus! {

/// A wire-format violation: the reason decoding failed for good.
#[derive(Debug, Clone, Copy, PartialEq, Eq, Structural)]
pub enum ProtocolError {
    /// The first byte is not a known type tag.
    UnknownTag,
    /// A length or count field is not a well-formed length.
    BadLength,
    /// A numeric payload is malformed or out of range.
    BadNumber,
    /// A payload breaks its frame's rule (stray LF, bad token, bad key).
    BadPayload,
    /// A terminator is missing or malformed where one is owed.
    BadTerminator,
    /// A declared length or count exceeds the configured maximum.
    Oversize,
}

/// A decoding outcome over the model: a value with the count of bytes it
/// occupied, a request for more input, or a protocol violation.
pub enum SpecDec<T> {
    Done(T, nat),
    More,
    Fail(ProtocolError),
}

/// The least index at or after `from` holding CR, if any.
pub open spec fn find_cr(w: Seq<u8>, from: int) -> Option<int>
    decreases w.len() - from,
{
    if from < 0 || from >= w.len() {
        Option::None
    } else if w[from] == 13 {
        Option::Some(from)
    } else {
        find_cr(w, from + 1)
    }
}

/// A terminator scan: the line's content and the index just past CRLF,
/// a request for more input, or a CR not followed by LF.
pub enum SpecLine {
    Ready(Seq<u8>, int),
    More,
    Bad,
}

/// Scans for the line terminator from `from` on.
pub open spec fn spec_line(w: Seq<u8>, from: int) -> SpecLine {
    match find_cr(w, from) {
        Option::None => SpecLine::More,
        Option::Some(i) => if i + 1 >= w.len() {
            SpecLine::More
        } else if w[i + 1] != 10 {
            SpecLine::Bad
        } else {
            SpecLine::Ready(w.subrange(from, i), i + 2)
        },
    }
}

/// What `find_cr` returns: the first CR at or after `from`.
pub proof fn lemma_find_cr(w: Seq<u8>, from: int)
    requires
        0 <= from <= w.len(),
    ensures
        match find_cr(w, from) {
            Option::Some(i) => from <= i < w.len() && w[i] == 13 && forall|j: int|
                from <= j < i ==> w[j] != 13,
            Option::None => forall|j: int| from <= j < w.len() ==> w[j] != 13,
        },
    decreases w.len() - from,
{
    if from < w.len() && w[from] != 13 {
        lemma_find_cr(w, from + 1);
    }
}

/// `find_cr` skips over a CR-free region.
pub proof fn lemma_find_cr_skip(w: Seq<u8>, from: int, i: int)
    requires
        0 <= from <= i <= w.len(),
        forall|j: int| from <= j < i ==> w[j] != 13,
    ensures
        find_cr(w, from) == find_cr(w, i),
    decreases i - from,
{
    if from < i {
        lemma_find_cr_skip(w, from + 1, i);
    }
}

/// What a ready line means: its bounds, its content, and that the content
/// holds no CR.
pub proof fn lemma_spec_line(w: Seq<u8>, from: int)
    requires
        0 <= from <= w.len(),
    ensures
        spec_line(w, from) matches SpecLine::Ready(line, end) ==> {
            &&& from + 2 <= end <= w.len()
            &&& line == w.subrange(from, end - 2)
            &&& w[end - 2] == 13 && w[end - 1] == 10
            &&& forall|j: int| 0 <= j < line.len() ==> line[j] != 13
        },
{
    lemma_find_cr(w, from);
    if let SpecLine::Ready(line, end) = spec_line(w, from) {
        let i = find_cr(w, from)->Some_0;
        assert(forall|j: int| 0 <= j < line.len() ==> line[j] == w[from + j]);
    }
}

/// No LF anywhere in `s`.
pub open spec fn no_lf(s: Seq<u8>) -> bool {
    forall|i: int| 0 <= i < s.len() ==> s[i] != 10u8
}

/// Parses a signed integer line: an explicit sign, canonical digits, the
/// value within `lo ..= hi`, and no negative zero.
pub open spec fn parse_signed(line: Seq<u8>, lo: int, hi: int) -> Option<int> {
    if line.len() < 2 {
        Option::None
    } else if !(line[0] == 43 || line[0] == 45) {
        Option::None
    } else if !digits_canonical(line.drop_first()) {
        Option::None
    } else {
        let m = digits_val(line.drop_first()) as int;
        if line[0] == 45 {
            if m == 0 || -m < lo {
                Option::None
            } else {
                Option::Some(-m)
            }
        } else {
            if m > hi {
                Option::None
            } else {
                Option::Some(m)
            }
        }
    }
}

/// A length or count header: the nil sentinel, a count, or neither.
pub enum HeaderV {
    NilHeader,
    Count(nat),
    BadHeader,
}

/// Parses a length or count header line.
pub open spec fn parse_header(line: Seq<u8>) -> HeaderV {
    if line == seq![45u8, 49u8] {
        HeaderV::NilHeader
    } else if digits_canonical(line) {
        HeaderV::Count(digits_val(line))
    } else {
        HeaderV::BadHeader
    }
}

/// Parses a double line: one of the special tokens, or a finite token.
pub open spec fn parse_double(line: Seq<u8>) -> Option<DoubleV> {
    if line == seq![110u8, 97u8, 110u8] {
        Option::Some(DoubleV::Nan)
    } else if line == seq![43u8, 105u8, 110u8, 102u8] {
        Option::Some(DoubleV::PosInf)
    } else if line == seq![45u8, 105u8, 110u8, 102u8] {
        Option::Some(DoubleV::NegInf)
    } else if token_wf(line) {
        Option::Some(DoubleV::Finite(line))
    } else {
        Option::None
    }
}

/// Decodes one frame from the window `w` at `pos` under the size bound
/// `max`. The result is `Done(frame, used)` exactly when `w[pos ..]` starts
/// with a complete, canonical wire form occupying `used` bytes.
pub open spec fn dec_frame(w: Seq<u8>, pos: int, max: nat) -> SpecDec<FrameV>
    decreases w.len() - pos, 0nat, 0nat,
        when 0 <= pos
    via dec_frame_dec
{
    if pos >= w.len() {
        SpecDec::More
    } else {
        let tag = w[pos];
        if tag == 43 {  // '+'
            match spec_line(w, pos + 1) {
                SpecLine::More => SpecDec::More,
                SpecLine::Bad => SpecDec::Fail(ProtocolError::BadTerminator),
                SpecLine::Ready(line, end) => if no_lf(line) {
                    SpecDec::Done(FrameV::SimpleString(line), (end - pos) as nat)
                } else {
                    SpecDec::Fail(ProtocolError::BadPayload)
                },
            }
        } else if tag == 45 {  // '-'
            match spec_line(w, pos + 1) {
                SpecLine::More => SpecDec::More,
                SpecLine::Bad => SpecDec::Fail(ProtocolError::BadTerminator),
                SpecLine::Ready(line, end) => if no_lf(line) {
                    SpecDec::Done(FrameV::SimpleError(line), (end - pos) as nat)
                } else {
                    SpecDec::Fail(ProtocolError::BadPayload)
                },
            }
        } else if tag == 58 {  // ':'
            match spec_line(w, pos + 1) {
                SpecLine::More => SpecDec::More,
                SpecLine::Bad => SpecDec::Fail(ProtocolError::BadTerminator),
                SpecLine::Ready(line, end) => match parse_signed(
                    line,
                    i64::MIN as int,
                    i64::MAX as int,
                ) {
                    Option::None => SpecDec::Fail(ProtocolError::BadNumber),
                    Option::Some(v) => SpecDec::Done(
                        FrameV::Integer(v as i64),
                        (end - pos) as nat,
                    ),
                },
            }
        } else if tag == 35 {  // '#'
            match spec_line(w, pos + 1) {
                SpecLine::More => SpecDec::More,
                SpecLine::Bad => SpecDec::Fail(ProtocolError::BadTerminator),
                SpecLine::Ready(line, end) => if line == seq![116u8] {
                    SpecDec::Done(FrameV::Boolean(true), (end - pos) as nat)
                } else if line == seq![102u8] {
                    SpecDec::Done(FrameV::Boolean(false), (end - pos) as nat)
                } else {
                    SpecDec::Fail(ProtocolError::BadPayload)
                },
            }
        } else if tag == 44 {  // ','
            match spec_line(w, pos + 1) {
                SpecLine::More => SpecDec::More,
                SpecLine::Bad => SpecDec::Fail(ProtocolError::BadTerminator),
                SpecLine::Ready(line, end) => match parse_double(line) {
                    Option::None => SpecDec::Fail(ProtocolError::BadNumber),
                    Option::Some(d) => SpecDec::Done(FrameV::Double(d), (end - pos) as nat),
                },
            }
        } else if tag == 40 {  // '('
            match spec_line(w, pos + 1) {
                SpecLine::More => SpecDec::More,
                SpecLine::Bad => SpecDec::Fail(ProtocolError::BadTerminator),
                SpecLine::Ready(line, end) => match parse_signed(
                    line,
                    i128::MIN as int,
                    i128::MAX as int,
                ) {
                    Option::None => SpecDec::Fail(ProtocolError::BadNumber),
                    Option::Some(v) => SpecDec::Done(
                        FrameV::BigNumber(v as i128),
                        (end - pos) as nat,
                    ),
                },
            }
        } else if tag == 95 {  // '_'
            match spec_line(w, pos + 1) {
                SpecLine::More => SpecDec::More,
                SpecLine::Bad => SpecDec::Fail(ProtocolError::BadTerminator),
                SpecLine::Ready(line, end) => if line.len() == 0 {
                    SpecDec::Done(FrameV::Nil, (end - pos) as nat)
                } else {
                    SpecDec::Fail(ProtocolError::BadPayload)
                },
            }
        } else if tag == 36 {  // '$'
            match spec_line(w, pos + 1) {
                SpecLine::More => SpecDec::More,
                SpecLine::Bad => SpecDec::Fail(ProtocolError::BadTerminator),
                SpecLine::Ready(line, end) => match parse_header(line) {
                    HeaderV::NilHeader => SpecDec::Done(
                        FrameV::NullBulkString,
                        (end - pos) as nat,
                    ),
                    HeaderV::BadHeader => SpecDec::Fail(ProtocolError::BadLength),
                    HeaderV::Count(n) => if n > max {
                        SpecDec::Fail(ProtocolError::Oversize)
                    } else if w.len() < end + n + 2 {
                        SpecDec::More
                    } else if w[end + n] == 13 && w[end + n + 1] == 10 {
                        SpecDec::Done(
                            FrameV::BulkString(w.subrange(end, end + n)),
                            (end + n + 2 - pos) as nat,
                        )
                    } else {
                        SpecDec::Fail(ProtocolError::BadTerminator)
                    },
                },
            }
        } else if tag == 33 {  // '!'
            match spec_line(w, pos + 1) {
                SpecLine::More => SpecDec::More,
                SpecLine::Bad => SpecDec::Fail(ProtocolError::BadTerminator),
                SpecLine::Ready(line, end) => match parse_header(line) {
                    HeaderV::NilHeader => SpecDec::Done(
                        FrameV::BulkErrors(Option::None),
                        (end - pos) as nat,
                    ),
                    HeaderV::BadHeader => SpecDec::Fail(ProtocolError::BadLength),
                    HeaderV::Count(n) => if n > max {
                        SpecDec::Fail(ProtocolError::Oversize)
                    } else if w.len() < end + n + 2 {
                        SpecDec::More
                    } else if w[end + n] == 13 && w[end + n + 1] == 10 {
                        SpecDec::Done(
                            FrameV::BulkErrors(Option::Some(w.subrange(end, end + n))),
                            (end + n + 2 - pos) as nat,
                        )
                    } else {
                        SpecDec::Fail(ProtocolError::BadTerminator)
                    },
                },
            }
        } else if tag == 42 {  // '*'
            match spec_line(w, pos + 1) {
                SpecLine::More => SpecDec::More,
                SpecLine::Bad => SpecDec::Fail(ProtocolError::BadTerminator),
                SpecLine::Ready(line, end) => match parse_header(line) {
                    HeaderV::NilHeader => SpecDec::Done(FrameV::ArrayNil, (end - pos) as nat),
                    HeaderV::BadHeader => SpecDec::Fail(ProtocolError::BadLength),
                    HeaderV::Count(n) => if n > max {
                        SpecDec::Fail(ProtocolError::Oversize)
                    } else {
                        match dec_elems(w, end, max, n) {
                            SpecDec::More => SpecDec::More,
                            SpecDec::Fail(e) => SpecDec::Fail(e),
                            SpecDec::Done(es, used) => SpecDec::Done(
                                FrameV::BulkResp(es),
                                (end - pos + used) as nat,
                            ),
                        }
                    },
                },
            }
        } else if tag == 37 {  // '%'
            match spec_line(w, pos + 1) {
                SpecLine::More => SpecDec::More,
                SpecLine::Bad => SpecDec::Fail(ProtocolError::BadTerminator),
                SpecLine::Ready(line, end) => match parse_header(line) {
                    HeaderV::NilHeader => SpecDec::Fail(ProtocolError::BadLength),
                    HeaderV::BadHeader => SpecDec::Fail(ProtocolError::BadLength),
                    HeaderV::Count(n) => if n > max {
                        SpecDec::Fail(ProtocolError::Oversize)
                    } else {
                        match dec_entries(w, end, max, n) {
                            SpecDec::More => SpecDec::More,
                            SpecDec::Fail(e) => SpecDec::Fail(e),
                            SpecDec::Done(es, used) => SpecDec::Done(
                                FrameV::RespMap(es),
                                (end - pos + used) as nat,
                            ),
                        }
                    },
                },
            }
        } else if tag == 126 {  // '~'
            match spec_line(w, pos + 1) {
                SpecLine::More => SpecDec::More,
                SpecLine::Bad => SpecDec::Fail(ProtocolError::BadTerminator),
                SpecLine::Ready(line, end) => match parse_header(line) {
                    HeaderV::NilHeader => SpecDec::Fail(ProtocolError::BadLength),
                    HeaderV::BadHeader => SpecDec::Fail(ProtocolError::BadLength),
                    HeaderV::Count(n) => if n > max {
                        SpecDec::Fail(ProtocolError::Oversize)
                    } else {
                        match dec_elems(w, end, max, n) {
                            SpecDec::More => SpecDec::More,
                            SpecDec::Fail(e) => SpecDec::Fail(e),
                            SpecDec::Done(es, used) => SpecDec::Done(
                                FrameV::RespSet(es),
                                (end - pos + used) as nat,
                            ),
                        }
                    },
                },
            }
        } else {
            SpecDec::Fail(ProtocolError::UnknownTag)
        }
    }
}

#[via_fn]
proof fn dec_frame_dec(w: Seq<u8>, pos: int, max: nat) {
    if 0 <= pos && pos + 1 <= w.len() {
        lemma_spec_line(w, pos + 1);
    }
}

/// Decodes `n` frames in a row starting at `pos`.
pub open spec fn dec_elems(w: Seq<u8>, pos: int, max: nat, n: nat) -> SpecDec<Seq<FrameV>>
    decreases w.len() - pos, 1nat, n,
{
    if n == 0 {
        SpecDec::Done(Seq::empty(), 0)
    } else {
        match dec_frame(w, pos, max) {
            SpecDec::More => SpecDec::More,
            SpecDec::Fail(e) => SpecDec::Fail(e),
            SpecDec::Done(f, u) => if pos + u > w.len() {
                SpecDec::Fail(ProtocolError::BadPayload)
            } else {
                match dec_elems(w, pos + u, max, (n - 1) as nat) {
                    SpecDec::More => SpecDec::More,
                    SpecDec::Fail(e) => SpecDec::Fail(e),
                    SpecDec::Done(fs, u2) => SpecDec::Done(seq![f] + fs, (u + u2) as nat),
                }
            },
        }
    }
}

/// Decodes `n` key-value entries in a row starting at `pos`; each key must
/// be a simple string frame.
pub open spec fn dec_entries(w: Seq<u8>, pos: int, max: nat, n: nat) -> SpecDec<
    Seq<(Seq<u8>, FrameV)>,
>
    decreases w.len() - pos, 1nat, n,
{
    if n == 0 {
        SpecDec::Done(Seq::empty(), 0)
    } else {
        match dec_frame(w, pos, max) {
            SpecDec::More => SpecDec::More,
            SpecDec::Fail(e) => SpecDec::Fail(e),
            SpecDec::Done(kf, ku) => match kf {
                FrameV::SimpleString(k) => if pos + ku > w.len() {
                    SpecDec::Fail(ProtocolError::BadPayload)
                } else {
                    match dec_frame(w, pos + ku, max) {
                        SpecDec::More => SpecDec::More,
                        SpecDec::Fail(e) => SpecDec::Fail(e),
                        SpecDec::Done(vf, vu) => if pos + ku + vu > w.len() {
                            SpecDec::Fail(ProtocolError::BadPayload)
                        } else {
                            match dec_entries(w, pos + ku + vu, max, (n - 1) as nat) {
                                SpecDec::More => SpecDec::More,
                                SpecDec::Fail(e) => SpecDec::Fail(e),
                                SpecDec::Done(es, u2) => SpecDec::Done(
                                    seq![(k, vf)] + es,
                                    (ku + vu + u2) as nat,
                                ),
                            }
                        },
                    }
                },
                _ => SpecDec::Fail(ProtocolError::BadPayload),
            },
        }
    }
}


/// A decoded frame occupies at least three bytes and lies inside the window.
pub proof fn lemma_dec_frame_bounds(w: Seq<u8>, pos: int, max: nat)
    requires
        0 <= pos <= w.len(),
    ensures
        dec_frame(w, pos, max) matches SpecDec::Done(f, u) ==> 3 <= u && pos + u <= w.len(),
    decreases w.len() - pos, 0nat, 0nat,
{
    if pos < w.len() {
        lemma_spec_line(w, pos + 1);
        let tag = w[pos];
        if tag == 42 || tag == 37 || tag == 126 {
            if let SpecLine::Ready(line, end) = spec_line(w, pos + 1) {
                if let HeaderV::Count(n) = parse_header(line) {
                    if n <= max {
                        if tag == 37 {
                            lemma_dec_entries_bounds(w, end, max, n);
                        } else {
                            lemma_dec_elems_bounds(w, end, max, n);
                        }
                    }
                }
            }
        }
    }
}

/// A decoded run of elements lies inside the window and has `n` members.
pub proof fn lemma_dec_elems_bounds(w: Seq<u8>, pos: int, max: nat, n: nat)
    requires
        0 <= pos <= w.len(),
    ensures
        dec_elems(w, pos, max, n) matches SpecDec::Done(fs, u) ==> pos + u <= w.len() && fs.len()
            == n,
    decreases w.len() - pos, 1nat, n,
{
    if n > 0 {
        lemma_dec_frame_bounds(w, pos, max);
        if let SpecDec::Done(f, u) = dec_frame(w, pos, max) {
            if pos + u <= w.len() {
                lemma_dec_elems_bounds(w, pos + u, max, (n - 1) as nat);
            }
        }
    }
}

/// A decoded run of entries lies inside the window and has `n` entries.
pub proof fn lemma_dec_entries_bounds(w: Seq<u8>, pos: int, max: nat, n: nat)
    requires
        0 <= pos <= w.len(),
    ensures
        dec_entries(w, pos, max, n) matches SpecDec::Done(es, u) ==> pos + u <= w.len()
            && es.len() == n,
    decreases w.len() - pos, 1nat, n,
{
    if n > 0 {
        lemma_dec_frame_bounds(w, pos, max);
        if let SpecDec::Done(kf, ku) = dec_frame(w, pos, max) {
            if kf is SimpleString && pos + ku <= w.len() {
                lemma_dec_frame_bounds(w, pos + ku, max);
                if let SpecDec::Done(vf, vu) = dec_frame(w, pos + ku, max) {
                    if pos + ku + vu <= w.len() {
                        lemma_dec_entries_bounds(w, pos + ku + vu, max, (n - 1) as nat);
                    }
                }
            }
        }
    }
}

/// Every frame the decoder hands out is well formed: line payloads hold no
/// terminator byte and finite double tokens have the token shape.
pub proof fn lemma_dec_frame_wf(w: Seq<u8>, pos: int, max: nat)
    requires
        0 <= pos <= w.len(),
    ensures
        dec_frame(w, pos, max) matches SpecDec::Done(f, u) ==> crate::frame::frame_wf(f),
    decreases w.len() - pos, 0nat, 0nat,
{
    if pos < w.len() {
        lemma_spec_line(w, pos + 1);
        let tag = w[pos];
        if tag == 42 || tag == 126 {
            if let SpecLine::Ready(line, end) = spec_line(w, pos + 1) {
                if let HeaderV::Count(n) = parse_header(line) {
                    if n <= max {
                        lemma_dec_elems_wf(w, end, max, n);
                    }
                }
            }
        }
        if tag == 37 {
            if let SpecLine::Ready(line, end) = spec_line(w, pos + 1) {
                if let HeaderV::Count(n) = parse_header(line) {
                    if n <= max {
                        lemma_dec_entries_wf(w, end, max, n);
                    }
                }
            }
        }
    }
}

/// Every element of a decoded run is well formed.
pub proof fn lemma_dec_elems_wf(w: Seq<u8>, pos: int, max: nat, n: nat)
    requires
        0 <= pos <= w.len(),
    ensures
        dec_elems(w, pos, max, n) matches SpecDec::Done(fs, u) ==> forall|i: int|
            0 <= i < fs.len() ==> crate::frame::frame_wf(#[trigger] fs[i]),
    decreases w.len() - pos, 1nat, n,
{
    if n > 0 {
        lemma_dec_frame_wf(w, pos, max);
        if let SpecDec::Done(f, u) = dec_frame(w, pos, max) {
            if pos + u <= w.len() {
                lemma_dec_elems_wf(w, pos + u, max, (n - 1) as nat);
                if let SpecDec::Done(fs, u2) = dec_elems(w, pos + u, max, (n - 1) as nat) {
                    assert(forall|i: int|
                        0 <= i < fs.len() ==> (seq![f] + fs)[i + 1] == #[trigger] fs[i]);
                }
            }
        }
    }
}

/// Every entry of a decoded run has a terminator-free key and a well-formed
/// value.
pub proof fn lemma_dec_entries_wf(w: Seq<u8>, pos: int, max: nat, n: nat)
    requires
        0 <= pos <= w.len(),
    ensures
        dec_entries(w, pos, max, n) matches SpecDec::Done(es, u) ==> forall|i: int|
            0 <= i < es.len() ==> crate::frame::line_ok((#[trigger] es[i]).0)
                && crate::frame::frame_wf(es[i].1),
    decreases w.len() - pos, 1nat, n,
{
    if n > 0 {
        lemma_dec_frame_wf(w, pos, max);
        lemma_dec_frame_bounds(w, pos, max);
        if let SpecDec::Done(kf, ku) = dec_frame(w, pos, max) {
            if kf is SimpleString && pos + ku <= w.len() {
                lemma_dec_frame_wf(w, pos + ku, max);
                if let SpecDec::Done(vf, vu) = dec_frame(w, pos + ku, max) {
                    if pos + ku + vu <= w.len() {
                        lemma_dec_entries_wf(w, pos + ku + vu, max, (n - 1) as nat);
                        let k = kf->SimpleString_0;
                        if let SpecDec::Done(es, u2) = dec_entries(
                            w,
                            pos + ku + vu,
                            max,
                            (n - 1) as nat,
                        ) {
                            assert(forall|i: int|
                                0 <= i < es.len() ==> (seq![(k, vf)] + es)[i + 1] == #[trigger] es[i]);
                        }
                    }
                }
            }
        }
    }
}

/// The outcome of one decoding attempt: a frame with the count of bytes it
/// occupied, a request for more input, or a protocol violation.
#[derive(Debug, PartialEq, Eq)]
pub enum DecodeOutcome {
    Decoded(RespFrame, usize),
    Incomplete,
    Error(ProtocolError),
}

impl View for DecodeOutcome {
    type V = SpecDec<FrameV>;

    open spec fn view(&self) -> SpecDec<FrameV> {
        match self {
            DecodeOutcome::Decoded(f, n) => SpecDec::Done(frame_view(*f), *n as nat),
            DecodeOutcome::Incomplete => SpecDec::More,
            DecodeOutcome::Error(e) => SpecDec::Fail(*e),
        }
    }
}

/// Copies `buf[from..to]` into a fresh vector.
pub fn copy_range(buf: &[u8], from: usize, to: usize) -> (r: Vec<u8>)
    requires
        from <= to <= buf@.len(),
    ensures
        r@ == buf@.subrange(from as int, to as int),
{
    let mut out: Vec<u8> = Vec::new();
    let mut j: usize = from;
    while j < to
        invariant
            from <= j <= to <= buf@.len(),
            out@ == buf@.subrange(from as int, j as int),
        decreases to - j,
    {
        out.push(buf[j]);
        proof {
            assert(buf@.subrange(from as int, j + 1) =~= buf@.subrange(from as int, j as int)
                + seq![buf@[j as int]]);
        }
        j = j + 1;
    }
    out
}

/// Finds the first CR at or after `from`.
fn find_cr_exec(buf: &[u8], from: usize) -> (r: Option<usize>)
    requires
        from <= buf@.len(),
    ensures
        match r {
            Option::Some(i) => from <= i < buf@.len() && find_cr(buf@, from as int)
                == Option::Some(i as int),
            Option::None => find_cr(buf@, from as int) is None,
        },
{
    let mut j: usize = from;
    while j < buf.len()
        invariant
            from <= j <= buf@.len(),
            forall|k: int| from <= k < j ==> buf@[k] != 13,
        decreases buf@.len() - j,
    {
        if buf[j] == 13 {
            proof {
                lemma_find_cr_skip(buf@, from as int, j as int);
            }
            return Option::Some(j);
        }
        j = j + 1;
    }
    proof {
        lemma_find_cr_skip(buf@, from as int, j as int);
    }
    Option::None
}

/// A line scan: the index just past CRLF, a request for more input, or a
/// CR without LF.
pub enum LineHit {
    Ready(usize),
    More,
    Bad,
}

/// Scans for the line terminator from `from` on.
fn scan_line(buf: &[u8], from: usize) -> (r: LineHit)
    requires
        from <= buf@.len(),
    ensures
        match r {
            LineHit::Ready(end) => from + 2 <= end <= buf@.len() && spec_line(buf@, from as int)
                == SpecLine::Ready(buf@.subrange(from as int, end - 2), end as int),
            LineHit::More => spec_line(buf@, from as int) is More,
            LineHit::Bad => spec_line(buf@, from as int) is Bad,
        },
{
    match find_cr_exec(buf, from) {
        Option::None => LineHit::More,
        Option::Some(i) => {
            if i >= buf.len() - 1 {
                LineHit::More
            } else if buf[i + 1] != 10 {
                LineHit::Bad
            } else {
                LineHit::Ready(i + 2)
            }
        },
    }
}

/// Checks that `buf[from..to]` holds no LF.
fn check_no_lf(buf: &[u8], from: usize, to: usize) -> (r: bool)
    requires
        from <= to <= buf@.len(),
    ensures
        r == no_lf(buf@.subrange(from as int, to as int)),
{
    let ghost s = buf@.subrange(from as int, to as int);
    let mut j: usize = from;
    while j < to
        invariant
            from <= j <= to <= buf@.len(),
            s == buf@.subrange(from as int, to as int),
            forall|i: int| 0 <= i < j - from ==> s[i] != 10u8,
        decreases to - j,
    {
        proof {
            assert(s[j - from] == buf@[j as int]);
        }
        if buf[j] == 10 {
            return false;
        }
        j = j + 1;
    }
    true
}

/// Checks the finite-token shape of `buf[from..to]`.
fn check_token_range(buf: &[u8], from: usize, to: usize) -> (r: bool)
    requires
        from <= to <= buf@.len(),
    ensures
        r == token_wf(buf@.subrange(from as int, to as int)),
{
    let ghost s = buf@.subrange(from as int, to as int);
    if to - from < 2 {
        return false;
    }
    proof {
        assert(s[0] == buf@[from as int]);
        assert(s[1] == buf@[from + 1]);
    }
    if !(buf[from] == 43 || buf[from] == 45) {
        return false;
    }
    let second = buf[from + 1];
    if !(48 <= second && second <= 57) {
        return false;
    }
    let mut j: usize = from;
    while j < to
        invariant
            from <= j <= to <= buf@.len(),
            s == buf@.subrange(from as int, to as int),
            forall|i: int| 0 <= i < j - from ==> crate::frame::token_byte_ok(#[trigger] s[i]),
        decreases to - j,
    {
        proof {
            assert(s[j - from] == buf@[j as int]);
        }
        let b = buf[j];
        if !((48 <= b && b <= 57) || b == 46 || b == 101 || b == 69 || b == 43 || b == 45) {
            return false;
        }
        j = j + 1;
    }
    true
}

/// Parses a signed integer line within the i64 range.
fn parse_i64_line(buf: &[u8], a: usize, b: usize) -> (r: Option<i64>)
    requires
        a <= b <= buf@.len(),
    ensures
        match r {
            Option::Some(v) => parse_signed(
                buf@.subrange(a as int, b as int),
                i64::MIN as int,
                i64::MAX as int,
            ) == Option::Some(v as int),
            Option::None => parse_signed(
                buf@.subrange(a as int, b as int),
                i64::MIN as int,
                i64::MAX as int,
            ) is None,
        },
{
    let ghost sub = buf@.subrange(a as int, b as int);
    if b - a < 2 {
        return Option::None;
    }
    proof {
        assert(sub[0] == buf@[a as int]);
        assert(sub.drop_first() =~= buf@.subrange(a + 1, b as int));
    }
    let sign = buf[a];
    if !(sign == 43 || sign == 45) {
        return Option::None;
    }
    let ad = check_all_digits(buf, a + 1, b);
    if !ad {
        return Option::None;
    }
    proof {
        assert(sub.drop_first()[0] == buf@[a + 1]);
    }
    if !(b - a == 2 || buf[a + 1] != 48) {
        return Option::None;
    }
    let bound: u128 = if sign == 45 {
        9223372036854775808u128
    } else {
        9223372036854775807u128
    };
    match parse_digits_bounded(buf, a + 1, b, bound) {
        Option::None => Option::None,
        Option::Some(mag) => {
            if sign == 45 {
                if mag == 0 {
                    return Option::None;
                }
                if mag == 9223372036854775808u128 {
                    Option::Some(i64::MIN)
                } else {
                    Option::Some(-(mag as i64))
                }
            } else {
                Option::Some(mag as i64)
            }
        },
    }
}

/// Parses a signed integer line within the i128 range.
fn parse_i128_line(buf: &[u8], a: usize, b: usize) -> (r: Option<i128>)
    requires
        a <= b <= buf@.len(),
    ensures
        match r {
            Option::Some(v) => parse_signed(
                buf@.subrange(a as int, b as int),
                i128::MIN as int,
                i128::MAX as int,
            ) == Option::Some(v as int),
            Option::None => parse_signed(
                buf@.subrange(a as int, b as int),
                i128::MIN as int,
                i128::MAX as int,
            ) is None,
        },
{
    let ghost sub = buf@.subrange(a as int, b as int);
    if b - a < 2 {
        return Option::None;
    }
    proof {
        assert(sub[0] == buf@[a as int]);
        assert(sub.drop_first() =~= buf@.subrange(a + 1, b as int));
    }
    let sign = buf[a];
    if !(sign == 43 || sign == 45) {
        return Option::None;
    }
    let ad = check_all_digits(buf, a + 1, b);
    if !ad {
        return Option::None;
    }
    proof {
        assert(sub.drop_first()[0] == buf@[a + 1]);
    }
    if !(b - a == 2 || buf[a + 1] != 48) {
        return Option::None;
    }
    let bound: u128 = if sign == 45 {
        170141183460469231731687303715884105728u128
    } else {
        170141183460469231731687303715884105727u128
    };
    match parse_digits_bounded(buf, a + 1, b, bound) {
        Option::None => Option::None,
        Option::Some(mag) => {
            if sign == 45 {
                if mag == 0 {
                    return Option::None;
                }
                if mag == 170141183460469231731687303715884105728u128 {
                    Option::Some(i128::MIN)
                } else {
                    Option::Some(-(mag as i128))
                }
            } else {
                Option::Some(mag as i128)
            }
        },
    }
}

/// A parsed header: the nil sentinel, a count within the bound, a count
/// over the bound, or no header at all.
pub enum HeaderHit {
    NilHdr,
    Count(usize),
    Over,
    BadHdr,
}

/// Parses a length or count header line against the bound `max`.
fn parse_header_line(buf: &[u8], a: usize, b: usize, max: usize) -> (r: HeaderHit)
    requires
        a <= b <= buf@.len(),
    ensures
        match r {
            HeaderHit::NilHdr => parse_header(buf@.subrange(a as int, b as int))
                is NilHeader,
            HeaderHit::BadHdr => parse_header(buf@.subrange(a as int, b as int))
                is BadHeader,
            HeaderHit::Over => parse_header(buf@.subrange(a as int, b as int)) matches
                HeaderV::Count(n) && n > max as nat,
            HeaderHit::Count(c) => parse_header(buf@.subrange(a as int, b as int))
                == HeaderV::Count(c as nat) && c <= max,
        },
{
    let ghost sub = buf@.subrange(a as int, b as int);
    let is_nil = b - a == 2 && buf[a] == 45 && buf[a + 1] == 49;
    proof {
        if is_nil {
            assert(sub =~= seq![45u8, 49u8]);
        } else if sub == seq![45u8, 49u8] {
            assert(sub.len() == 2);
            assert(sub[0] == buf@[a as int]);
            assert(sub[1] == buf@[a + 1]);
        }
    }
    if is_nil {
        return HeaderHit::NilHdr;
    }
    if b - a < 1 {
        return HeaderHit::BadHdr;
    }
    let ad = check_all_digits(buf, a, b);
    if !ad {
        return HeaderHit::BadHdr;
    }
    proof {
        assert(sub[0] == buf@[a as int]);
    }
    if !(b - a == 1 || buf[a] != 48) {
        return HeaderHit::BadHdr;
    }
    match parse_digits_bounded(buf, a, b, max as u128) {
        Option::None => HeaderHit::Over,
        Option::Some(v) => HeaderHit::Count(v as usize),
    }
}

/// Parses a double line.
fn parse_double_line(buf: &[u8], a: usize, b: usize) -> (r: Option<Double>)
    requires
        a <= b <= buf@.len(),
    ensures
        match r {
            Option::Some(d) => parse_double(buf@.subrange(a as int, b as int)) == Option::Some(
                d@,
            ),
            Option::None => parse_double(buf@.subrange(a as int, b as int)) is None,
        },
{
    let ghost sub = buf@.subrange(a as int, b as int);
    let n = b - a;
    let is_nan = n == 3 && buf[a] == 110 && buf[a + 1] == 97 && buf[a + 2] == 110;
    proof {
        if is_nan {
            assert(sub =~= seq![110u8, 97u8, 110u8]);
        } else if sub == seq![110u8, 97u8, 110u8] {
            assert(sub.len() == 3);
            assert(b - a == 3);
            assert(sub[0] == buf@[a as int]);
            assert(sub[1] == buf@[a + 1]);
            assert(sub[2] == buf@[a + 2]);
        }
    }
    if is_nan {
        return Option::Some(Double::Nan);
    }
    let is_pinf = n == 4 && buf[a] == 43 && buf[a + 1] == 105 && buf[a + 2] == 110 && buf[a + 3]
        == 102;
    proof {
        if is_pinf {
            assert(sub =~= seq![43u8, 105u8, 110u8, 102u8]);
        } else if sub == seq![43u8, 105u8, 110u8, 102u8] {
            assert(sub.len() == 4);
            assert(b - a == 4);
            assert(sub[0] == buf@[a as int]);
            assert(sub[1] == buf@[a + 1]);
            assert(sub[2] == buf@[a + 2]);
            assert(sub[3] == buf@[a + 3]);
        }
    }
    if is_pinf {
        return Option::Some(Double::PosInf);
    }
    let is_ninf = n == 4 && buf[a] == 45 && buf[a + 1] == 105 && buf[a + 2] == 110 && buf[a + 3]
        == 102;
    proof {
        if is_ninf {
            assert(sub =~= seq![45u8, 105u8, 110u8, 102u8]);
        } else if sub == seq![45u8, 105u8, 110u8, 102u8] {
            assert(sub.len() == 4);
            assert(b - a == 4);
            assert(sub[0] == buf@[a as int]);
            assert(sub[1] == buf@[a + 1]);
            assert(sub[2] == buf@[a + 2]);
            assert(sub[3] == buf@[a + 3]);
        }
    }
    if is_ninf {
        return Option::Some(Double::NegInf);
    }
    if check_token_range(buf, a, b) {
        let token = copy_range(buf, a, b);
        Option::Some(Double::Finite(token))
    } else {
        Option::None
    }
}


/// The default bound on declared lengths and counts.
pub const MAX_FRAME_BYTES: usize = 1048576;

/// The outcome of decoding a run of elements.
pub enum ElemsHit {
    Done(Vec<RespFrame>, usize),
    More,
    Refused(ProtocolError),
}

/// The outcome of decoding a run of map entries.
pub enum EntriesHit {
    Done(Vec<(SimpleString, RespFrame)>, usize),
    More,
    Refused(ProtocolError),
}

/// Decodes one frame from `buf` at `pos` under the size bound `max`. The
/// result is exactly what the spec-level decoder says of this window, so
/// calling again on the same window returns the same outcome.
#[verifier::rlimit(80)]
pub fn decode_at(buf: &[u8], pos: usize, max: usize) -> (r: DecodeOutcome)
    requires
        pos <= buf@.len(),
    ensures
        r@ == dec_frame(buf@, pos as int, max as nat),
    decreases buf@.len() - pos, 1nat,
{
    if pos >= buf.len() {
        return DecodeOutcome::Incomplete;
    }
    proof {
        lemma_spec_line(buf@, pos + 1);
    }
    let tag = buf[pos];
    if tag == 43 || tag == 45 {
        match scan_line(buf, pos + 1) {
            LineHit::More => DecodeOutcome::Incomplete,
            LineHit::Bad => DecodeOutcome::Error(ProtocolError::BadTerminator),
            LineHit::Ready(end) => {
                if check_no_lf(buf, pos + 1, end - 2) {
                    let payload = copy_range(buf, pos + 1, end - 2);
                    if tag == 43 {
                        DecodeOutcome::Decoded(
                            RespFrame::SimpleString(SimpleString(payload)),
                            end - pos,
                        )
                    } else {
                        DecodeOutcome::Decoded(
                            RespFrame::SimpleError(SimpleError(payload)),
                            end - pos,
                        )
                    }
                } else {
                    DecodeOutcome::Error(ProtocolError::BadPayload)
                }
            },
        }
    } else if tag == 58 {
        match scan_line(buf, pos + 1) {
            LineHit::More => DecodeOutcome::Incomplete,
            LineHit::Bad => DecodeOutcome::Error(ProtocolError::BadTerminator),
            LineHit::Ready(end) => match parse_i64_line(buf, pos + 1, end - 2) {
                Option::None => DecodeOutcome::Error(ProtocolError::BadNumber),
                Option::Some(v) => DecodeOutcome::Decoded(RespFrame::Integer(v), end - pos),
            },
        }
    } else if tag == 35 {
        match scan_line(buf, pos + 1) {
            LineHit::More => DecodeOutcome::Incomplete,
            LineHit::Bad => DecodeOutcome::Error(ProtocolError::BadTerminator),
            LineHit::Ready(end) => {
                let ghost line = buf@.subrange(pos + 1, end - 2);
                let is_t = end - pos == 4 && buf[pos + 1] == 116;
                let is_f = end - pos == 4 && buf[pos + 1] == 102;
                proof {
                    if is_t {
                        assert(line =~= seq![116u8]);
                    } else if line == seq![116u8] {
                        assert(line.len() == 1);
                        assert(line[0] == buf@[pos + 1]);
                    }
                    if is_f {
                        assert(line =~= seq![102u8]);
                    } else if line == seq![102u8] {
                        assert(line.len() == 1);
                        assert(line[0] == buf@[pos + 1]);
                    }
                }
                if is_t {
                    DecodeOutcome::Decoded(RespFrame::Boolean(true), end - pos)
                } else if is_f {
                    DecodeOutcome::Decoded(RespFrame::Boolean(false), end - pos)
                } else {
                    DecodeOutcome::Error(ProtocolError::BadPayload)
                }
            },
        }
    } else if tag == 44 {
        match scan_line(buf, pos + 1) {
            LineHit::More => DecodeOutcome::Incomplete,
            LineHit::Bad => DecodeOutcome::Error(ProtocolError::BadTerminator),
            LineHit::Ready(end) => match parse_double_line(buf, pos + 1, end - 2) {
                Option::None => DecodeOutcome::Error(ProtocolError::BadNumber),
                Option::Some(d) => DecodeOutcome::Decoded(RespFrame::Double(d), end - pos),
            },
        }
    } else if tag == 40 {
        match scan_line(buf, pos + 1) {
            LineHit::More => DecodeOutcome::Incomplete,
            LineHit::Bad => DecodeOutcome::Error(ProtocolError::BadTerminator),
            LineHit::Ready(end) => match parse_i128_line(buf, pos + 1, end - 2) {
                Option::None => DecodeOutcome::Error(ProtocolError::BadNumber),
                Option::Some(v) => DecodeOutcome::Decoded(RespFrame::BigNumber(v), end - pos),
            },
        }
    } else if tag == 95 {
        match scan_line(buf, pos + 1) {
            LineHit::More => DecodeOutcome::Incomplete,
            LineHit::Bad => DecodeOutcome::Error(ProtocolError::BadTerminator),
            LineHit::Ready(end) => {
                if end - pos == 3 {
                    DecodeOutcome::Decoded(RespFrame::Nil(Null), end - pos)
                } else {
                    DecodeOutcome::Error(ProtocolError::BadPayload)
                }
            },
        }
    } else if tag == 36 {
        decode_bulk_string(buf, pos, max)
    } else if tag == 33 {
        decode_bulk_errors(buf, pos, max)
    } else if tag == 42 {
        decode_array(buf, pos, max)
    } else if tag == 37 {
        decode_map(buf, pos, max)
    } else if tag == 126 {
        decode_set(buf, pos, max)
    } else {
        DecodeOutcome::Error(ProtocolError::UnknownTag)
    }
}

/// Decodes a bulk string frame; `buf[pos]` is its tag.
#[verifier::rlimit(80)]
fn decode_bulk_string(buf: &[u8], pos: usize, max: usize) -> (r: DecodeOutcome)
    requires
        pos < buf@.len(),
        buf@[pos as int] == 36,
    ensures
        r@ == dec_frame(buf@, pos as int, max as nat),
    decreases buf@.len() - pos, 0nat,
{
    let total = buf.len();
    proof {
        lemma_spec_line(buf@, pos + 1);
    }
    match scan_line(buf, pos + 1) {
        LineHit::More => DecodeOutcome::Incomplete,
        LineHit::Bad => DecodeOutcome::Error(ProtocolError::BadTerminator),
        LineHit::Ready(end) => match parse_header_line(buf, pos + 1, end - 2, max) {
            HeaderHit::NilHdr => DecodeOutcome::Decoded(
                RespFrame::NullBulkString(NullBulkString),
                end - pos,
            ),
            HeaderHit::BadHdr => DecodeOutcome::Error(ProtocolError::BadLength),
            HeaderHit::Over => DecodeOutcome::Error(ProtocolError::Oversize),
            HeaderHit::Count(n) => {
                let avail = buf.len() - end;
                if avail < 2 || n > avail - 2 {
                    DecodeOutcome::Incomplete
                } else if buf[end + n] == 13 && buf[end + n + 1] == 10 {
                    let payload = copy_range(buf, end, end + n);
                    DecodeOutcome::Decoded(
                        RespFrame::BulkString(BulkString(payload)),
                        end + n + 2 - pos,
                    )
                } else {
                    DecodeOutcome::Error(ProtocolError::BadTerminator)
                }
            },
        },
    }
}

/// Decodes a bulk error frame; `buf[pos]` is its tag.
#[verifier::rlimit(80)]
fn decode_bulk_errors(buf: &[u8], pos: usize, max: usize) -> (r: DecodeOutcome)
    requires
        pos < buf@.len(),
        buf@[pos as int] == 33,
    ensures
        r@ == dec_frame(buf@, pos as int, max as nat),
    decreases buf@.len() - pos, 0nat,
{
    let total = buf.len();
    proof {
        lemma_spec_line(buf@, pos + 1);
    }
    match scan_line(buf, pos + 1) {
        LineHit::More => DecodeOutcome::Incomplete,
        LineHit::Bad => DecodeOutcome::Error(ProtocolError::BadTerminator),
        LineHit::Ready(end) => match parse_header_line(buf, pos + 1, end - 2, max) {
            HeaderHit::NilHdr => DecodeOutcome::Decoded(
                RespFrame::BulkErrors(Option::None),
                end - pos,
            ),
            HeaderHit::BadHdr => DecodeOutcome::Error(ProtocolError::BadLength),
            HeaderHit::Over => DecodeOutcome::Error(ProtocolError::Oversize),
            HeaderHit::Count(n) => {
                let avail = buf.len() - end;
                if avail < 2 || n > avail - 2 {
                    DecodeOutcome::Incomplete
                } else if buf[end + n] == 13 && buf[end + n + 1] == 10 {
                    let payload = copy_range(buf, end, end + n);
                    DecodeOutcome::Decoded(
                        RespFrame::BulkErrors(Option::Some(payload)),
                        end + n + 2 - pos,
                    )
                } else {
                    DecodeOutcome::Error(ProtocolError::BadTerminator)
                }
            },
        },
    }
}

/// Decodes an array frame; `buf[pos]` is its tag.
#[verifier::rlimit(80)]
fn decode_array(buf: &[u8], pos: usize, max: usize) -> (r: DecodeOutcome)
    requires
        pos < buf@.len(),
        buf@[pos as int] == 42,
    ensures
        r@ == dec_frame(buf@, pos as int, max as nat),
    decreases buf@.len() - pos, 0nat,
{
    let total = buf.len();
    proof {
        lemma_spec_line(buf@, pos + 1);
    }
    match scan_line(buf, pos + 1) {
        LineHit::More => DecodeOutcome::Incomplete,
        LineHit::Bad => DecodeOutcome::Error(ProtocolError::BadTerminator),
        LineHit::Ready(end) => match parse_header_line(buf, pos + 1, end - 2, max) {
            HeaderHit::NilHdr => DecodeOutcome::Decoded(RespFrame::ArrayNil(ArrayNil), end - pos),
            HeaderHit::BadHdr => DecodeOutcome::Error(ProtocolError::BadLength),
            HeaderHit::Over => DecodeOutcome::Error(ProtocolError::Oversize),
            HeaderHit::Count(n) => match decode_elems(buf, end, max, n) {
                ElemsHit::More => DecodeOutcome::Incomplete,
                ElemsHit::Refused(e) => DecodeOutcome::Error(e),
                ElemsHit::Done(v, used) => DecodeOutcome::Decoded(
                    RespFrame::BulkResp(Arrays(v)),
                    (end - pos) + used,
                ),
            },
        },
    }
}

/// Decodes a map frame; `buf[pos]` is its tag.
#[verifier::rlimit(80)]
fn decode_map(buf: &[u8], pos: usize, max: usize) -> (r: DecodeOutcome)
    requires
        pos < buf@.len(),
        buf@[pos as int] == 37,
    ensures
        r@ == dec_frame(buf@, pos as int, max as nat),
    decreases buf@.len() - pos, 0nat,
{
    let total = buf.len();
    proof {
        lemma_spec_line(buf@, pos + 1);
    }
    match scan_line(buf, pos + 1) {
        LineHit::More => DecodeOutcome::Incomplete,
        LineHit::Bad => DecodeOutcome::Error(ProtocolError::BadTerminator),
        LineHit::Ready(end) => match parse_header_line(buf, pos + 1, end - 2, max) {
            HeaderHit::NilHdr => DecodeOutcome::Error(ProtocolError::BadLength),
            HeaderHit::BadHdr => DecodeOutcome::Error(ProtocolError::BadLength),
            HeaderHit::Over => DecodeOutcome::Error(ProtocolError::Oversize),
            HeaderHit::Count(n) => match decode_map_entries(buf, end, max, n) {
                EntriesHit::More => DecodeOutcome::Incomplete,
                EntriesHit::Refused(e) => DecodeOutcome::Error(e),
                EntriesHit::Done(v, used) => DecodeOutcome::Decoded(
                    RespFrame::RespMap(RespMap(v)),
                    (end - pos) + used,
                ),
            },
        },
    }
}

/// Decodes a set frame; `buf[pos]` is its tag.
#[verifier::rlimit(80)]
fn decode_set(buf: &[u8], pos: usize, max: usize) -> (r: DecodeOutcome)
    requires
        pos < buf@.len(),
        buf@[pos as int] == 126,
    ensures
        r@ == dec_frame(buf@, pos as int, max as nat),
    decreases buf@.len() - pos, 0nat,
{
    let total = buf.len();
    proof {
        lemma_spec_line(buf@, pos + 1);
    }
    match scan_line(buf, pos + 1) {
        LineHit::More => DecodeOutcome::Incomplete,
        LineHit::Bad => DecodeOutcome::Error(ProtocolError::BadTerminator),
        LineHit::Ready(end) => match parse_header_line(buf, pos + 1, end - 2, max) {
            HeaderHit::NilHdr => DecodeOutcome::Error(ProtocolError::BadLength),
            HeaderHit::BadHdr => DecodeOutcome::Error(ProtocolError::BadLength),
            HeaderHit::Over => DecodeOutcome::Error(ProtocolError::Oversize),
            HeaderHit::Count(n) => match decode_elems(buf, end, max, n) {
                ElemsHit::More => DecodeOutcome::Incomplete,
                ElemsHit::Refused(e) => DecodeOutcome::Error(e),
                ElemsHit::Done(v, used) => DecodeOutcome::Decoded(
                    RespFrame::RespSet(RespSet(v)),
                    (end - pos) + used,
                ),
            },
        },
    }
}

/// Decodes `n` frames in a row starting at `base`.
#[verifier::rlimit(80)]
fn decode_elems(buf: &[u8], base: usize, max: usize, n: usize) -> (r: ElemsHit)
    requires
        base <= buf@.len(),
    ensures
        match r {
            ElemsHit::Done(v, used) => dec_elems(buf@, base as int, max as nat, n as nat)
                == SpecDec::Done(frames_view(v@), used as nat) && base + used <= buf@.len(),
            ElemsHit::More => dec_elems(buf@, base as int, max as nat, n as nat) is More,
            ElemsHit::Refused(e) => dec_elems(buf@, base as int, max as nat, n as nat)
                == SpecDec::<Seq<FrameV>>::Fail(e),
        },
    decreases buf@.len() - base, 2nat,
{
    let total = buf.len();
    let ghost m = max as nat;
    let mut elems: Vec<RespFrame> = Vec::new();
    let mut cur: usize = base;
    let mut i: usize = 0;
    while i < n
        invariant
            base <= cur <= buf@.len(),
            buf@.len() == total,
            0 <= i <= n,
            m == max as nat,
            dec_elems(buf@, base as int, m, n as nat) == match dec_elems(
                buf@,
                cur as int,
                m,
                (n - i) as nat,
            ) {
                SpecDec::Done(fs, u2) => SpecDec::Done(
                    frames_view(elems@) + fs,
                    ((cur - base) + u2) as nat,
                ),
                SpecDec::More => SpecDec::More,
                SpecDec::Fail(e) => SpecDec::Fail(e),
            },
        decreases n - i,
    {
        match decode_at(buf, cur, max) {
            DecodeOutcome::Incomplete => {
                return ElemsHit::More;
            },
            DecodeOutcome::Error(e) => {
                return ElemsHit::Refused(e);
            },
            DecodeOutcome::Decoded(f, u) => {
                proof {
                    lemma_dec_frame_bounds(buf@, cur as int, m);
                }
                let ghost pre = elems@;
                let ghost fg = f;
                elems.push(f);
                proof {
                    lemma_frames_view_push(pre, fg);
                    let rest = dec_elems(buf@, cur + u, m, (n - i - 1) as nat);
                    match rest {
                        SpecDec::Done(fs, u2) => {
                            assert(frames_view(pre) + (seq![frame_view(fg)] + fs) =~= frames_view(
                                elems@,
                            ) + fs);
                        },
                        SpecDec::More => {},
                        SpecDec::Fail(e) => {},
                    }
                }
                cur = cur + u;
                i = i + 1;
            },
        }
    }
    proof {
        assert(frames_view(elems@) + Seq::<FrameV>::empty() =~= frames_view(elems@));
    }
    ElemsHit::Done(elems, cur - base)
}

/// Decodes `n` key-value entries in a row starting at `base`.
#[verifier::rlimit(80)]
fn decode_map_entries(buf: &[u8], base: usize, max: usize, n: usize) -> (r: EntriesHit)
    requires
        base <= buf@.len(),
    ensures
        match r {
            EntriesHit::Done(v, used) => dec_entries(buf@, base as int, max as nat, n as nat)
                == SpecDec::Done(entries_view(v@), used as nat) && base + used <= buf@.len(),
            EntriesHit::More => dec_entries(buf@, base as int, max as nat, n as nat) is More,
            EntriesHit::Refused(e) => dec_entries(buf@, base as int, max as nat, n as nat)
                == SpecDec::<Seq<(Seq<u8>, FrameV)>>::Fail(e),
        },
    decreases buf@.len() - base, 2nat,
{
    let total = buf.len();
    let ghost m = max as nat;
    let mut entries: Vec<(SimpleString, RespFrame)> = Vec::new();
    let mut cur: usize = base;
    let mut i: usize = 0;
    while i < n
        invariant
            base <= cur <= buf@.len(),
            buf@.len() == total,
            0 <= i <= n,
            m == max as nat,
            dec_entries(buf@, base as int, m, n as nat) == match dec_entries(
                buf@,
                cur as int,
                m,
                (n - i) as nat,
            ) {
                SpecDec::Done(es, u2) => SpecDec::Done(
                    entries_view(entries@) + es,
                    ((cur - base) + u2) as nat,
                ),
                SpecDec::More => SpecDec::More,
                SpecDec::Fail(e) => SpecDec::Fail(e),
            },
        decreases n - i,
    {
        match decode_at(buf, cur, max) {
            DecodeOutcome::Incomplete => {
                return EntriesHit::More;
            },
            DecodeOutcome::Error(e) => {
                return EntriesHit::Refused(e);
            },
            DecodeOutcome::Decoded(kf, ku) => {
                proof {
                    lemma_dec_frame_bounds(buf@, cur as int, m);
                }
                match kf {
                    RespFrame::SimpleString(ks) => {
                        match decode_at(buf, cur + ku, max) {
                            DecodeOutcome::Incomplete => {
                                return EntriesHit::More;
                            },
                            DecodeOutcome::Error(e) => {
                                return EntriesHit::Refused(e);
                            },
                            DecodeOutcome::Decoded(vf, vu) => {
                                proof {
                                    lemma_dec_frame_bounds(buf@, cur + ku, m);
                                }
                                let ghost pre = entries@;
                                let ghost kg = ks;
                                let ghost vg = vf;
                                entries.push((ks, vf));
                                proof {
                                    lemma_entries_view_push(pre, kg, vg);
                                    let rest = dec_entries(
                                        buf@,
                                        cur + ku + vu,
                                        m,
                                        (n - i - 1) as nat,
                                    );
                                    match rest {
                                        SpecDec::Done(es, u2) => {
                                            assert(entries_view(pre) + (seq![
                                                (kg.0@, frame_view(vg)),
                                            ] + es) =~= entries_view(entries@) + es);
                                        },
                                        SpecDec::More => {},
                                        SpecDec::Fail(e) => {},
                                    }
                                }
                                cur = cur + ku + vu;
                                i = i + 1;
                            },
                        }
                    },
                    _ => {
                        return EntriesHit::Refused(ProtocolError::BadPayload);
                    },
                }
            },
        }
    }
    proof {
        assert(entries_view(entries@) + Seq::<(Seq<u8>, FrameV)>::empty() =~= entries_view(
            entries@,
        ));
    }
    EntriesHit::Done(entries, cur - base)
}

/// Deserialization from the wire form: the outcome is a function of the
/// buffered bytes alone.
pub trait RespDecode: Sized {
    /// What decoding this window must return.
    spec fn dec_spec(buf: Self) -> SpecDec<FrameV>;

    /// Attempts to decode one frame from the front of the window.
    fn decode(buf: Self) -> (r: DecodeOutcome)
        ensures
            r@ == Self::dec_spec(buf),
    ;
}

impl RespDecode for &[u8] {
    open spec fn dec_spec(buf: Self) -> SpecDec<FrameV> {
        dec_frame(buf@, 0, MAX_FRAME_BYTES as nat)
    }

    fn decode(buf: Self) -> (r: DecodeOutcome) {
        decode_at(buf, 0, MAX_FRAME_BYTES)
    }
}

} // verus!
