//! The frame model: the closed set of value types the protocol carries,
//! their mathematical views, and the well-formedness predicate that the
//! encoder's round-trip guarantee is stated over.

use vstd::prelude::*;

verus! {

/// Mathematical model of a double payload. A finite value is carried as its
/// already-formatted decimal token (sign, digits, optional fraction and
/// exponent); the codec treats the token as opaque text, so two frames are
/// equal exactly when their tokens are byte-for-byte equal. In particular a
/// not-a-number double equals another not-a-number double here: the codec
/// compares representations, not IEEE values.
pub enum DoubleV {
    Nan,
    PosInf,
    NegInf,
    Finite(Seq<u8>),
}

/// Mathematical model of a protocol frame. Sequences stand for the byte or
/// element payloads of the executable [`RespFrame`].
pub enum FrameV {
    SimpleString(Seq<u8>),
    SimpleError(Seq<u8>),
    Integer(i64),
    Boolean(bool),
    Double(DoubleV),
    BigNumber(i128),
    NullBulkString,
    Nil,
    ArrayNil,
    BulkString(Seq<u8>),
    BulkErrors(Option<Seq<u8>>),
    BulkResp(Seq<FrameV>),
    RespMap(Seq<(Seq<u8>, FrameV)>),
    RespSet(Seq<FrameV>),
}

/// Simple string: line-delimited text that must not contain CR or LF.
#[derive(Debug, Clone, PartialEq, Eq)]
pub struct SimpleString(pub Vec<u8>);

/// Simple error: an error message under the same CR/LF restriction.
#[derive(Debug, Clone, PartialEq, Eq)]
pub struct SimpleError(pub Vec<u8>);

/// Bulk string: a length-prefixed, binary-safe byte payload.
#[derive(Debug, Clone, PartialEq, Eq)]
pub struct BulkString(pub Vec<u8>);

/// The legacy null bulk string.
#[derive(Debug, Clone, PartialEq, Eq)]
pub struct NullBulkString;

/// The dedicated null frame.
#[derive(Debug, Clone, PartialEq, Eq)]
pub struct Null;

/// The legacy null array.
#[derive(Debug, Clone, PartialEq, Eq)]
pub struct ArrayNil;

/// An ordered sequence of frames; may nest arbitrarily.
#[derive(Debug, PartialEq, Eq)]
pub struct Arrays(pub Vec<RespFrame>);

/// A mapping from text keys to frames; entry order is the encode order.
/// [`RespMap::insert`] keeps keys unique; a value assembled directly from a
/// vector may carry duplicates and is encoded entry by entry as it stands.
#[derive(Debug, PartialEq, Eq)]
pub struct RespMap(pub Vec<(SimpleString, RespFrame)>);

/// A set of frames; [`RespSet::insert`] keeps members unique under
/// structural equality of their views.
#[derive(Debug, PartialEq, Eq)]
pub struct RespSet(pub Vec<RespFrame>);

/// A double payload, held as its formatted decimal token. Construct finite
/// values through [`Double::finite`], which checks the token shape.
#[derive(Debug, Clone, PartialEq, Eq)]
pub enum Double {
    Nan,
    PosInf,
    NegInf,
    Finite(Vec<u8>),
}

/// One unit of protocol data; the tagged union the codec speaks.
#[derive(Debug, PartialEq, Eq)]
pub enum RespFrame {
    SimpleString(SimpleString),
    SimpleError(SimpleError),
    Integer(i64),
    Boolean(bool),
    Double(Double),
    BigNumber(i128),
    NullBulkString(NullBulkString),
    Nil(Null),
    ArrayNil(ArrayNil),
    BulkString(BulkString),
    BulkErrors(Option<Vec<u8>>),
    BulkResp(Arrays),
    RespMap(RespMap),
    RespSet(RespSet),
}

pub open spec fn double_view(d: Double) -> DoubleV {
    match d {
        Double::Nan => DoubleV::Nan,
        Double::PosInf => DoubleV::PosInf,
        Double::NegInf => DoubleV::NegInf,
        Double::Finite(t) => DoubleV::Finite(t@),
    }
}

/// The deep view of a frame: every byte vector becomes a sequence, every
/// child frame is viewed recursively.
pub open spec fn frame_view(f: RespFrame) -> FrameV
    decreases f,
{
    match f {
        RespFrame::SimpleString(s) => FrameV::SimpleString(s.0@),
        RespFrame::SimpleError(s) => FrameV::SimpleError(s.0@),
        RespFrame::Integer(v) => FrameV::Integer(v),
        RespFrame::Boolean(b) => FrameV::Boolean(b),
        RespFrame::Double(d) => FrameV::Double(double_view(d)),
        RespFrame::BigNumber(v) => FrameV::BigNumber(v),
        RespFrame::NullBulkString(_) => FrameV::NullBulkString,
        RespFrame::Nil(_) => FrameV::Nil,
        RespFrame::ArrayNil(_) => FrameV::ArrayNil,
        RespFrame::BulkString(b) => FrameV::BulkString(b.0@),
        RespFrame::BulkErrors(o) => FrameV::BulkErrors(
            match o {
                Option::None => Option::None,
                Option::Some(p) => Option::Some(p@),
            },
        ),
        RespFrame::BulkResp(a) => FrameV::BulkResp(frames_view(a.0@)),
        RespFrame::RespMap(m) => FrameV::RespMap(entries_view(m.0@)),
        RespFrame::RespSet(s) => FrameV::RespSet(frames_view(s.0@)),
    }
}

/// The deep view of a sequence of frames, element by element.
pub open spec fn frames_view(s: Seq<RespFrame>) -> Seq<FrameV>
    decreases s,
{
    if s.len() == 0 {
        Seq::empty()
    } else {
        seq![frame_view(s[0])] + frames_view(s.drop_first())
    }
}

/// The deep view of a sequence of map entries, entry by entry.
pub open spec fn entries_view(s: Seq<(SimpleString, RespFrame)>) -> Seq<(Seq<u8>, FrameV)>
    decreases s,
{
    if s.len() == 0 {
        Seq::empty()
    } else {
        seq![(s[0].0.0@, frame_view(s[0].1))] + entries_view(s.drop_first())
    }
}

/// A viewed frame sequence has the same length and views each element.
pub proof fn lemma_frames_view(s: Seq<RespFrame>)
    ensures
        frames_view(s).len() == s.len(),
        forall|i: int| 0 <= i < s.len() ==> frames_view(s)[i] == frame_view(#[trigger] s[i]),
    decreases s.len(),
{
    if s.len() > 0 {
        lemma_frames_view(s.drop_first());
        assert forall|i: int| 0 <= i < s.len() implies frames_view(s)[i] == frame_view(
            #[trigger] s[i],
        ) by {
            if i > 0 {
                assert(s.drop_first()[i - 1] == s[i]);
                assert(frames_view(s)[i] == frames_view(s.drop_first())[i - 1]);
            }
        }
    }
}

/// A viewed entry sequence has the same length and views each entry.
pub proof fn lemma_entries_view(s: Seq<(SimpleString, RespFrame)>)
    ensures
        entries_view(s).len() == s.len(),
        forall|i: int|
            0 <= i < s.len() ==> entries_view(s)[i] == (
                #[trigger] s[i].0.0@,
                frame_view(s[i].1),
            ),
    decreases s.len(),
{
    if s.len() > 0 {
        lemma_entries_view(s.drop_first());
        assert forall|i: int|
            0 <= i < s.len() implies entries_view(s)[i] == (
            #[trigger] s[i].0.0@,
            frame_view(s[i].1),
        ) by {
            if i > 0 {
                assert(s.drop_first()[i - 1] == s[i]);
                assert(entries_view(s)[i] == entries_view(s.drop_first())[i - 1]);
            }
        }
    }
}

/// Appending a frame to a sequence appends its view to the viewed sequence.
pub proof fn lemma_frames_view_push(s: Seq<RespFrame>, f: RespFrame)
    ensures
        frames_view(s.push(f)) == frames_view(s) + seq![frame_view(f)],
{
    lemma_frames_view(s.push(f));
    lemma_frames_view(s);
    assert forall|i: int| 0 <= i < s.len() + 1 implies frames_view(s.push(f))[i] == (frames_view(
        s,
    ) + seq![frame_view(f)])[i] by {
        if i < s.len() {
            assert(s.push(f)[i] == s[i]);
        } else {
            assert(s.push(f)[i] == f);
        }
    }
    assert(frames_view(s.push(f)) =~= frames_view(s) + seq![frame_view(f)]);
}

/// Appending an entry to a sequence appends its view to the viewed sequence.
pub proof fn lemma_entries_view_push(s: Seq<(SimpleString, RespFrame)>, k: SimpleString, v: RespFrame)
    ensures
        entries_view(s.push((k, v))) == entries_view(s) + seq![(k.0@, frame_view(v))],
{
    lemma_entries_view(s.push((k, v)));
    lemma_entries_view(s);
    let sp = s.push((k, v));
    assert forall|i: int| 0 <= i < s.len() + 1 implies entries_view(sp)[i] == (entries_view(s)
        + seq![(k.0@, frame_view(v))])[i] by {
        if i < s.len() {
            assert(sp[i] == s[i]);
            assert(sp[i].0.0@ == s[i].0.0@);
            assert(entries_view(sp)[i] == (sp[i].0.0@, frame_view(sp[i].1)));
        } else {
            assert(sp[i] == (k, v));
            assert(sp[i].0.0@ == k.0@);
            assert(entries_view(sp)[i] == (sp[i].0.0@, frame_view(sp[i].1)));
        }
    }
    assert(entries_view(sp) =~= entries_view(s) + seq![(k.0@, frame_view(v))]);
}

impl View for RespFrame {
    type V = FrameV;

    open spec fn view(&self) -> FrameV {
        frame_view(*self)
    }
}

impl View for SimpleString {
    type V = Seq<u8>;

    open spec fn view(&self) -> Seq<u8> {
        self.0@
    }
}

impl View for SimpleError {
    type V = Seq<u8>;

    open spec fn view(&self) -> Seq<u8> {
        self.0@
    }
}

impl View for BulkString {
    type V = Seq<u8>;

    open spec fn view(&self) -> Seq<u8> {
        self.0@
    }
}

impl View for Double {
    type V = DoubleV;

    open spec fn view(&self) -> DoubleV {
        double_view(*self)
    }
}

impl View for Arrays {
    type V = Seq<FrameV>;

    open spec fn view(&self) -> Seq<FrameV> {
        frames_view(self.0@)
    }
}

impl View for RespMap {
    type V = Seq<(Seq<u8>, FrameV)>;

    open spec fn view(&self) -> Seq<(Seq<u8>, FrameV)> {
        entries_view(self.0@)
    }
}

impl View for RespSet {
    type V = Seq<FrameV>;

    open spec fn view(&self) -> Seq<FrameV> {
        frames_view(self.0@)
    }
}

/// True of text that may stand on a protocol line: no CR, no LF.
pub open spec fn line_ok(s: Seq<u8>) -> bool {
    forall|i: int| 0 <= i < s.len() ==> s[i] != 13u8 && s[i] != 10u8
}

pub open spec fn is_digit(b: u8) -> bool {
    48 <= b <= 57
}

/// Bytes a finite double token may contain: digits, '.', 'e', 'E', '+', '-'.
pub open spec fn token_byte_ok(b: u8) -> bool {
    is_digit(b) || b == 46u8 || b == 101u8 || b == 69u8 || b == 43u8 || b == 45u8
}

/// Shape of a finite double token: an explicit sign, then a digit, then any
/// run of token bytes. The shape excludes the special tokens `nan`, `+inf`
/// and `-inf`, so every line of the double wire form parses one way only.
pub open spec fn token_wf(t: Seq<u8>) -> bool {
    &&& t.len() >= 2
    &&& (t[0] == 43u8 || t[0] == 45u8)
    &&& is_digit(t[1])
    &&& forall|i: int| 0 <= i < t.len() ==> token_byte_ok(t[i])
}

/// Well-formedness of a frame: line payloads are free of terminator bytes
/// and finite double tokens have the token shape. Every frame the decoder
/// hands out is well formed, and the round-trip law is stated over exactly
/// these frames.
pub open spec fn frame_wf(f: FrameV) -> bool
    decreases f,
{
    match f {
        FrameV::SimpleString(s) => line_ok(s),
        FrameV::SimpleError(s) => line_ok(s),
        FrameV::Double(d) => match d {
            DoubleV::Finite(t) => token_wf(t),
            _ => true,
        },
        FrameV::BulkResp(es) => forall|i: int| 0 <= i < es.len() ==> frame_wf(#[trigger] es[i]),
        FrameV::RespMap(es) => forall|i: int|
            0 <= i < es.len() ==> line_ok((#[trigger] es[i]).0) && frame_wf(es[i].1),
        FrameV::RespSet(es) => forall|i: int| 0 <= i < es.len() ==> frame_wf(#[trigger] es[i]),
        _ => true,
    }
}

/// The failure a frame constructor reports when a payload breaks a frame
/// invariant; distinct from a wire-format violation.
#[derive(Debug, Clone, Copy, PartialEq, Eq)]
pub enum EncodeError {
    /// A line payload contains CR or LF.
    TerminatorInPayload,
    /// A finite double token does not have the token shape.
    MalformedDouble,
}

/// Checks that `s` contains neither CR nor LF.
pub fn bytes_line_ok(s: &Vec<u8>) -> (r: bool)
    ensures
        r == line_ok(s@),
{
    let mut i: usize = 0;
    while i < s.len()
        invariant
            0 <= i <= s@.len(),
            forall|j: int| 0 <= j < i ==> s@[j] != 13u8 && s@[j] != 10u8,
        decreases s@.len() - i,
    {
        if s[i] == 13 || s[i] == 10 {
            return false;
        }
        i = i + 1;
    }
    true
}

impl SimpleString {
    /// Builds a simple string, refusing payloads that embed a terminator
    /// byte: such a value would corrupt the stream when encoded.
    pub fn new(value: Vec<u8>) -> (r: Result<SimpleString, EncodeError>)
        ensures
            r is Ok <==> line_ok(value@),
            r matches Ok(s) ==> s@ == value@,
            r is Err ==> r == Result::<SimpleString, EncodeError>::Err(
                EncodeError::TerminatorInPayload,
            ),
    {
        if bytes_line_ok(&value) {
            Ok(SimpleString(value))
        } else {
            Err(EncodeError::TerminatorInPayload)
        }
    }
}

impl SimpleError {
    /// Builds a simple error under the same restriction as a simple string.
    pub fn new(value: Vec<u8>) -> (r: Result<SimpleError, EncodeError>)
        ensures
            r is Ok <==> line_ok(value@),
            r matches Ok(s) ==> s@ == value@,
            r is Err ==> r == Result::<SimpleError, EncodeError>::Err(
                EncodeError::TerminatorInPayload,
            ),
    {
        if bytes_line_ok(&value) {
            Ok(SimpleError(value))
        } else {
            Err(EncodeError::TerminatorInPayload)
        }
    }
}

impl BulkString {
    /// Builds a bulk string; the payload is opaque bytes and unrestricted.
    pub fn new(value: Vec<u8>) -> (r: BulkString)
        ensures
            r@ == value@,
    {
        BulkString(value)
    }
}

/// Checks the finite-token shape.
pub fn bytes_token_wf(t: &Vec<u8>) -> (r: bool)
    ensures
        r == token_wf(t@),
{
    if t.len() < 2 {
        return false;
    }
    if !(t[0] == 43 || t[0] == 45) {
        return false;
    }
    if !(48 <= t[1] && t[1] <= 57) {
        return false;
    }
    let mut i: usize = 0;
    while i < t.len()
        invariant
            0 <= i <= t@.len(),
            forall|j: int| 0 <= j < i ==> token_byte_ok(t@[j]),
        decreases t@.len() - i,
    {
        let b = t[i];
        if !((48 <= b && b <= 57) || b == 46 || b == 101 || b == 69 || b == 43 || b == 45) {
            return false;
        }
        i = i + 1;
    }
    true
}

impl Double {
    /// Builds a finite double from its formatted token, refusing tokens
    /// without the finite-token shape.
    pub fn finite(token: Vec<u8>) -> (r: Result<Double, EncodeError>)
        ensures
            r is Ok <==> token_wf(token@),
            r matches Ok(d) ==> d@ == DoubleV::Finite(token@),
            r is Err ==> r == Result::<Double, EncodeError>::Err(EncodeError::MalformedDouble),
    {
        if bytes_token_wf(&token) {
            Ok(Double::Finite(token))
        } else {
            Err(EncodeError::MalformedDouble)
        }
    }
}

} // verus!
