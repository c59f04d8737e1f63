use rudis::builders::bytes_eq;
use rudis::builders::frame_eq;
use rudis::decode::DecodeOutcome;
use rudis::decode::ProtocolError;
use rudis::decode::decode_at;
use rudis::encode::RespEncode;
use rudis::frame::ArrayNil;
use rudis::frame::Arrays;
use rudis::frame::BulkString;
use rudis::frame::Double;
use rudis::frame::EncodeError;
use rudis::frame::Null;
use rudis::frame::NullBulkString;
use rudis::frame::RespFrame;
use rudis::frame::RespMap;
use rudis::frame::RespSet;
use rudis::frame::SimpleError;
use rudis::frame::SimpleString;

const MAX: usize = 1048576;

/// Formats an f64 as its wire token: the rule the transport edge uses
/// before handing the token to the frame model.
fn double_token_of(v: f64) -> Double {
    if v.is_nan() {
        return Double::Nan;
    }
    if v.is_infinite() {
        return if v.is_sign_positive() { Double::PosInf } else { Double::NegInf };
    }
    let text = if v.abs() >= 1e8 || (v.abs() < 1e-4 && v != 0.0) {
        format!("{:+e}", v)
    } else {
        format!("{:+}", v)
    };
    Double::finite(text.into_bytes()).unwrap()
}

fn roundtrip(f: RespFrame, again: RespFrame) {
    let encoded = f.encode();
    match decode_at(&encoded, 0, MAX) {
        DecodeOutcome::Decoded(decoded, used) => {
            assert_eq!(used, encoded.len());
            assert!(frame_eq(&decoded, &again));
        }
        other => panic!("expected a decoded frame, got {:?}", other),
    }
}

#[test]
fn test_integer_to_bytes() {
    let n: i64 = i64::MAX;
    let mut v = Vec::with_capacity(23);
    v.push(b':');
    if n >= 0 {
        v.push(b'+');
    }
    v.extend_from_slice(itoa::Buffer::new().format(n).as_bytes());
    v.extend_from_slice(b"\r\n");
    assert_eq!(23, v.len());
    assert_eq!(23, v.capacity());
}

#[test]
fn test_doubles_encode() {
    let nan = RespFrame::Double(double_token_of(f64::NAN)).encode();
    assert_eq!(",nan\r\n", String::from_utf8_lossy(&nan));
    let num = RespFrame::Double(double_token_of(1.23)).encode();
    assert_eq!(",+1.23\r\n", String::from_utf8_lossy(&num));
    let neg = RespFrame::Double(double_token_of(f64::NEG_INFINITY)).encode();
    assert_eq!(",-inf\r\n", String::from_utf8_lossy(&neg));
}

#[test]
fn test_double_scientific() {
    let big = RespFrame::Double(double_token_of(2e9)).encode();
    let text = String::from_utf8_lossy(&big).to_string();
    assert!(text.starts_with(','));
    assert!(text.ends_with("\r\n"));
    assert!(text.contains('e') || text.contains('E'));
    assert_eq!(",+2e9\r\n", text);
}

#[test]
fn test_encode_simple_string() {
    let f = RespFrame::SimpleString(SimpleString::new(b"OK".to_vec()).unwrap());
    assert_eq!(b"+OK\r\n".to_vec(), f.encode());
}

#[test]
fn test_encode_simple_error() {
    let f = RespFrame::SimpleError(SimpleError::new(b"ERR unknown".to_vec()).unwrap());
    assert_eq!(b"-ERR unknown\r\n".to_vec(), f.encode());
}

#[test]
fn test_encode_integer() {
    assert_eq!(b":+23\r\n".to_vec(), RespFrame::Integer(23).encode());
    assert_eq!(b":-23\r\n".to_vec(), RespFrame::Integer(-23).encode());
    assert_eq!(b":+0\r\n".to_vec(), RespFrame::Integer(0).encode());
}

#[test]
fn test_encode_boolean() {
    assert_eq!(b"#t\r\n".to_vec(), RespFrame::Boolean(true).encode());
    assert_eq!(b"#f\r\n".to_vec(), RespFrame::Boolean(false).encode());
}

#[test]
fn test_encode_nulls() {
    assert_eq!(b"_\r\n".to_vec(), RespFrame::Nil(Null).encode());
    assert_eq!(b"$-1\r\n".to_vec(), RespFrame::NullBulkString(NullBulkString).encode());
    assert_eq!(b"*-1\r\n".to_vec(), RespFrame::ArrayNil(ArrayNil).encode());
}

#[test]
fn test_encode_bulk_string() {
    let f = RespFrame::BulkString(BulkString::new(b"hello\r\nworld".to_vec()));
    assert_eq!(b"$12\r\nhello\r\nworld\r\n".to_vec(), f.encode());
}

#[test]
fn test_encode_bulk_errors() {
    assert_eq!(b"!3\r\nabc\r\n".to_vec(), RespFrame::BulkErrors(Some(b"abc".to_vec())).encode());
    assert_eq!(b"!-1\r\n".to_vec(), RespFrame::BulkErrors(None).encode());
}

#[test]
fn test_encode_big_number() {
    assert_eq!(b"(+170141183460469231731687303715884105727\r\n".to_vec(),
        RespFrame::BigNumber(i128::MAX).encode());
    assert_eq!(b"(-170141183460469231731687303715884105728\r\n".to_vec(),
        RespFrame::BigNumber(i128::MIN).encode());
}

#[test]
fn test_nested_container() {
    let inner = vec![
        RespFrame::BulkString(BulkString::new(b"a".to_vec())),
        RespFrame::Integer(1),
    ];
    let f = RespFrame::BulkResp(Arrays::new(inner));
    let encoded = f.encode();
    assert_eq!(b"*2\r\n$1\r\na\r\n:+1\r\n".to_vec(), encoded);
    let inner2 = vec![
        RespFrame::BulkString(BulkString::new(b"a".to_vec())),
        RespFrame::Integer(1),
    ];
    let again = RespFrame::BulkResp(Arrays::new(inner2));
    match decode_at(&encoded, 0, MAX) {
        DecodeOutcome::Decoded(decoded, used) => {
            assert_eq!(used, encoded.len());
            assert!(frame_eq(&decoded, &again));
        }
        other => panic!("expected a decoded frame, got {:?}", other),
    }
}

#[test]
fn test_round_trip_scalars() {
    roundtrip(RespFrame::Integer(i64::MIN), RespFrame::Integer(i64::MIN));
    roundtrip(RespFrame::Integer(i64::MAX), RespFrame::Integer(i64::MAX));
    roundtrip(RespFrame::Boolean(true), RespFrame::Boolean(true));
    roundtrip(RespFrame::BigNumber(0), RespFrame::BigNumber(0));
    roundtrip(RespFrame::Nil(Null), RespFrame::Nil(Null));
    roundtrip(RespFrame::ArrayNil(ArrayNil), RespFrame::ArrayNil(ArrayNil));
    roundtrip(RespFrame::NullBulkString(NullBulkString), RespFrame::NullBulkString(NullBulkString));
    roundtrip(RespFrame::Double(Double::Nan), RespFrame::Double(Double::Nan));
    roundtrip(
        RespFrame::Double(double_token_of(1.23)),
        RespFrame::Double(double_token_of(1.23)),
    );
    roundtrip(
        RespFrame::BulkErrors(Some(b"oops".to_vec())),
        RespFrame::BulkErrors(Some(b"oops".to_vec())),
    );
    roundtrip(RespFrame::BulkErrors(None), RespFrame::BulkErrors(None));
    roundtrip(
        RespFrame::SimpleString(SimpleString::new(b"PONG".to_vec()).unwrap()),
        RespFrame::SimpleString(SimpleString::new(b"PONG".to_vec()).unwrap()),
    );
    roundtrip(
        RespFrame::BulkString(BulkString::new(b"".to_vec())),
        RespFrame::BulkString(BulkString::new(b"".to_vec())),
    );
}

#[test]
fn test_round_trip_map_and_set() {
    let mut m = RespMap::new();
    m.insert(SimpleString::new(b"name".to_vec()).unwrap(), RespFrame::Integer(7));
    m.insert(SimpleString::new(b"age".to_vec()).unwrap(), RespFrame::Integer(18));
    let encoded = RespFrame::RespMap(m).encode();
    assert_eq!(b"%2\r\n+name\r\n:+7\r\n+age\r\n:+18\r\n".to_vec(), encoded);

    let mut m2 = RespMap::new();
    m2.insert(SimpleString::new(b"name".to_vec()).unwrap(), RespFrame::Integer(7));
    m2.insert(SimpleString::new(b"age".to_vec()).unwrap(), RespFrame::Integer(18));
    match decode_at(&encoded, 0, MAX) {
        DecodeOutcome::Decoded(decoded, used) => {
            assert_eq!(used, encoded.len());
            assert!(frame_eq(&decoded, &RespFrame::RespMap(m2)));
        }
        other => panic!("expected a decoded frame, got {:?}", other),
    }

    let mut s = RespSet::new();
    s.insert(RespFrame::Integer(1));
    s.insert(RespFrame::Integer(2));
    let encoded = RespFrame::RespSet(s).encode();
    assert_eq!(b"~2\r\n:+1\r\n:+2\r\n".to_vec(), encoded);
}

#[test]
fn test_map_insert_replaces() {
    let mut m = RespMap::new();
    m.insert(SimpleString::new(b"k".to_vec()).unwrap(), RespFrame::Integer(1));
    m.insert(SimpleString::new(b"k".to_vec()).unwrap(), RespFrame::Integer(2));
    assert_eq!(b"%1\r\n+k\r\n:+2\r\n".to_vec(), RespFrame::RespMap(m).encode());
}

#[test]
fn test_set_insert_dedupes() {
    let mut s = RespSet::new();
    s.insert(RespFrame::Integer(5));
    s.insert(RespFrame::Integer(5));
    s.insert(RespFrame::Double(Double::Nan));
    s.insert(RespFrame::Double(Double::Nan));
    assert_eq!(b"~2\r\n:+5\r\n,nan\r\n".to_vec(), RespFrame::RespSet(s).encode());
}

#[test]
fn test_partial_input_stability() {
    let inner = vec![
        RespFrame::BulkString(BulkString::new(b"ab".to_vec())),
        RespFrame::Integer(-42),
        RespFrame::Boolean(false),
    ];
    let whole = RespFrame::BulkResp(Arrays::new(inner)).encode();
    for k in 0..whole.len() {
        let first = &whole[..k];
        match decode_at(first, 0, MAX) {
            DecodeOutcome::Incomplete => {}
            other => panic!("prefix of {} bytes gave {:?}", k, other),
        }
        let mut joined = first.to_vec();
        joined.extend_from_slice(&whole[k..]);
        match decode_at(&joined, 0, MAX) {
            DecodeOutcome::Decoded(_, used) => assert_eq!(used, whole.len()),
            other => panic!("joined buffer gave {:?}", other),
        }
    }
}

#[test]
fn test_idempotent_redecode() {
    let buf = b"+hello\r\ntrailing bytes".to_vec();
    let first = decode_at(&buf, 0, MAX);
    let second = decode_at(&buf, 0, MAX);
    assert_eq!(first, second);
    match first {
        DecodeOutcome::Decoded(f, used) => {
            assert_eq!(used, 8);
            assert!(frame_eq(
                &f,
                &RespFrame::SimpleString(SimpleString::new(b"hello".to_vec()).unwrap())
            ));
        }
        other => panic!("expected a decoded frame, got {:?}", other),
    }
}

#[test]
fn test_oversize_guard() {
    let buf = b"$999999999999\r\n".to_vec();
    match decode_at(&buf, 0, 1024) {
        DecodeOutcome::Error(ProtocolError::Oversize) => {}
        other => panic!("expected an oversize error, got {:?}", other),
    }
    let count = b"*2000\r\n".to_vec();
    match decode_at(&count, 0, 1000) {
        DecodeOutcome::Error(ProtocolError::Oversize) => {}
        other => panic!("expected an oversize error, got {:?}", other),
    }
}

#[test]
fn test_malformed_inputs() {
    assert!(matches!(
        decode_at(b"?what\r\n", 0, MAX),
        DecodeOutcome::Error(ProtocolError::UnknownTag)
    ));
    assert!(matches!(
        decode_at(b":12\r\n", 0, MAX),
        DecodeOutcome::Error(ProtocolError::BadNumber)
    ));
    assert!(matches!(
        decode_at(b":-0\r\n", 0, MAX),
        DecodeOutcome::Error(ProtocolError::BadNumber)
    ));
    assert!(matches!(
        decode_at(b":+007\r\n", 0, MAX),
        DecodeOutcome::Error(ProtocolError::BadNumber)
    ));
    assert!(matches!(
        decode_at(b":+9223372036854775808\r\n", 0, MAX),
        DecodeOutcome::Error(ProtocolError::BadNumber)
    ));
    assert!(matches!(
        decode_at(b"#x\r\n", 0, MAX),
        DecodeOutcome::Error(ProtocolError::BadPayload)
    ));
    assert!(matches!(
        decode_at(b"$x\r\n", 0, MAX),
        DecodeOutcome::Error(ProtocolError::BadLength)
    ));
    assert!(matches!(
        decode_at(b"$-2\r\n", 0, MAX),
        DecodeOutcome::Error(ProtocolError::BadLength)
    ));
    assert!(matches!(
        decode_at(b"$3\r\nabcXY", 0, MAX),
        DecodeOutcome::Error(ProtocolError::BadTerminator)
    ));
    assert!(matches!(
        decode_at(b"+bad\rline\r\n", 0, MAX),
        DecodeOutcome::Error(ProtocolError::BadTerminator)
    ));
    assert!(matches!(
        decode_at(b",abc\r\n", 0, MAX),
        DecodeOutcome::Error(ProtocolError::BadNumber)
    ));
    assert!(matches!(
        decode_at(b"%-1\r\n", 0, MAX),
        DecodeOutcome::Error(ProtocolError::BadLength)
    ));
}

#[test]
fn test_incomplete_inputs() {
    assert!(matches!(decode_at(b"", 0, MAX), DecodeOutcome::Incomplete));
    assert!(matches!(decode_at(b"+par", 0, MAX), DecodeOutcome::Incomplete));
    assert!(matches!(decode_at(b"+line\r", 0, MAX), DecodeOutcome::Incomplete));
    assert!(matches!(decode_at(b"$5\r\nab", 0, MAX), DecodeOutcome::Incomplete));
    assert!(matches!(decode_at(b"*2\r\n:+1\r\n", 0, MAX), DecodeOutcome::Incomplete));
}

#[test]
fn test_constructor_invariants() {
    assert!(matches!(
        SimpleString::new(b"has\r\nterminator".to_vec()),
        Err(EncodeError::TerminatorInPayload)
    ));
    assert!(matches!(
        SimpleError::new(b"has\nlinefeed".to_vec()),
        Err(EncodeError::TerminatorInPayload)
    ));
    assert!(matches!(Double::finite(b"abc".to_vec()), Err(EncodeError::MalformedDouble)));
    assert!(matches!(Double::finite(b"+inf".to_vec()), Err(EncodeError::MalformedDouble)));
    assert!(Double::finite(b"+1.5e-3".to_vec()).is_ok());
    assert!(SimpleString::new(b"plain".to_vec()).is_ok());
}

#[test]
fn test_bytes_eq_helper() {
    assert!(bytes_eq(&b"same".to_vec(), &b"same".to_vec()));
    assert!(!bytes_eq(&b"one".to_vec(), &b"two".to_vec()));
    assert!(!frame_eq(&RespFrame::Integer(1), &RespFrame::Boolean(true)));
}

#[test]
fn test_oversize_boundary_is_exact() {
    // A declared length equal to the bound passes; one more is refused.
    let buf = b"$4\r\nabcd\r\n".to_vec();
    assert!(matches!(decode_at(&buf, 0, 4), DecodeOutcome::Decoded(_, 10)));
    assert!(matches!(decode_at(&buf, 0, 3), DecodeOutcome::Error(ProtocolError::Oversize)));
}

#[test]
fn test_deeply_nested_round_trip() {
    let inner = RespFrame::BulkResp(Arrays::new(vec![RespFrame::Integer(1)]));
    let mid = RespFrame::BulkResp(Arrays::new(vec![inner, RespFrame::Boolean(true)]));
    let outer = RespFrame::BulkResp(Arrays::new(vec![mid]));
    let encoded = outer.encode();
    assert_eq!(b"*1\r\n*2\r\n*1\r\n:+1\r\n#t\r\n".to_vec(), encoded);
    let inner2 = RespFrame::BulkResp(Arrays::new(vec![RespFrame::Integer(1)]));
    let mid2 = RespFrame::BulkResp(Arrays::new(vec![inner2, RespFrame::Boolean(true)]));
    let outer2 = RespFrame::BulkResp(Arrays::new(vec![mid2]));
    match decode_at(&encoded, 0, MAX) {
        DecodeOutcome::Decoded(decoded, used) => {
            assert_eq!(used, encoded.len());
            assert!(frame_eq(&decoded, &outer2));
        }
        other => panic!("expected a decoded frame, got {:?}", other),
    }
}

#[test]
fn test_empty_containers() {
    assert_eq!(b"*0\r\n".to_vec(), RespFrame::BulkResp(Arrays::new(Vec::new())).encode());
    assert_eq!(b"%0\r\n".to_vec(), RespFrame::RespMap(RespMap::new()).encode());
    assert_eq!(b"~0\r\n".to_vec(), RespFrame::RespSet(RespSet::new()).encode());
    assert!(matches!(decode_at(b"*0\r\n", 0, MAX), DecodeOutcome::Decoded(_, 4)));
}

#[test]
fn test_map_key_must_be_simple_string() {
    // A map entry whose key is not a simple string breaks the wire form.
    let buf = b"%1\r\n:+1\r\n:+2\r\n".to_vec();
    assert!(matches!(decode_at(&buf, 0, MAX), DecodeOutcome::Error(ProtocolError::BadPayload)));
}
