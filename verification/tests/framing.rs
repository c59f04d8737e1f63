use rudis::builders::frame_eq;
use rudis::decode::ProtocolError;
use rudis::encode::RespEncode;
use rudis::frame::RespFrame;
use rudis::frame::SimpleString;
use rudis::framing::Connection;
use rudis::framing::PollStep;
use rudis::framing::error_reply;

#[test]
fn test_connection_two_frames_one_read() {
    let mut conn = Connection::with_default_max();
    assert!(conn.append(b"+one\r\n:+5\r\n"));
    match conn.poll() {
        PollStep::Frame(f) => assert!(frame_eq(
            &f,
            &RespFrame::SimpleString(SimpleString::new(b"one".to_vec()).unwrap())
        )),
        other => panic!("expected a frame, got {:?}", kind_of(&other)),
    }
    match conn.poll() {
        PollStep::Frame(f) => assert!(frame_eq(&f, &RespFrame::Integer(5))),
        other => panic!("expected a frame, got {:?}", kind_of(&other)),
    }
    assert!(matches!(conn.poll(), PollStep::Need));
}

#[test]
fn test_connection_partial_then_rest() {
    let mut conn = Connection::with_default_max();
    assert!(conn.append(b"$5\r\nhel"));
    assert!(matches!(conn.poll(), PollStep::Need));
    assert!(conn.append(b"lo\r\n"));
    match conn.poll() {
        PollStep::Frame(f) => {
            let expect = RespFrame::BulkString(rudis::frame::BulkString::new(b"hello".to_vec()));
            assert!(frame_eq(&f, &expect));
        }
        other => panic!("expected a frame, got {:?}", kind_of(&other)),
    }
}

#[test]
fn test_connection_protocol_error_is_fatal() {
    let mut conn = Connection::with_default_max();
    assert!(conn.append(b"?nonsense\r\n"));
    match conn.poll() {
        PollStep::Fatal(e) => {
            assert_eq!(e, ProtocolError::UnknownTag);
            let reply = error_reply(e);
            assert_eq!(b"-ERR bad tag\r\n".to_vec(), reply);
        }
        other => panic!("expected a fatal violation, got {:?}", kind_of(&other)),
    }
}

#[test]
fn test_connection_append_bound() {
    let mut conn = Connection::new(8);
    assert!(conn.append(b"12345678"));
    assert!(!conn.append(b"9"));
}

#[test]
fn test_error_reply_is_simple_error() {
    for e in [
        ProtocolError::UnknownTag,
        ProtocolError::BadLength,
        ProtocolError::BadNumber,
        ProtocolError::BadPayload,
        ProtocolError::BadTerminator,
        ProtocolError::Oversize,
    ] {
        let reply = error_reply(e);
        assert_eq!(reply[0], b'-');
        assert!(reply.ends_with(b"\r\n"));
    }
}

#[test]
fn test_oversize_reply_matches_encoder() {
    let text = SimpleString::new(b"anything".to_vec()).unwrap();
    let encoded = RespFrame::SimpleString(text).encode();
    assert_eq!(b"+anything\r\n".to_vec(), encoded);
}

fn kind_of(step: &PollStep) -> &'static str {
    match step {
        PollStep::Frame(_) => "frame",
        PollStep::Need => "need",
        PollStep::Fatal(_) => "fatal",
    }
}
