use rookie_redis::connection::parse_frame;
use rookie_redis::frame::{Error, Frame};

#[test]
fn check_integer_frame_test() {
    let src: Vec<u8> = b":-123\r\n".to_vec();
    let result = Frame::check(&src, 0);
    assert!(result.is_ok());
    let result = Frame::parse(&src, 0);
    assert!(result.is_ok());
    let (frame, _end) = result.unwrap();
    assert_eq!(Frame::Integer(-123), frame);
}

#[test]
fn integer_signs_parse_test() {
    let neg: Vec<u8> = b":-123\r\n".to_vec();
    let (frame, end) = Frame::parse(&neg, 0).unwrap();
    assert_eq!(Frame::Integer(-123), frame);
    assert_eq!(end, 7);

    let pos: Vec<u8> = b":+7\r\n".to_vec();
    assert!(Frame::check(&pos, 0).is_ok());
    let (frame, end) = Frame::parse(&pos, 0).unwrap();
    assert_eq!(Frame::Integer(7), frame);
    assert_eq!(end, 5);
}

#[test]
fn empty_array_parse_test() {
    let src: Vec<u8> = b"*0\r\n".to_vec();
    let (frame, end) = Frame::parse(&src, 0).unwrap();
    assert_eq!(Frame::Array(vec![]), frame);
    assert_eq!(end, 4);
}

#[test]
fn legacy_null_bulk_test() {
    let src: Vec<u8> = b"$-1\r\n".to_vec();
    assert!(Frame::check(&src, 0).is_ok());
    let (frame, end) = Frame::parse(&src, 0).unwrap();
    assert_eq!(Frame::Null, frame);
    assert_eq!(end, 5);
}

#[test]
fn null_round_trip_test() {
    let bytes = Frame::Null.into_bytes();
    assert_eq!(bytes, b"_\r\n".to_vec());
    let (frame, end) = Frame::parse(&bytes, 0).unwrap();
    assert_eq!(Frame::Null, frame);
    assert_eq!(end, 3);
}

#[test]
fn simple_round_trip_test() {
    let f = Frame::Simple(String::from("pong"));
    let bytes = f.into_bytes();
    assert_eq!(bytes, b"+pong\r\n".to_vec());
    let (parsed, end) = Frame::parse(&bytes, 0).unwrap();
    assert_eq!(f, parsed);
    assert_eq!(end, bytes.len());
}

#[test]
fn error_frame_round_trip_test() {
    let f = Frame::Error(String::from("bad request"));
    let bytes = f.into_bytes();
    assert_eq!(bytes, b"-bad request\r\n".to_vec());
    let (parsed, _) = Frame::parse(&bytes, 0).unwrap();
    assert_eq!(f, parsed);
}

#[test]
fn bulk_round_trip_test() {
    let f = Frame::Bulk(b"bar".to_vec());
    let bytes = f.into_bytes();
    assert_eq!(bytes, b"$3\r\nbar\r\n".to_vec());
    let (parsed, end) = Frame::parse(&bytes, 0).unwrap();
    assert_eq!(Frame::Bulk(b"bar".to_vec()), parsed);
    assert_eq!(end, 9);
}

#[test]
fn empty_bulk_round_trip_test() {
    let f = Frame::Bulk(vec![]);
    let bytes = f.into_bytes();
    assert_eq!(bytes, b"$0\r\n\r\n".to_vec());
    let (parsed, end) = Frame::parse(&bytes, 0).unwrap();
    assert_eq!(Frame::Bulk(vec![]), parsed);
    assert_eq!(end, 6);
}

#[test]
fn nested_array_round_trip_test() {
    let f = Frame::Array(vec![
        Frame::Simple(String::from("set")),
        Frame::Bulk(b"foo".to_vec()),
        Frame::Array(vec![Frame::Integer(1), Frame::Null]),
        Frame::Array(vec![]),
    ]);
    let bytes = f.into_bytes();
    let (parsed, end) = Frame::parse(&bytes, 0).unwrap();
    assert_eq!(f, parsed);
    assert_eq!(end, bytes.len());
}

#[test]
fn extreme_integers_round_trip_test() {
    let f = Frame::Integer(i64::MIN);
    let bytes = f.into_bytes();
    assert_eq!(bytes, b":-9223372036854775808\r\n".to_vec());
    let (parsed, _) = Frame::parse(&bytes, 0).unwrap();
    assert_eq!(Frame::Integer(i64::MIN), parsed);

    let g = Frame::Integer(i64::MAX);
    let gb = g.into_bytes();
    assert_eq!(gb, b":9223372036854775807\r\n".to_vec());
    let (parsed, _) = Frame::parse(&gb, 0).unwrap();
    assert_eq!(Frame::Integer(i64::MAX), parsed);
}

#[test]
fn integer_overflow_is_malformed_test() {
    let src: Vec<u8> = b":9223372036854775808\r\n".to_vec();
    assert!(matches!(Frame::check(&src, 0), Err(Error::Other(_))));
}

#[test]
fn malformed_integer_test() {
    let src: Vec<u8> = b":12a\r\n".to_vec();
    assert!(matches!(Frame::check(&src, 0), Err(Error::Other(_))));
    let empty: Vec<u8> = b":\r\n".to_vec();
    assert!(matches!(Frame::check(&empty, 0), Err(Error::Other(_))));
    let sign_only: Vec<u8> = b":-\r\n".to_vec();
    assert!(matches!(Frame::check(&sign_only, 0), Err(Error::Other(_))));
}

#[test]
fn unknown_type_byte_test() {
    let src: Vec<u8> = b"?hello\r\n".to_vec();
    assert!(matches!(Frame::check(&src, 0), Err(Error::Other(_))));
}

#[test]
fn incremental_feeding_test() {
    let f = Frame::Array(vec![
        Frame::Simple(String::from("get")),
        Frame::Bulk(b"k\r\ney".to_vec()),
        Frame::Integer(-42),
        Frame::Null,
    ]);
    let bytes = f.into_bytes();
    for cut in 0..bytes.len() {
        let prefix = bytes[..cut].to_vec();
        assert!(
            matches!(Frame::check(&prefix, 0), Err(Error::Incomplete)),
            "prefix of {} bytes must be incomplete",
            cut
        );
        assert!(matches!(parse_frame(&prefix), Ok(None)));
    }
    let (parsed, end) = parse_frame(&bytes).unwrap().unwrap();
    assert_eq!(f, parsed);
    assert_eq!(end, bytes.len());
}

#[test]
fn bulk_shorter_than_declared_test() {
    let src: Vec<u8> = b"$3\r\nba".to_vec();
    assert!(matches!(Frame::check(&src, 0), Err(Error::Incomplete)));
    assert!(matches!(parse_frame(&src), Ok(None)));
}

#[test]
fn pipelined_frames_test() {
    let mut bytes = Frame::Simple(String::from("a")).into_bytes();
    bytes.extend_from_slice(&Frame::Integer(5).into_bytes());
    let (first, end) = Frame::parse(&bytes, 0).unwrap();
    assert_eq!(Frame::Simple(String::from("a")), first);
    let (second, end2) = Frame::parse(&bytes, end).unwrap();
    assert_eq!(Frame::Integer(5), second);
    assert_eq!(end2, bytes.len());
}

#[test]
fn lossy_text_parse_test() {
    // an invalid UTF-8 byte in a status line decodes to the
    // replacement character instead of failing
    let src: Vec<u8> = b"+a\xffb\r\n".to_vec();
    let (frame, _) = Frame::parse(&src, 0).unwrap();
    match frame {
        Frame::Simple(s) => assert_eq!(s, "a\u{FFFD}b"),
        other => panic!("expected a simple frame, got {:?}", other),
    }
}

#[test]
fn into_simple_test() {
    let f = Frame::into_simple("OK");
    assert_eq!(Frame::Simple(String::from("OK")), f);
    assert_eq!(f.into_bytes(), b"+OK\r\n".to_vec());
}

#[test]
fn null_needs_full_terminator_test() {
    let one: Vec<u8> = b"_".to_vec();
    assert!(matches!(Frame::check(&one, 0), Err(Error::Incomplete)));
    let two: Vec<u8> = b"_\r".to_vec();
    assert!(matches!(Frame::check(&two, 0), Err(Error::Incomplete)));
    let bad: Vec<u8> = b"_x\r\n".to_vec();
    assert!(matches!(Frame::check(&bad, 0), Err(Error::Other(_))));
}
