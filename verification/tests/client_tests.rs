use rookie_redis::client::{duration_from_str, interpret_get, interpret_ping, interpret_set,
    parse_frame};
use rookie_redis::Frame;

#[test]
fn duration_from_str_test() {
    assert_eq!(duration_from_str("1500"), Some(1500));
    assert_eq!(duration_from_str("0"), Some(0));
    assert_eq!(duration_from_str("18446744073709551615"), Some(u64::MAX));
    assert_eq!(duration_from_str("18446744073709551616"), None);
    assert_eq!(duration_from_str(""), None);
    assert_eq!(duration_from_str("12a"), None);
    assert_eq!(duration_from_str("-5"), None);
    // as with a std unsigned parse, one leading plus is allowed
    assert_eq!(duration_from_str("+5"), Some(5));
    assert_eq!(duration_from_str("+"), None);
    assert_eq!(duration_from_str("++5"), None);
}

#[test]
fn flatten_simple_and_bulk_test() {
    assert_eq!(
        parse_frame(&Frame::Simple(String::from("hi"))).unwrap(),
        Some(b"hi".to_vec())
    );
    assert_eq!(
        parse_frame(&Frame::Bulk(b"payload".to_vec())).unwrap(),
        Some(b"payload".to_vec())
    );
}

#[test]
fn flatten_null_and_error_test() {
    assert_eq!(parse_frame(&Frame::Null).unwrap(), None);
    assert_eq!(
        parse_frame(&Frame::Error(String::from("bad"))),
        Err(String::from("bad"))
    );
}

#[test]
fn flatten_integer_little_endian_test() {
    assert_eq!(
        parse_frame(&Frame::Integer(1)).unwrap(),
        Some(vec![1, 0, 0, 0, 0, 0, 0, 0])
    );
    assert_eq!(
        parse_frame(&Frame::Integer(-1)).unwrap(),
        Some(vec![0xff; 8])
    );
}

#[test]
fn flatten_array_test() {
    let f = Frame::Array(vec![
        Frame::Bulk(b"a".to_vec()),
        Frame::Null,
        Frame::Simple(String::from("b")),
        Frame::Array(vec![Frame::Bulk(b"c".to_vec())]),
    ]);
    assert_eq!(parse_frame(&f).unwrap(), Some(b"abc".to_vec()));
    assert_eq!(parse_frame(&Frame::Array(vec![])).unwrap(), Some(vec![]));

    let failing = Frame::Array(vec![
        Frame::Bulk(b"a".to_vec()),
        Frame::Error(String::from("oops")),
    ]);
    assert_eq!(parse_frame(&failing), Err(String::from("oops")));
}

#[test]
fn interpret_ping_test() {
    assert_eq!(
        interpret_ping(Some(Frame::Simple(String::from("pong")))).unwrap(),
        "pong"
    );
    assert_eq!(
        interpret_ping(Some(Frame::Bulk(b"pong".to_vec()))).unwrap(),
        "pong"
    );
    assert!(interpret_ping(Some(Frame::Integer(1))).is_err());
    assert!(interpret_ping(None).is_err());
}

#[test]
fn interpret_get_test() {
    assert_eq!(interpret_get(None).unwrap(), None);
    assert_eq!(
        interpret_get(Some(Frame::Array(vec![Frame::Bulk(b"bar".to_vec())]))).unwrap(),
        Some(b"bar".to_vec())
    );
    assert_eq!(interpret_get(Some(Frame::Null)).unwrap(), None);
}

#[test]
fn interpret_set_test() {
    assert!(interpret_set(Some(Frame::Simple(String::from("OK")))).is_ok());
    assert!(interpret_set(Some(Frame::Null)).is_err());
    assert!(interpret_set(None).is_err());
}
