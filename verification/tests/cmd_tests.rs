use rookie_redis::connection::parse_frame;
use rookie_redis::parser::{ParseError, Parser};
use rookie_redis::server::{error_reply, handle_frame};
use rookie_redis::{Command, Database, Frame, Get, Ping, SetCmd};

fn respond(db: &mut Database, now: u64, request: &[u8]) -> Vec<u8> {
    let buf = request.to_vec();
    let (frame, consumed) = parse_frame(&buf).unwrap().unwrap();
    assert_eq!(consumed, buf.len());
    match handle_frame(frame, db, now) {
        Ok((reply, _wake)) => reply.into_bytes(),
        Err(e) => {
            let msg = match e {
                ParseError::EndOfStream => String::from("end of stream"),
                ParseError::Other(s) => s,
            };
            error_reply(&msg).into_bytes()
        }
    }
}

#[test]
fn ping_request_test() {
    let mut db = Database::new();
    let reply = respond(&mut db, 0, b"*1\r\n$4\r\nPING\r\n");
    assert_eq!(reply, b"+pong\r\n".to_vec());
}

#[test]
fn set_then_get_request_test() {
    let mut db = Database::new();
    let reply = respond(&mut db, 0, b"*3\r\n$3\r\nSET\r\n$3\r\nfoo\r\n$3\r\nbar\r\n");
    assert_eq!(reply, b"+OK\r\n".to_vec());
    let reply = respond(&mut db, 0, b"*2\r\n$3\r\nGET\r\n$3\r\nfoo\r\n");
    assert_eq!(reply, b"*1\r\n$3\r\nbar\r\n".to_vec());
}

#[test]
fn get_missing_request_test() {
    let mut db = Database::new();
    let reply = respond(&mut db, 0, b"*2\r\n$3\r\nGET\r\n$7\r\nmissing\r\n");
    assert_eq!(reply, b"_\r\n".to_vec());
}

#[test]
fn set_with_ttl_request_test() {
    let mut db = Database::new();
    let reply = respond(&mut db, 0, b"*4\r\n$3\r\nSET\r\n$3\r\nfoo\r\n$3\r\nbar\r\n:1\r\n");
    assert_eq!(reply, b"+OK\r\n".to_vec());
    // within the second the key is there
    let reply = respond(&mut db, 500, b"*2\r\n$3\r\nGET\r\n$3\r\nfoo\r\n");
    assert_eq!(reply, b"*1\r\n$3\r\nbar\r\n".to_vec());
    // two seconds later it is gone
    let reply = respond(&mut db, 2000, b"*2\r\n$3\r\nGET\r\n$3\r\nfoo\r\n");
    assert_eq!(reply, b"_\r\n".to_vec());
}

#[test]
fn unknown_command_request_test() {
    let mut db = Database::new();
    let reply = respond(&mut db, 0, b"*1\r\n$7\r\nUNKNOWN\r\n");
    assert!(reply.starts_with(b"+error: "));
    // the error names the command it did not recognize
    let buf = b"*1\r\n$7\r\nUNKNOWN\r\n".to_vec();
    let (frame, _) = parse_frame(&buf).unwrap().unwrap();
    match Command::from_frame(frame) {
        Err(ParseError::Other(m)) => assert_eq!(m, "unrecognized command 'UNKNOWN'"),
        _ => panic!("expected a protocol error"),
    }
    // the store was not touched and stays usable
    let reply = respond(&mut db, 0, b"*1\r\n$4\r\nping\r\n");
    assert_eq!(reply, b"+pong\r\n".to_vec());
}

#[test]
fn from_frame_case_folding_test() {
    let buf = b"*1\r\n$4\r\nPiNg\r\n".to_vec();
    let (frame, _) = parse_frame(&buf).unwrap().unwrap();
    let cmd = Command::from_frame(frame).unwrap();
    assert!(matches!(cmd, Command::Ping(_)));
}

#[test]
fn from_frame_missing_argument_test() {
    let buf = b"*1\r\n$3\r\nget\r\n".to_vec();
    let (frame, _) = parse_frame(&buf).unwrap().unwrap();
    assert!(matches!(
        Command::from_frame(frame),
        Err(ParseError::EndOfStream)
    ));

    let buf = b"*2\r\n$3\r\nset\r\n$1\r\nk\r\n".to_vec();
    let (frame, _) = parse_frame(&buf).unwrap().unwrap();
    assert!(matches!(
        Command::from_frame(frame),
        Err(ParseError::EndOfStream)
    ));

    let buf = b"*0\r\n".to_vec();
    let (frame, _) = parse_frame(&buf).unwrap().unwrap();
    assert!(matches!(
        Command::from_frame(frame),
        Err(ParseError::EndOfStream)
    ));
}

#[test]
fn from_frame_protocol_errors_test() {
    // a trailing argument after ping
    let buf = b"*2\r\n$4\r\nping\r\n$1\r\nx\r\n".to_vec();
    let (frame, _) = parse_frame(&buf).unwrap().unwrap();
    assert!(matches!(
        Command::from_frame(frame),
        Err(ParseError::Other(_))
    ));

    // the value of a set must be a bulk frame
    let buf = b"*3\r\n$3\r\nset\r\n$1\r\nk\r\n:5\r\n".to_vec();
    let (frame, _) = parse_frame(&buf).unwrap().unwrap();
    assert!(matches!(
        Command::from_frame(frame),
        Err(ParseError::Other(_))
    ));

    // the expiration must be an integer
    let buf = b"*4\r\n$3\r\nset\r\n$1\r\nk\r\n$1\r\nv\r\n$1\r\n1\r\n".to_vec();
    let (frame, _) = parse_frame(&buf).unwrap().unwrap();
    assert!(matches!(
        Command::from_frame(frame),
        Err(ParseError::Other(_))
    ));

    // and it must not be negative
    let buf = b"*4\r\n$3\r\nset\r\n$1\r\nk\r\n$1\r\nv\r\n:-1\r\n".to_vec();
    let (frame, _) = parse_frame(&buf).unwrap().unwrap();
    assert!(matches!(
        Command::from_frame(frame),
        Err(ParseError::Other(_))
    ));

    // a request must be an array
    assert!(matches!(
        Command::from_frame(Frame::Simple(String::from("ping"))),
        Err(ParseError::Other(_))
    ));
}

#[test]
fn request_builders_test() {
    assert_eq!(Ping::get_frame().into_bytes(), b"*1\r\n+ping\r\n".to_vec());
    assert_eq!(
        Get::get_frame("foo").into_bytes(),
        b"*2\r\n+get\r\n$3\r\nfoo\r\n".to_vec()
    );
    assert_eq!(
        SetCmd::get_frame("foo", b"bar".to_vec(), None).into_bytes(),
        b"*3\r\n+set\r\n+foo\r\n$3\r\nbar\r\n".to_vec()
    );
    assert_eq!(
        SetCmd::get_frame("foo", b"bar".to_vec(), Some(7)).into_bytes(),
        b"*4\r\n+set\r\n+foo\r\n$3\r\nbar\r\n:7\r\n".to_vec()
    );
}

#[test]
fn builders_round_trip_through_server_test() {
    let mut db = Database::new();
    let reply = respond(&mut db, 0, &Ping::get_frame().into_bytes());
    assert_eq!(reply, b"+pong\r\n".to_vec());
    let reply = respond(
        &mut db,
        0,
        &SetCmd::get_frame("k", b"v".to_vec(), None).into_bytes(),
    );
    assert_eq!(reply, b"+OK\r\n".to_vec());
    let reply = respond(&mut db, 0, &Get::get_frame("k").into_bytes());
    assert_eq!(reply, b"*1\r\n$1\r\nv\r\n".to_vec());
}

#[test]
fn parser_extractors_test() {
    let frame = Frame::Array(vec![
        Frame::Simple(String::from("a")),
        Frame::Bulk(b"b".to_vec()),
        Frame::Integer(9),
    ]);
    let mut p = Parser::new(frame).unwrap();
    assert_eq!(p.next_string().unwrap(), "a");
    assert_eq!(p.next_string().unwrap(), "b");
    assert_eq!(p.next_int().unwrap(), 9);
    assert!(p.check_finished().is_ok());
    assert!(matches!(p.next_string(), Err(ParseError::EndOfStream)));
}

#[test]
fn parser_type_mismatch_test() {
    let frame = Frame::Array(vec![Frame::Integer(1), Frame::Simple(String::from("x"))]);
    let mut p = Parser::new(frame).unwrap();
    assert!(matches!(p.next_string(), Err(ParseError::Other(_))));
    assert!(matches!(p.next_bytes(), Err(ParseError::Other(_))));
    assert!(p.check_finished().is_ok());
    assert!(matches!(Parser::new(Frame::Null), Err(ParseError::Other(_))));
}

#[test]
fn parser_lossy_bulk_string_test() {
    // an invalid UTF-8 byte inside a bulk argument decodes leniently
    let frame = Frame::Array(vec![Frame::Bulk(vec![0xff, b'a'])]);
    let mut p = Parser::new(frame).unwrap();
    assert_eq!(p.next_string().unwrap(), "\u{FFFD}a");
}
