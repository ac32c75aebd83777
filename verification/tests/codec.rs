use mini_redis::frame::{Frame, Error, ProtocolError};
use mini_redis::connection::{parse_frame, write_frame};
use mini_redis::decimal::{parse_decimal, format_decimal};

fn roundtrip(bytes: &[u8]) -> Frame {
    let buf = bytes.to_vec();
    let (frame, used) = parse_frame(&buf)
        .expect("frame should be accepted")
        .expect("frame should be complete");
    assert_eq!(used, bytes.len());
    let mut out: Vec<u8> = Vec::new();
    write_frame(&mut out, &frame);
    assert_eq!(out, bytes.to_vec());
    frame
}

#[test]
fn parses_simple_frame() {
    let f = roundtrip(b"+OK\r\n");
    assert!(matches!(f, Frame::Simple(ref s) if s == b"OK"));
}

#[test]
fn parses_error_frame() {
    let f = roundtrip(b"-ERR unknown command 'ping'\r\n");
    assert!(matches!(f, Frame::Error(ref s) if s == b"ERR unknown command 'ping'"));
}

#[test]
fn parses_integer_frame() {
    let f = roundtrip(b":1000\r\n");
    assert!(matches!(f, Frame::Integer(1000)));
}

#[test]
fn parses_null_frame() {
    let f = roundtrip(b"$-1\r\n");
    assert!(matches!(f, Frame::Null));
}

#[test]
fn parses_bulk_frame() {
    let f = roundtrip(b"$6\r\nfoobar\r\n");
    assert!(matches!(f, Frame::Bulk(ref b) if b == b"foobar"));
}

#[test]
fn parses_empty_bulk_frame() {
    let f = roundtrip(b"$0\r\n\r\n");
    assert!(matches!(f, Frame::Bulk(ref b) if b.is_empty()));
}

#[test]
fn parses_set_command_frame() {
    // The literal SET request from the wire.
    let f = roundtrip(b"*3\r\n$3\r\nSET\r\n$3\r\nfoo\r\n$3\r\nbar\r\n");
    match f {
        Frame::Array(items) => {
            assert_eq!(items.len(), 3);
            assert!(matches!(items[0], Frame::Bulk(ref b) if b == b"SET"));
            assert!(matches!(items[1], Frame::Bulk(ref b) if b == b"foo"));
            assert!(matches!(items[2], Frame::Bulk(ref b) if b == b"bar"));
        }
        other => panic!("expected array, got {:?}", other),
    }
}

#[test]
fn parses_message_push_frame() {
    // The delivery frame a subscriber receives.
    let f = roundtrip(b"*3\r\n$7\r\nmessage\r\n$4\r\nnews\r\n$2\r\nhi\r\n");
    assert!(matches!(f, Frame::Array(ref v) if v.len() == 3));
}

#[test]
fn every_strict_prefix_is_incomplete() {
    let full: &[u8] = b"*3\r\n$3\r\nSET\r\n$3\r\nfoo\r\n$3\r\nbar\r\n";
    for cut in 0..full.len() {
        let buf = full[..cut].to_vec();
        match parse_frame(&buf) {
            Ok(None) => {}
            other => panic!("prefix of {} bytes gave {:?}", cut, other),
        }
    }
}

#[test]
fn check_stops_at_first_frame() {
    // Two frames back to back: the scan consumes exactly the first.
    let buf = b"+first\r\n:42\r\n".to_vec();
    let (f, used) = parse_frame(&buf).unwrap().unwrap();
    assert!(matches!(f, Frame::Simple(ref s) if s == b"first"));
    assert_eq!(used, 8);
    let rest = buf[used..].to_vec();
    let (f2, used2) = parse_frame(&rest).unwrap().unwrap();
    assert!(matches!(f2, Frame::Integer(42)));
    assert_eq!(used2, rest.len());
}

#[test]
fn rejects_unknown_type_byte() {
    let buf = b"!oops\r\n".to_vec();
    assert!(matches!(
        parse_frame(&buf),
        Err(Error::Other(ProtocolError::InvalidTypeByte))
    ));
}

#[test]
fn rejects_bad_integer_line() {
    let buf = b":12a\r\n".to_vec();
    assert!(matches!(parse_frame(&buf), Err(Error::Other(_))));
}

#[test]
fn rejects_bad_null_marker() {
    let buf = b"$-2\r\nxx\r\n".to_vec();
    assert!(matches!(parse_frame(&buf), Err(Error::Other(_))));
}

#[test]
fn cursor_helpers_read_lines() {
    let buf = b"abc\r\nrest".to_vec();
    let mut pos: usize = 0;
    let line = mini_redis::frame::eat_line(&buf, &mut pos).unwrap();
    assert_eq!(line, b"abc".to_vec());
    assert_eq!(pos, 5);
    assert!(matches!(
        mini_redis::frame::peek_u8(&buf, pos),
        Ok(b'r')
    ));
    let mut p2 = pos;
    assert!(matches!(
        mini_redis::frame::eat_u8(&buf, &mut p2),
        Ok(b'r')
    ));
    assert_eq!(p2, 6);
    assert!(mini_redis::frame::skip(&buf, &mut p2, 3).is_ok());
    assert_eq!(p2, 9);
    assert!(matches!(
        mini_redis::frame::skip(&buf, &mut p2, 1),
        Err(Error::Incomplete)
    ));
}

#[test]
fn decimal_round_trips() {
    assert_eq!(format_decimal(0), b"0".to_vec());
    assert_eq!(format_decimal(1000), b"1000".to_vec());
    assert_eq!(format_decimal(u64::MAX), b"18446744073709551615".to_vec());
    assert_eq!(parse_decimal(&b"18446744073709551615".to_vec()), Some(u64::MAX));
    assert_eq!(parse_decimal(&b"18446744073709551616".to_vec()), None);
    assert_eq!(parse_decimal(&b"".to_vec()), None);
    assert_eq!(parse_decimal(&b"12a".to_vec()), None);
    assert_eq!(parse_decimal(&b"007".to_vec()), Some(7));
}

#[test]
fn builds_array_frames() {
    let mut f = Frame::array();
    f.push_bulk(b"get".to_vec());
    f.push_int(7);
    let mut out: Vec<u8> = Vec::new();
    write_frame(&mut out, &f);
    assert_eq!(out, b"*2\r\n$3\r\nget\r\n:7\r\n".to_vec());
}

#[test]
fn frame_eq_bytes_covers_simple_and_bulk() {
    let s = Frame::Simple(b"subscribe".to_vec());
    let b = Frame::Bulk(b"subscribe".to_vec());
    let n = Frame::Integer(1);
    let kw = b"subscribe".to_vec();
    assert!(s.eq_bytes(&kw));
    assert!(b.eq_bytes(&kw));
    assert!(!n.eq_bytes(&kw));
    assert!(!s.eq_bytes(&b"other".to_vec()));
}
