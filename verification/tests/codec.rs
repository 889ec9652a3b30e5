use my_redis::connection::{write_frame, RecvBuffer};
use my_redis::frame::{get_decimal, get_line, get_u8, peek_u8, skip, Cursor, Error, Frame};

fn parse_all(bytes: &[u8]) -> Result<Option<Frame>, Error> {
    let mut buf = RecvBuffer::new();
    buf.extend(bytes);
    buf.parse_frame()
}

#[test]
fn round_trip_simple() {
    let f = Frame::Simple(b"OK".to_vec());
    let bytes = write_frame(&f);
    assert_eq!(bytes, b"+OK\r\n".to_vec());
    assert_eq!(parse_all(&bytes), Ok(Some(Frame::Simple(b"OK".to_vec()))));
}

#[test]
fn round_trip_error() {
    let f = Frame::Error(b"ERR unknown".to_vec());
    let bytes = write_frame(&f);
    assert_eq!(bytes, b"-ERR unknown\r\n".to_vec());
    assert_eq!(parse_all(&bytes), Ok(Some(Frame::Error(b"ERR unknown".to_vec()))));
}

#[test]
fn round_trip_integer() {
    let f = Frame::Integer(9034567890123456789);
    let bytes = write_frame(&f);
    assert_eq!(bytes, b":9034567890123456789\r\n".to_vec());
    assert_eq!(parse_all(&bytes), Ok(Some(Frame::Integer(9034567890123456789))));
}

#[test]
fn round_trip_integer_zero() {
    let bytes = write_frame(&Frame::Integer(0));
    assert_eq!(bytes, b":0\r\n".to_vec());
    assert_eq!(parse_all(&bytes), Ok(Some(Frame::Integer(0))));
}

#[test]
fn round_trip_bulk_binary() {
    let payload = vec![104u8, 0, 1, 255, 111];
    let f = Frame::Bulk(payload.clone());
    let bytes = write_frame(&f);
    let mut expected = b"$5\r\n".to_vec();
    expected.extend_from_slice(&payload);
    expected.extend_from_slice(b"\r\n");
    assert_eq!(bytes, expected);
    assert_eq!(parse_all(&bytes), Ok(Some(Frame::Bulk(payload))));
}

#[test]
fn round_trip_null() {
    let bytes = write_frame(&Frame::Null);
    assert_eq!(bytes, b"$-1\r\n".to_vec());
    assert_eq!(parse_all(&bytes), Ok(Some(Frame::Null)));
}

#[test]
fn incomplete_then_complete_every_split() {
    let bytes: &[u8] = b"*2\r\n$3\r\nfoo\r\n$3\r\nbar\r\n";
    let whole = parse_all(bytes).unwrap().unwrap();
    for split in 0..bytes.len() {
        let mut buf = RecvBuffer::new();
        buf.extend(&bytes[..split]);
        assert_eq!(buf.parse_frame(), Ok(None), "split at {split}");
        buf.extend(&bytes[split..]);
        let got = buf.parse_frame().unwrap().unwrap();
        assert_eq!(got, whole, "split at {split}");
        assert!(buf.is_empty());
    }
}

#[test]
fn bulk_length_mismatch_is_protocol_error() {
    // declares five payload bytes but the terminator comes after three
    assert_eq!(parse_all(b"$5\r\nabc\r\n"), Err(Error::ProtocolErr));
}

#[test]
fn array_nesting() {
    let got = parse_all(b"*2\r\n$3\r\nfoo\r\n$3\r\nbar\r\n").unwrap().unwrap();
    assert_eq!(
        got,
        Frame::Array(vec![
            Frame::Bulk(b"foo".to_vec()),
            Frame::Bulk(b"bar".to_vec()),
        ])
    );
}

#[test]
fn nested_array_parses() {
    let got = parse_all(b"*2\r\n*1\r\n:7\r\n+ok\r\n").unwrap().unwrap();
    assert_eq!(
        got,
        Frame::Array(vec![
            Frame::Array(vec![Frame::Integer(7)]),
            Frame::Simple(b"ok".to_vec()),
        ])
    );
}

#[test]
fn empty_array_is_valid() {
    assert_eq!(parse_all(b"*0\r\n"), Ok(Some(Frame::Array(vec![]))));
}

#[test]
fn unknown_sigil_is_protocol_error() {
    assert_eq!(parse_all(b"@hi\r\n"), Err(Error::ProtocolErr));
}

#[test]
fn invalid_utf8_simple_is_protocol_error() {
    assert_eq!(parse_all(b"+\xff\xfe\r\n"), Err(Error::ProtocolErr));
}

#[test]
fn invalid_utf8_error_frame_is_protocol_error() {
    assert_eq!(parse_all(b"-\xc3\x28\r\n"), Err(Error::ProtocolErr));
}

#[test]
fn integer_with_junk_is_protocol_error() {
    assert_eq!(parse_all(b":12a\r\n"), Err(Error::ProtocolErr));
    assert_eq!(parse_all(b":\r\n"), Err(Error::ProtocolErr));
    assert_eq!(parse_all(b":-1\r\n"), Err(Error::ProtocolErr));
}

#[test]
fn integer_overflow_is_protocol_error() {
    assert_eq!(parse_all(b":18446744073709551615\r\n"), Ok(Some(Frame::Integer(u64::MAX))));
    assert_eq!(parse_all(b":18446744073709551616\r\n"), Err(Error::ProtocolErr));
}

#[test]
fn negative_bulk_length_other_than_null_is_protocol_error() {
    assert_eq!(parse_all(b"$-2\r\nxx\r\n"), Err(Error::ProtocolErr));
}

#[test]
fn empty_buffer_is_incomplete() {
    assert_eq!(parse_all(b""), Ok(None));
    assert_eq!(parse_all(b"$"), Ok(None));
    assert_eq!(parse_all(b"$3\r\nab"), Ok(None));
}

#[test]
fn array_propagates_first_element_error() {
    assert_eq!(parse_all(b"*2\r\n$2\r\nabc\r\n$3\r\nbar\r\n"), Err(Error::ProtocolErr));
}

#[test]
fn buffer_keeps_bytes_after_one_frame() {
    let mut buf = RecvBuffer::new();
    buf.extend(b"+one\r\n+two\r\n");
    assert_eq!(buf.parse_frame(), Ok(Some(Frame::Simple(b"one".to_vec()))));
    assert_eq!(buf.parse_frame(), Ok(Some(Frame::Simple(b"two".to_vec()))));
    assert_eq!(buf.parse_frame(), Ok(None));
    assert!(buf.is_empty());
}

#[test]
fn check_and_parse_consume_the_same_bytes() {
    let data: &[u8] = b":42\r\ntrailing";
    let mut c1 = Cursor::new(data);
    assert!(Frame::check(&mut c1).is_ok());
    let mut c2 = Cursor::new(data);
    assert!(Frame::parse(&mut c2).is_ok());
    assert_eq!(c1.pos, c2.pos);
    assert_eq!(c1.pos, 5);
}

#[test]
fn cursor_helpers() {
    let data: &[u8] = b"ab\r\n7\r\n";
    let mut c = Cursor::new(data);
    assert_eq!(peek_u8(&mut c), Ok(b'a'));
    assert_eq!(get_u8(&mut c), Ok(b'a'));
    assert_eq!(get_line(&mut c), Ok(&b"b"[..]));
    assert_eq!(get_decimal(&mut c), Ok(7));
    assert_eq!(get_u8(&mut c), Err(Error::Incomplete));
    let mut c2 = Cursor::new(data);
    assert_eq!(skip(&mut c2, 4), Ok(()));
    assert_eq!(peek_u8(&mut c2), Ok(b'7'));
    assert_eq!(skip(&mut c2, 100), Err(Error::Incomplete));
}
