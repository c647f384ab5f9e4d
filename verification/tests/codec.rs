use miniminio::connection::{encode_message, encode_value, ReadBuffer};
use miniminio::message::{get_decimal, get_line, get_u8, peek_u8, skip};
use miniminio::message::{Cursor, Error, Message};

fn simple(s: &str) -> Message {
    Message::Simple(s.to_string())
}

fn bulk(b: &[u8]) -> Message {
    Message::Bulk(b.to_vec())
}

fn decode_all(bytes: &[u8]) -> Result<Option<Message>, Error> {
    let mut rb = ReadBuffer::new();
    rb.feed(&bytes.to_vec());
    rb.try_message()
}

#[test]
fn example_b_encodes_ping_exactly() {
    let msg = Message::Array(vec![simple("PING")]);
    let bytes = encode_message(&msg).unwrap();
    assert_eq!(bytes, b"*1\r\n+PING\r\n".to_vec());
}

#[test]
fn example_b_decodes_ping_back() {
    let decoded = decode_all(b"*1\r\n+PING\r\n").unwrap().unwrap();
    assert_eq!(decoded, Message::Array(vec![simple("PING")]));
}

#[test]
fn round_trip_simple() {
    let bytes = encode_message(&simple("hello")).unwrap();
    assert_eq!(bytes, b"+hello\r\n".to_vec());
    assert_eq!(decode_all(&bytes).unwrap().unwrap(), simple("hello"));
}

#[test]
fn round_trip_simple_unicode() {
    let bytes = encode_message(&simple("héllo wörld")).unwrap();
    assert_eq!(decode_all(&bytes).unwrap().unwrap(), simple("héllo wörld"));
}

#[test]
fn round_trip_bulk_binary() {
    let payload = [0u8, 1, 2, 255, 13, 10, 36, 43];
    let bytes = encode_message(&bulk(&payload)).unwrap();
    assert_eq!(bytes, b"$8\r\n\x00\x01\x02\xff\r\n$+\r\n".to_vec());
    assert_eq!(decode_all(&bytes).unwrap().unwrap(), bulk(&payload));
}

#[test]
fn round_trip_mixed_array() {
    let msg = Message::Array(vec![bulk(b"SET"), simple("key"), Message::Null, bulk(b"value")]);
    let bytes = encode_message(&msg).unwrap();
    let again = Message::Array(vec![bulk(b"SET"), simple("key"), Message::Null, bulk(b"value")]);
    assert_eq!(decode_all(&bytes).unwrap().unwrap(), again);
}

#[test]
fn round_trip_empty_array() {
    let bytes = encode_message(&Message::Array(vec![])).unwrap();
    assert_eq!(bytes, b"*0\r\n".to_vec());
    assert_eq!(decode_all(&bytes).unwrap().unwrap(), Message::Array(vec![]));
}

#[test]
fn partial_reads_stay_incomplete_until_the_last_byte() {
    let msg = Message::Array(vec![simple("PING"), bulk(b"payload"), Message::Null]);
    let bytes = encode_message(&msg).unwrap();
    let mut rb = ReadBuffer::new();
    for (i, b) in bytes.iter().enumerate() {
        rb.feed(&vec![*b]);
        let r = rb.try_message().unwrap();
        if i + 1 < bytes.len() {
            assert!(r.is_none(), "premature message after {} bytes", i + 1);
        } else {
            let again =
                Message::Array(vec![simple("PING"), bulk(b"payload"), Message::Null]);
            assert_eq!(r.unwrap(), again);
        }
    }
    assert!(rb.is_empty());
}

#[test]
fn null_is_distinct_from_empty_bulk() {
    let null_bytes = encode_message(&Message::Null).unwrap();
    let empty_bytes = encode_message(&bulk(b"")).unwrap();
    assert_eq!(null_bytes, b"$-1\r\n".to_vec());
    assert_eq!(empty_bytes, b"$0\r\n\r\n".to_vec());
    assert_ne!(null_bytes, empty_bytes);
    assert_eq!(decode_all(&null_bytes).unwrap().unwrap(), Message::Null);
    assert_eq!(decode_all(&empty_bytes).unwrap().unwrap(), bulk(b""));
}

#[test]
fn consumes_exactly_one_message_and_keeps_the_rest() {
    let mut rb = ReadBuffer::new();
    rb.feed(&b"+one\r\n+two\r\n".to_vec());
    assert_eq!(rb.try_message().unwrap().unwrap(), simple("one"));
    assert!(!rb.is_empty());
    assert_eq!(rb.try_message().unwrap().unwrap(), simple("two"));
    assert!(rb.is_empty());
    assert_eq!(rb.try_message().unwrap(), None);
}

#[test]
fn invalid_tag_byte_is_fatal() {
    assert_eq!(decode_all(b"^oops\r\n"), Err(Error::Other));
}

#[test]
fn non_numeric_length_is_fatal() {
    assert_eq!(decode_all(b"*x\r\n"), Err(Error::Other));
    assert_eq!(decode_all(b"$1x\r\nA\r\n"), Err(Error::Other));
    assert_eq!(decode_all(b"*\r\n"), Err(Error::Other));
}

#[test]
fn oversized_length_is_fatal() {
    assert_eq!(decode_all(b"$99999999999999999999999999\r\n"), Err(Error::Other));
}

#[test]
fn broken_bulk_terminator_is_fatal() {
    assert_eq!(decode_all(b"$3\r\nabcXY"), Err(Error::Other));
}

#[test]
fn bad_null_sentinel_is_fatal() {
    assert_eq!(decode_all(b"$-2\r\n"), Err(Error::Other));
}

#[test]
fn leading_zeros_in_a_length_still_count() {
    assert_eq!(decode_all(b"$007\r\nminimio\r\n").unwrap().unwrap(), bulk(b"minimio"));
}

#[test]
fn invalid_utf8_simple_line_checks_but_does_not_parse() {
    let bytes: Vec<u8> = vec![43, 0xff, 0xfe, 13, 10];
    let mut cur = Cursor { pos: 0 };
    assert_eq!(Message::check(&bytes, &mut cur), Ok(()));
    assert_eq!(cur.pos, bytes.len());
    assert_eq!(decode_all(&bytes), Err(Error::InvalidEncoding));
}

#[test]
fn check_then_parse_walk_the_same_bytes() {
    let bytes = b"*2\r\n$3\r\nfoo\r\n+bar\r\n".to_vec();
    let mut cur = Cursor { pos: 0 };
    assert_eq!(Message::check(&bytes, &mut cur), Ok(()));
    assert_eq!(cur.pos, bytes.len());
    let mut cur2 = Cursor { pos: 0 };
    let msg = Message::parse(&bytes, &mut cur2).unwrap();
    assert_eq!(cur2.pos, cur.pos);
    assert_eq!(msg, Message::Array(vec![bulk(b"foo"), simple("bar")]));
}

#[test]
fn nested_arrays_decode_but_do_not_encode() {
    let decoded = decode_all(b"*1\r\n*1\r\n+A\r\n").unwrap().unwrap();
    assert_eq!(
        decoded,
        Message::Array(vec![Message::Array(vec![simple("A")])])
    );
    let nested = Message::Array(vec![Message::Array(vec![simple("A")])]);
    assert_eq!(encode_message(&nested), Err(Error::Other));
}

#[test]
fn simple_line_with_embedded_terminator_is_rejected() {
    let msg = simple("a\r\nb");
    assert_eq!(encode_message(&msg), Err(Error::Other));
    let mut out = Vec::new();
    assert_eq!(encode_value(&msg, &mut out), Err(Error::Other));
    assert!(out.is_empty());
}

#[test]
fn multi_digit_lengths_encode_canonically() {
    let payload = b"0123456789ab";
    let bytes = encode_message(&bulk(payload)).unwrap();
    assert_eq!(bytes, b"$12\r\n0123456789ab\r\n".to_vec());
}

#[test]
fn check_reports_incomplete_on_a_truncated_message() {
    let bytes = b"+abc".to_vec();
    let mut cur = Cursor { pos: 0 };
    assert_eq!(Message::check(&bytes, &mut cur), Err(Error::Incomplete));
    assert_eq!(cur.pos, 0);
}

#[test]
fn cursor_helpers_walk_the_buffer() {
    let bytes = b"12\r\nXY".to_vec();
    let mut cur = Cursor { pos: 0 };
    assert_eq!(peek_u8(&bytes, &cur), Ok(b'1'));
    assert_eq!(get_decimal(&bytes, &mut cur), Ok(12));
    assert_eq!(cur.pos, 4);
    assert_eq!(get_u8(&bytes, &mut cur), Ok(b'X'));
    assert_eq!(skip(&bytes, &mut cur, 1), Ok(()));
    assert_eq!(cur.pos, 6);
    assert_eq!(peek_u8(&bytes, &cur), Err(Error::Incomplete));
    assert_eq!(skip(&bytes, &mut cur, 1), Err(Error::Incomplete));
    let mut cur2 = Cursor { pos: 4 };
    assert_eq!(get_line(&bytes, &mut cur2), Err(Error::Incomplete));
    let mut cur3 = Cursor { pos: 0 };
    assert_eq!(get_line(&bytes, &mut cur3), Ok((0, 2)));
    assert_eq!(cur3.pos, 4);
}

#[test]
fn get_decimal_rejects_an_empty_or_signed_line() {
    let empty = b"\r\n".to_vec();
    let mut cur = Cursor { pos: 0 };
    assert_eq!(get_decimal(&empty, &mut cur), Err(Error::Other));
    let signed = b"-1\r\n".to_vec();
    let mut cur2 = Cursor { pos: 0 };
    assert_eq!(get_decimal(&signed, &mut cur2), Err(Error::Other));
}
