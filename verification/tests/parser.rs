use miniminio::message::Message;
use miniminio::operations::create_mutlipart_upload::CreateMultipartUploadRequest;
use miniminio::parser::{MessageParser, ParserError};

fn simple(s: &str) -> Message {
    Message::Simple(s.to_string())
}

fn bulk(b: &[u8]) -> Message {
    Message::Bulk(b.to_vec())
}

#[test]
fn only_arrays_can_be_parsed() {
    assert!(MessageParser::new(simple("nope")).is_err());
    assert!(MessageParser::new(Message::Null).is_err());
    assert!(MessageParser::new(bulk(b"nope")).is_err());
    assert!(MessageParser::new(Message::Array(vec![])).is_ok());
}

#[test]
fn next_string_takes_simple_and_bulk() {
    let msg = Message::Array(vec![simple("first"), bulk(b"second")]);
    let mut p = MessageParser::new(msg).unwrap();
    assert_eq!(p.next_string(), Ok("first".to_string()));
    assert_eq!(p.next_string(), Ok("second".to_string()));
    assert_eq!(p.next_string(), Err(ParserError::EndOfStream));
}

#[test]
fn next_bytes_takes_simple_and_bulk() {
    let msg = Message::Array(vec![bulk(b"\x00\xff"), simple("text")]);
    let mut p = MessageParser::new(msg).unwrap();
    assert_eq!(p.next_bytes(), Ok(vec![0u8, 255]));
    assert_eq!(p.next_bytes(), Ok(b"text".to_vec()));
    assert_eq!(p.next_bytes(), Err(ParserError::EndOfStream));
}

#[test]
fn null_and_nested_arrays_are_not_fields() {
    let msg = Message::Array(vec![Message::Null, Message::Array(vec![])]);
    let mut p = MessageParser::new(msg).unwrap();
    assert_eq!(p.next_string(), Err(ParserError::Other));
    assert_eq!(p.next_bytes(), Err(ParserError::Other));
}

#[test]
fn invalid_utf8_bulk_is_not_a_string() {
    let msg = Message::Array(vec![bulk(&[0xff, 0xfe])]);
    let mut p = MessageParser::new(msg).unwrap();
    assert_eq!(p.next_string(), Err(ParserError::Other));
}

#[test]
fn finish_enforces_exact_arity() {
    let mut p = MessageParser::new(Message::Array(vec![simple("only")])).unwrap();
    assert_eq!(p.next_string(), Ok("only".to_string()));
    assert_eq!(p.finish(), Ok(()));

    let mut q = MessageParser::new(Message::Array(vec![simple("left"), simple("over")]))
        .unwrap();
    assert_eq!(q.next_string(), Ok("left".to_string()));
    assert_eq!(q.finish(), Err(ParserError::Other));
}

#[test]
fn multipart_upload_request_serializes_its_fields() {
    let req = CreateMultipartUploadRequest::new(
        "bucket-1".to_string(),
        "key-1".to_string(),
        "v7".to_string(),
    );
    let msg = req.to_message();
    assert_eq!(
        msg,
        Message::Array(vec![
            bulk(b"CreateMultiPartUpload"),
            bulk(b"bucket-1"),
            bulk(b"key-1"),
            bulk(b"v7"),
        ])
    );
}

#[test]
fn multipart_upload_request_round_trips_through_messages() {
    let req = CreateMultipartUploadRequest::new(
        "b".to_string(),
        "k".to_string(),
        "v".to_string(),
    );
    let msg = req.to_message();
    let mut p = MessageParser::new(msg).unwrap();
    // The operation name is consumed before the fields are read.
    assert_eq!(p.next_string(), Ok("CreateMultiPartUpload".to_string()));
    let parsed = CreateMultipartUploadRequest::parse_message(&mut p).unwrap();
    assert_eq!(p.finish(), Ok(()));
    assert_eq!(
        parsed.to_message(),
        Message::Array(vec![bulk(b"CreateMultiPartUpload"), bulk(b"b"), bulk(b"k"), bulk(b"v")])
    );
}

#[test]
fn parse_message_fails_on_short_arity() {
    let mut p = MessageParser::new(Message::Array(vec![bulk(b"only-two"), bulk(b"fields")]))
        .unwrap();
    assert!(CreateMultipartUploadRequest::parse_message(&mut p).is_err());
}
