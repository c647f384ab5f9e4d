//! The request that opens a multipart upload: three text fields, carried on
//! the wire as an array of bulk blobs behind a fixed operation name.
use vstd::prelude::*;

use crate::message::Message;
use crate::wire::MessageView;
use crate::parser::{stringable, text_of, MessageParser, ParserError};
use vstd::utf8::encode_utf8;

verus! {

/// Identifies the object a multipart upload is being opened for.
#[derive(Clone, Debug)]
pub struct CreateMultipartUploadRequest {
    bucket: String,
    key: String,
    version: String,
}

impl CreateMultipartUploadRequest {
    /// The bucket field, as text.
    pub closed spec fn bucket_chars(&self) -> Seq<char> {
        self.bucket@
    }

    /// The key field, as text.
    pub closed spec fn key_chars(&self) -> Seq<char> {
        self.key@
    }

    /// The version field, as text.
    pub closed spec fn version_chars(&self) -> Seq<char> {
        self.version@
    }

    /// Build the request from its three fields.
    pub fn new(bucket: String, key: String, version: String) -> (r: CreateMultipartUploadRequest)
        ensures
            r.bucket_chars() == bucket@,
            r.key_chars() == key@,
            r.version_chars() == version@,
    {
        CreateMultipartUploadRequest { bucket, key, version }
    }

    /// Read the three fields off a message parser whose operation-name
    /// element has already been consumed.
    pub fn parse_message(parser: &mut MessageParser) -> (r: Result<
        CreateMultipartUploadRequest,
        ParserError,
    >)
        ensures
            ({
                let rem = old(parser)@;
                if rem.len() >= 3 && stringable(rem[0]) && stringable(rem[1]) && stringable(
                    rem[2],
                ) {
                    r matches Ok(req) && encode_utf8(req.bucket_chars()) == text_of(rem[0])
                        && encode_utf8(req.key_chars()) == text_of(rem[1]) && encode_utf8(
                        req.version_chars(),
                    ) == text_of(rem[2]) && final(parser)@ == rem.skip(3)
                } else {
                    r is Err
                }
            }),
    {
        let ghost rem = parser@;
        let bucket = match parser.next_string() {
            Ok(s) => s,
            Err(e) => {
                return Err(e);
            },
        };
        let key = match parser.next_string() {
            Ok(s) => s,
            Err(e) => {
                return Err(e);
            },
        };
        let version = match parser.next_string() {
            Ok(s) => s,
            Err(e) => {
                return Err(e);
            },
        };
        proof {
            if rem.len() >= 3 {
                assert(rem.skip(1)[0] == rem[1]);
                assert(rem.skip(1).skip(1)[0] == rem[2]);
                assert(rem.skip(1).skip(1).skip(1) =~= rem.skip(3));
            }
        }
        Ok(CreateMultipartUploadRequest { bucket, key, version })
    }

    /// Serialize the request as an array message: the operation name, then
    /// the three fields, each as an opaque blob.
    pub fn to_message(self) -> (m: Message)
        ensures
            m@ == MessageView::Array(
                seq![
                    MessageView::Bulk(encode_utf8("CreateMultiPartUpload"@)),
                    MessageView::Bulk(encode_utf8(self.bucket_chars())),
                    MessageView::Bulk(encode_utf8(self.key_chars())),
                    MessageView::Bulk(encode_utf8(self.version_chars())),
                ],
            ),
    {
        let mut message = Message::array();
        message = message.push_bulk("CreateMultiPartUpload".as_bytes_vec());
        message = message.push_bulk(self.bucket.as_str().as_bytes_vec());
        message = message.push_bulk(self.key.as_str().as_bytes_vec());
        message = message.push_bulk(self.version.as_str().as_bytes_vec());
        proof {
            assert(message@->Array_0 =~= seq![
                MessageView::Bulk(encode_utf8("CreateMultiPartUpload"@)),
                MessageView::Bulk(encode_utf8(self.bucket_chars())),
                MessageView::Bulk(encode_utf8(self.key_chars())),
                MessageView::Bulk(encode_utf8(self.version_chars())),
            ]);
        }
        message
    }
}

} // verus!
