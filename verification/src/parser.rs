//! A forward-only cursor over the elements of a decoded array message, used
//! by request builders to consume typed fields one by one.
use vstd::prelude::*;

use crate::message::{string_from_utf8, views_of, Message};
use crate::wire::MessageView;
use vstd::utf8::{encode_utf8, valid_utf8};

verus! {

/// How consuming a field can fail.
#[derive(Debug, Clone, PartialEq, Eq)]
pub enum ParserError {
    /// The caller asked for a field past the last element.
    EndOfStream,
    /// The message had the wrong shape for the requested field: not an
    /// array, a null or nested array where text or bytes were wanted, text
    /// that is not UTF-8, or elements left over at `finish`.
    Other,
}

/// A message that can stand as a text field: a simple line, or a bulk blob
/// holding valid UTF-8.
pub open spec fn stringable(m: MessageView) -> bool {
    match m {
        MessageView::Simple(_) => true,
        MessageView::Bulk(b) => valid_utf8(b),
        _ => false,
    }
}

/// The payload bytes of a simple or bulk message.
pub open spec fn text_of(m: MessageView) -> Seq<u8> {
    match m {
        MessageView::Simple(b) => b,
        MessageView::Bulk(b) => b,
        _ => Seq::empty(),
    }
}

/// The elements of one array message, consumed front to back.
pub struct MessageParser {
    parts: Vec<Message>,
}

impl View for MessageParser {
    type V = Seq<MessageView>;

    closed spec fn view(&self) -> Seq<MessageView> {
        views_of(self.parts@)
    }
}

impl MessageParser {
    /// Wrap a decoded array message; any other shape is a protocol error.
    pub fn new(message: Message) -> (r: Result<MessageParser, ParserError>)
        ensures
            match message@ {
                MessageView::Array(es) => r matches Ok(p) && p@ == es,
                _ => r == Err::<MessageParser, ParserError>(ParserError::Other),
            },
    {
        match message {
            Message::Array(parts) => {
                proof {
                    crate::message::lemma_elem_views(parts@, 0);
                    assert(views_of(parts@).skip(0) =~= views_of(parts@));
                }
                Ok(MessageParser { parts })
            },
            _ => Err(ParserError::Other),
        }
    }

    /// Pop the next element, or report that none remain.
    pub fn next(&mut self) -> (r: Result<Message, ParserError>)
        ensures
            old(self)@.len() == 0 ==> r == Err::<Message, ParserError>(ParserError::EndOfStream)
                && final(self)@ == old(self)@,
            old(self)@.len() > 0 ==> (r matches Ok(m) && m@ == old(self)@[0] && final(self)@ == old(
                self,
            )@.skip(1)),
    {
        if self.parts.len() == 0 {
            Err(ParserError::EndOfStream)
        } else {
            let m = self.parts.remove(0);
            proof {
                assert forall|j: int| 0 <= j < self.parts@.len() implies views_of(self.parts@)[j]
                    == views_of(old(self).parts@).skip(1)[j] by {
                    assert(self.parts@[j] == old(self).parts@[j + 1]);
                }
                assert(views_of(self.parts@) =~= views_of(old(self).parts@).skip(1));
            }
            Ok(m)
        }
    }

    /// Pop the next element as owned text: a simple line directly, a bulk
    /// blob through UTF-8 decoding; anything else is a protocol error.
    pub fn next_string(&mut self) -> (r: Result<String, ParserError>)
        ensures
            old(self)@.len() == 0 ==> r == Err::<String, ParserError>(ParserError::EndOfStream)
                && final(self)@ == old(self)@,
            old(self)@.len() > 0 ==> final(self)@ == old(self)@.skip(1) && (match old(self)@[0] {
                MessageView::Simple(b) => r matches Ok(s) && encode_utf8(s@) == b,
                MessageView::Bulk(b) => if valid_utf8(b) {
                    r matches Ok(s) && encode_utf8(s@) == b
                } else {
                    r == Err::<String, ParserError>(ParserError::Other)
                },
                _ => r == Err::<String, ParserError>(ParserError::Other),
            }),
    {
        match self.next() {
            Err(e) => Err(e),
            Ok(m) => match m {
                Message::Simple(s) => Ok(s),
                Message::Bulk(data) => match string_from_utf8(data) {
                    Some(s) => Ok(s),
                    None => Err(ParserError::Other),
                },
                _ => Err(ParserError::Other),
            },
        }
    }

    /// Pop the next element as its payload bytes: the UTF-8 bytes of a
    /// simple line, or a bulk blob as it is.
    pub fn next_bytes(&mut self) -> (r: Result<Vec<u8>, ParserError>)
        ensures
            old(self)@.len() == 0 ==> r == Err::<Vec<u8>, ParserError>(ParserError::EndOfStream)
                && final(self)@ == old(self)@,
            old(self)@.len() > 0 ==> final(self)@ == old(self)@.skip(1) && (match old(self)@[0] {
                MessageView::Simple(b) => r matches Ok(v) && v@ == b,
                MessageView::Bulk(b) => r matches Ok(v) && v@ == b,
                _ => r == Err::<Vec<u8>, ParserError>(ParserError::Other),
            }),
    {
        match self.next() {
            Err(e) => Err(e),
            Ok(m) => match m {
                Message::Simple(s) => Ok(s.as_str().as_bytes_vec()),
                Message::Bulk(data) => Ok(data),
                _ => Err(ParserError::Other),
            },
        }
    }

    /// Assert that every element has been consumed: request builders use
    /// this to enforce exact arity, and leftovers are a protocol error.
    pub fn finish(&mut self) -> (r: Result<(), ParserError>)
        ensures
            old(self)@.len() == 0 ==> r == Ok::<(), ParserError>(()) && final(self)@ == old(self)@,
            old(self)@.len() > 0 ==> r == Err::<(), ParserError>(ParserError::Other) && final(self)@ == old(self)@.skip(1),
    {
        match self.next() {
            Err(_) => Ok(()),
            Ok(_) => Err(ParserError::Other),
        }
    }
}

} // verus!
