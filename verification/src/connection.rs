//! The compute side of a connection: encoding messages to bytes, and the
//! growable read buffer that turns arbitrary-granularity reads into whole
//! decoded messages. The transport itself lives outside the crate; it feeds
//! raw bytes in and writes encoded bytes out.
use vstd::prelude::*;

use crate::message::{copy_range, Cursor, Error, Message};
use crate::wire::{
    crlf, dec_digits, dec_rec, encodable, encode_elems_from, encode_msg, lines_utf8, scan_msg,
    scalar_encodable, MessageView, Scan, ARRAY_BYTE, BULK_BYTE, CR_BYTE, ERROR_BYTE, LF_BYTE,
    ONE_BYTE, SIMPLE_BYTE, ZERO_BYTE,
};

verus! {

/// Append the decimal digits of `val` (most significant first, nothing for
/// zero) to `out`.
fn push_digits(val: u64, out: &mut Vec<u8>)
    ensures
        final(out)@ == old(out)@ + dec_rec(val as int),
    decreases val,
{
    if val == 0 {
        proof {
            assert(old(out)@ + Seq::<u8>::empty() =~= old(out)@);
        }
        return ;
    }
    push_digits(val / 10, out);
    let d = (val % 10) as u8;
    out.push(ZERO_BYTE + d);
    proof {
        assert((old(out)@ + dec_rec(val as int / 10)) + seq![(ZERO_BYTE + val as int % 10) as u8]
            =~= old(out)@ + dec_rec(val as int));
    }
}

/// Append the decimal rendering of `val` followed by the line terminator.
pub fn encode_decimal(val: u64, out: &mut Vec<u8>)
    ensures
        final(out)@ == old(out)@ + dec_digits(val as int) + crlf(),
{
    if val == 0 {
        out.push(ZERO_BYTE);
    } else {
        push_digits(val, out);
    }
    out.push(CR_BYTE);
    out.push(LF_BYTE);
    proof {
        assert(out@ =~= old(out)@ + dec_digits(val as int) + crlf());
    }
}

/// Append the bytes of `b` to `out`.
#[verifier::loop_isolation(false)]
fn push_bytes(b: &Vec<u8>, out: &mut Vec<u8>)
    ensures
        final(out)@ == old(out)@ + b@,
{
    let mut i: usize = 0;
    while i < b.len()
        invariant
            i <= b@.len(),
            out@ == old(out)@ + b@.subrange(0, i as int),
        decreases b@.len() - i,
    {
        out.push(b[i]);
        proof {
            assert(old(out)@ + b@.subrange(0, i + 1) =~= (old(out)@ + b@.subrange(0, i as int))
                + seq![b@[i as int]]);
        }
        i = i + 1;
    }
    proof {
        assert(b@.subrange(0, b@.len() as int) =~= b@);
    }
}

/// Encode one scalar message onto the end of `out`: the write path for every
/// element of an array and for bare scalars. A nested array, or a simple line
/// containing the line terminator, is reported as an error and writes
/// nothing.
#[verifier::loop_isolation(false)]
pub fn encode_value(msg: &Message, out: &mut Vec<u8>) -> (r: Result<(), Error>)
    ensures
        scalar_encodable(msg@) ==> r == Ok::<(), Error>(()) && final(out)@ == old(out)@
            + encode_msg(msg@),
        !scalar_encodable(msg@) ==> r == Err::<(), Error>(Error::Other) && final(out)@ == old(
            out,
        )@,
{
    match msg {
        Message::Simple(s) => {
            let bytes = s.as_str().as_bytes_vec();
            let mut i: usize = 0;
            while bytes.len() - i > 1
                invariant
                    i <= bytes@.len(),
                    bytes@ == vstd::utf8::encode_utf8(s@),
                    forall|j: int|
                        0 <= j < i ==> !(#[trigger] bytes@[j] == CR_BYTE && bytes@[j + 1]
                            == LF_BYTE),
                decreases bytes@.len() - i,
            {
                if bytes[i] == CR_BYTE && bytes[i + 1] == LF_BYTE {
                    return Err(Error::Other);
                }
                i = i + 1;
            }
            out.push(SIMPLE_BYTE);
            push_bytes(&bytes, out);
            out.push(CR_BYTE);
            out.push(LF_BYTE);
            proof {
                assert(out@ =~= old(out)@ + encode_msg(msg@));
            }
            Ok(())
        },
        Message::Bulk(b) => {
            out.push(BULK_BYTE);
            encode_decimal(b.len() as u64, out);
            push_bytes(b, out);
            out.push(CR_BYTE);
            out.push(LF_BYTE);
            proof {
                assert(b.len() as u64 as int == b@.len());
                assert(out@ =~= old(out)@ + encode_msg(msg@));
            }
            Ok(())
        },
        Message::Null => {
            out.push(BULK_BYTE);
            out.push(ERROR_BYTE);
            out.push(ONE_BYTE);
            out.push(CR_BYTE);
            out.push(LF_BYTE);
            proof {
                assert(out@ =~= old(out)@ + encode_msg(msg@));
            }
            Ok(())
        },
        Message::Array(_) => Err(Error::Other),
    }
}

/// Encode one whole message to a fresh byte buffer: an array becomes its tag,
/// its element count line, and each element through the scalar encoder; any
/// other message goes through the scalar encoder directly. Exactly the
/// encodable messages succeed.
#[verifier::loop_isolation(false)]
pub fn encode_message(msg: &Message) -> (r: Result<Vec<u8>, Error>)
    ensures
        encodable(msg@) ==> (r matches Ok(b) && b@ == encode_msg(msg@)),
        !encodable(msg@) ==> r == Err::<Vec<u8>, Error>(Error::Other),
{
    let mut out: Vec<u8> = Vec::new();
    match msg {
        Message::Array(v) => {
            let ghost es = crate::message::elem_views(v@, 0);
            proof {
                crate::message::lemma_elem_views(v@, 0);
                assert(es =~= crate::message::views_of(v@));
            }
            out.push(ARRAY_BYTE);
            encode_decimal(v.len() as u64, &mut out);
            let ghost header = out@;
            let mut i: usize = 0;
            while i < v.len()
                invariant
                    i <= v@.len(),
                    out@ + encode_elems_from(es, i as int) == header + encode_elems_from(es, 0),
                    forall|j: int| 0 <= j < i ==> scalar_encodable(#[trigger] es[j]),
                decreases v@.len() - i,
            {
                let ghost pre = out@;
                proof {
                    assert(v@[i as int]@ == es[i as int]);
                }
                match encode_value(&v[i], &mut out) {
                    Ok(()) => {},
                    Err(e) => {
                        proof {
                            assert(!scalar_encodable(es[i as int]));
                            assert(!encodable(msg@));
                        }
                        return Err(e);
                    },
                }
                proof {
                    assert(out@ == pre + encode_msg(es[i as int]));
                    assert(pre + (encode_msg(es[i as int]) + encode_elems_from(es, i + 1)) =~= (pre
                        + encode_msg(es[i as int])) + encode_elems_from(es, i + 1));
                }
                i = i + 1;
            }
            proof {
                assert(encode_elems_from(es, v@.len() as int) == Seq::<u8>::empty());
                assert(out@ + Seq::<u8>::empty() =~= out@);
                assert(es.len() == v@.len());
                assert(header =~= seq![ARRAY_BYTE] + dec_digits(v@.len() as int) + crlf());
                assert(out@ =~= encode_msg(msg@));
            }
            Ok(out)
        },
        _ => {
            match encode_value(msg, &mut out) {
                Ok(()) => {
                    proof {
                        assert(Seq::<u8>::empty() + encode_msg(msg@) =~= encode_msg(msg@));
                    }
                    Ok(out)
                },
                Err(e) => Err(e),
            }
        },
    }
}

/// The growable read buffer of a connection. The transport appends whatever
/// bytes it has read; `try_message` removes exactly one message's bytes from
/// the front once a whole one has arrived.
pub struct ReadBuffer {
    buf: Vec<u8>,
}

impl View for ReadBuffer {
    type V = Seq<u8>;

    closed spec fn view(&self) -> Seq<u8> {
        self.buf@
    }
}

impl ReadBuffer {
    /// An empty buffer, seeded with room for a typical read so early
    /// traffic does not reallocate.
    pub fn new() -> (r: Self)
        ensures
            r@ == Seq::<u8>::empty(),
    {
        ReadBuffer { buf: Vec::with_capacity(4 * 1024) }
    }

    /// Append freshly read transport bytes to the end of the buffer.
    #[verifier::loop_isolation(false)]
    pub fn feed(&mut self, chunk: &Vec<u8>)
        ensures
            final(self)@ == old(self)@ + chunk@,
    {
        let mut i: usize = 0;
        while i < chunk.len()
            invariant
                i <= chunk@.len(),
                self.buf@ == old(self)@ + chunk@.subrange(0, i as int),
                self@ == self.buf@,
            decreases chunk@.len() - i,
        {
            self.buf.push(chunk[i]);
            proof {
                assert(old(self)@ + chunk@.subrange(0, i + 1) =~= (old(self)@ + chunk@.subrange(
                    0,
                    i as int,
                )) + seq![chunk@[i as int]]);
            }
            i = i + 1;
        }
        proof {
            assert(chunk@.subrange(0, chunk@.len() as int) =~= chunk@);
        }
    }

    /// True when no bytes are buffered. When the transport reports end of
    /// stream, an empty buffer means a clean end; a non-empty one means the
    /// peer cut a message short.
    pub fn is_empty(&self) -> (r: bool)
        ensures
            r == (self@.len() == 0),
    {
        self.buf.len() == 0
    }

    /// Try to take one whole message off the front of the buffer: validate
    /// the buffered bytes, and on success decode them and remove exactly the
    /// consumed span. An incomplete message leaves the buffer as it is and
    /// asks the caller to read more.
    pub fn try_message(&mut self) -> (r: Result<Option<Message>, Error>)
        ensures
            match scan_msg(old(self)@, 0) {
                Scan::Found(m, p) => if lines_utf8(m) {
                    r matches Ok(om) && om matches Some(msg) && msg@ == m && final(self)@ == old(
                        self,
                    )@.skip(p)
                } else {
                    r == Err::<Option<Message>, Error>(Error::InvalidEncoding) && final(self)@
                        == old(self)@
                },
                Scan::Incomplete => r == Ok::<Option<Message>, Error>(None) && final(self)@ == old(
                    self,
                )@,
                Scan::Bad => r == Err::<Option<Message>, Error>(Error::Other) && final(self)@
                    == old(self)@,
            },
    {
        let mut cur = Cursor { pos: 0 };
        match Message::check(&self.buf, &mut cur) {
            Ok(()) => {
                proof {
                    crate::wire::lemma_scan_msg_bounds(self.buf@, 0);
                }
                let mut cur2 = Cursor { pos: 0 };
                match Message::parse(&self.buf, &mut cur2) {
                    Ok(msg) => {
                        let rest = copy_range(&self.buf, cur.pos, self.buf.len());
                        proof {
                            assert(self.buf@.subrange(cur.pos as int, self.buf@.len() as int)
                                =~= self.buf@.skip(cur.pos as int));
                        }
                        self.buf = rest;
                        Ok(Some(msg))
                    },
                    Err(e) => Err(e),
                }
            },
            Err(e) => {
                match e {
                    Error::Incomplete => Ok(None),
                    _ => Err(e),
                }
            },
        }
    }
}

} // verus!
