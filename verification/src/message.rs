//! The message type and the two-phase codec: `check` validates that one
//! complete message lies at the cursor, `parse` rebuilds it as an owned value.
//! Both are proved to follow the scanner `wire::scan_msg` exactly.
use vstd::prelude::*;

use crate::wire::{
    all_digits, digits_val, lemma_digits_val_bounds, lemma_line_end, lemma_scan_elems_step,
    lemma_scan_len_bounds, lemma_scan_msg_bounds, line_end, lines_utf8, scan_elems, scan_len,
    scan_msg, with_prefix, ElemsScan, LenScan, MessageView, Scan, ARRAY_BYTE, BULK_BYTE, CR_BYTE,
    ERROR_BYTE, LF_BYTE, ONE_BYTE, SIMPLE_BYTE, ZERO_BYTE,
};

verus! {

/// One wire message: a line of text, an opaque byte blob, the null marker, or
/// an ordered run of messages.
#[derive(Debug, PartialEq, Eq)]
pub enum Message {
    Simple(String),
    Bulk(Vec<u8>),
    Null,
    Array(Vec<Message>),
}

/// How decoding can fail.
#[derive(Debug, Clone, PartialEq, Eq)]
pub enum Error {
    /// Not enough data is available to parse a message; buffer more and retry.
    Incomplete,
    /// A simple line is not valid UTF-8; fatal to the connection.
    InvalidEncoding,
    /// Any other malformed input: a bad tag byte, a corrupt length line, a
    /// broken terminator, or an unencodable message; fatal to the connection.
    Other,
}

/// A position tracker over an immutable byte buffer.
pub struct Cursor {
    pub pos: usize,
}

impl View for Message {
    type V = MessageView;

    open spec fn view(&self) -> MessageView
        decreases self, 1int,
    {
        match self {
            Message::Simple(s) => MessageView::Simple(vstd::utf8::encode_utf8(s@)),
            Message::Bulk(b) => MessageView::Bulk(b@),
            Message::Null => MessageView::Null,
            Message::Array(v) => MessageView::Array(elem_views(v@, 0)),
        }
    }
}

/// The views of a run of messages from index `i` on.
pub open spec fn elem_views(s: Seq<Message>, i: int) -> Seq<MessageView>
    decreases s, s.len() - i,
{
    if i < 0 || i >= s.len() {
        Seq::empty()
    } else {
        seq![s[i]@] + elem_views(s, i + 1)
    }
}

/// The views of a run of messages, element by element.
pub open spec fn views_of(s: Seq<Message>) -> Seq<MessageView> {
    Seq::new(s.len(), |i: int| s[i]@)
}

/// `elem_views` lists exactly the element views from `i` on.
pub proof fn lemma_elem_views(s: Seq<Message>, i: int)
    requires
        0 <= i <= s.len(),
    ensures
        elem_views(s, i) =~= views_of(s).skip(i),
    decreases s.len() - i,
{
    if i < s.len() {
        lemma_elem_views(s, i + 1);
        assert(seq![s[i]@] + views_of(s).skip(i + 1) =~= views_of(s).skip(i));
    }
}

/// Relies on `String::from_utf8`: it succeeds exactly on input that is valid
/// UTF-8, and the returned text re-encodes to the input bytes.
#[verifier::external_body]
pub(crate) fn string_from_utf8(bytes: Vec<u8>) -> (r: Option<String>)
    ensures
        r is Some <==> vstd::utf8::valid_utf8(bytes@),
        r matches Some(s) ==> vstd::utf8::encode_utf8(s@) == bytes@,
{
    String::from_utf8(bytes).ok()
}

/// Read the byte under the cursor without advancing.
pub fn peek_u8(src: &Vec<u8>, cur: &Cursor) -> (r: Result<u8, Error>)
    ensures
        cur.pos < src@.len() ==> r == Ok::<u8, Error>(src@[cur.pos as int]),
        cur.pos >= src@.len() ==> r == Err::<u8, Error>(Error::Incomplete),
{
    if cur.pos < src.len() {
        Ok(src[cur.pos])
    } else {
        Err(Error::Incomplete)
    }
}

/// Read the byte under the cursor and advance past it.
pub fn get_u8(src: &Vec<u8>, cur: &mut Cursor) -> (r: Result<u8, Error>)
    ensures
        old(cur).pos < src@.len() ==> r == Ok::<u8, Error>(src@[old(cur).pos as int]) && final(cur).pos == old(cur).pos + 1,
        old(cur).pos >= src@.len() ==> r == Err::<u8, Error>(Error::Incomplete) && final(cur).pos
            == old(cur).pos,
{
    if cur.pos < src.len() {
        let b = src[cur.pos];
        cur.pos = cur.pos + 1;
        Ok(b)
    } else {
        Err(Error::Incomplete)
    }
}

/// Advance the cursor by `n` bytes if that many remain.
pub fn skip(src: &Vec<u8>, cur: &mut Cursor, n: usize) -> (r: Result<(), Error>)
    requires
        old(cur).pos <= src@.len(),
    ensures
        old(cur).pos + n <= src@.len() ==> r == Ok::<(), Error>(()) && final(cur).pos == old(cur).pos + n,
        old(cur).pos + n > src@.len() ==> r == Err::<(), Error>(Error::Incomplete) && final(cur).pos == old(cur).pos,
{
    if src.len() - cur.pos >= n {
        cur.pos = cur.pos + n;
        Ok(())
    } else {
        Err(Error::Incomplete)
    }
}

/// Find the current line: the byte span up to the next CRLF pair. On success
/// the cursor moves just past the terminator and the returned pair bounds the
/// line's bytes; without a full terminator in the data the cursor stays put.
#[verifier::loop_isolation(false)]
pub fn get_line(src: &Vec<u8>, cur: &mut Cursor) -> (r: Result<(usize, usize), Error>)
    requires
        old(cur).pos <= src@.len(),
    ensures
        match line_end(src@, old(cur).pos as int) {
            Some(e) => r matches Ok(se) && se.0 == old(cur).pos && se.1 as int == e && se.0 <= se.1
                && final(cur).pos as int == e + 2,
            None => r == Err::<(usize, usize), Error>(Error::Incomplete) && final(cur).pos == old(cur).pos,
        },
{
    let start = cur.pos;
    let mut i = start;
    loop
        invariant
            start <= i <= src@.len(),
            cur.pos == start,
            start <= src@.len(),
            line_end(src@, start as int) == line_end(src@, i as int),
        decreases src@.len() - i,
    {
        if src.len() - i < 2 {
            return Err(Error::Incomplete);
        }
        if src[i] == CR_BYTE && src[i + 1] == LF_BYTE {
            cur.pos = i + 2;
            return Ok((start, i));
        }
        i = i + 1;
    }
}

/// Read a line and interpret it as a decimal length: a non-empty run of
/// digits whose value fits the platform's integer width.
#[verifier::loop_isolation(false)]
pub fn get_decimal(src: &Vec<u8>, cur: &mut Cursor) -> (r: Result<usize, Error>)
    requires
        old(cur).pos <= src@.len(),
    ensures
        match scan_len(src@, old(cur).pos as int) {
            LenScan::Found(n, p) => r matches Ok(v) && v as int == n && final(cur).pos as int == p,
            LenScan::Incomplete => r == Err::<usize, Error>(Error::Incomplete) && final(cur).pos
                == old(cur).pos,
            LenScan::Bad => r == Err::<usize, Error>(Error::Other),
        },
{
    let (start, end) = match get_line(src, cur) {
        Ok(se) => se,
        Err(e) => {
            return Err(e);
        },
    };
    proof {
        lemma_line_end(src@, start as int);
    }
    let ghost line = src@.subrange(start as int, end as int);
    if end == start {
        return Err(Error::Other);
    }
    let mut val: u64 = 0;
    let mut over = false;
    let mut i = start;
    while i < end
        invariant
            start <= i <= end <= src@.len(),
            line == src@.subrange(start as int, end as int),
            forall|j: int| start <= j < i ==> crate::wire::is_digit_byte(#[trigger] src@[j]),
            !over ==> val as int == digits_val(src@.subrange(start as int, i as int)),
            over ==> digits_val(src@.subrange(start as int, i as int)) > u64::MAX as int,
        decreases end - i,
    {
        let b = src[i];
        if b < ZERO_BYTE || b > 57 {
            proof {
                assert(line[i - start] == src@[i as int]);
            }
            return Err(Error::Other);
        }
        let d = (b - ZERO_BYTE) as u64;
        proof {
            assert(src@.subrange(start as int, i + 1).drop_last() =~= src@.subrange(
                start as int,
                i as int,
            ));
            assert(src@.subrange(start as int, i + 1).last() == src@[i as int]);
            if over {
                lemma_digits_val_bounds_ambient(src@.subrange(start as int, i as int));
            }
        }
        if !over {
            match val.checked_mul(10) {
                None => {
                    over = true;
                },
                Some(x) => {
                    match x.checked_add(d) {
                        None => {
                            over = true;
                        },
                        Some(y) => {
                            val = y;
                        },
                    }
                },
            }
        }
        i = i + 1;
    }
    proof {
        assert(src@.subrange(start as int, end as int) =~= line);
        assert(all_digits(line));
    }
    if over {
        return Err(Error::Other);
    }
    if val > usize::MAX as u64 {
        return Err(Error::Other);
    }
    Ok(val as usize)
}

/// Restatement of `lemma_digits_val_bounds` usable mid-loop: a digit run's
/// value is non-negative.
proof fn lemma_digits_val_bounds_ambient(s: Seq<u8>)
    ensures
        all_digits(s) ==> digits_val(s) >= 0,
{
    if all_digits(s) {
        lemma_digits_val_bounds(s);
    }
}

/// Copy the bytes in `[start, end)` out of the buffer.
#[verifier::loop_isolation(false)]
pub(crate) fn copy_range(src: &Vec<u8>, start: usize, end: usize) -> (out: Vec<u8>)
    requires
        start <= end <= src@.len(),
    ensures
        out@ == src@.subrange(start as int, end as int),
{
    let mut out: Vec<u8> = Vec::new();
    let mut i = start;
    while i < end
        invariant
            start <= i <= end <= src@.len(),
            out@ == src@.subrange(start as int, i as int),
        decreases end - i,
    {
        out.push(src[i]);
        proof {
            assert(src@.subrange(start as int, i + 1) =~= src@.subrange(start as int, i as int)
                + seq![src@[i as int]]);
        }
        i = i + 1;
    }
    proof {
        assert(out@ =~= src@.subrange(start as int, end as int));
    }
    out
}

/// Validate one message starting at `pos`, returning the position just past
/// it; follows `scan_msg` exactly.
#[verifier::loop_isolation(false)]
fn check_at(src: &Vec<u8>, pos: usize) -> (r: Result<usize, Error>)
    requires
        pos <= src@.len(),
    ensures
        match scan_msg(src@, pos as int) {
            Scan::Found(m, p) => r matches Ok(q) && q as int == p,
            Scan::Incomplete => r == Err::<usize, Error>(Error::Incomplete),
            Scan::Bad => r == Err::<usize, Error>(Error::Other),
        },
    decreases src@.len() - pos,
{
    let mut cur = Cursor { pos };
    let tag = match get_u8(src, &mut cur) {
        Ok(b) => b,
        Err(e) => {
            return Err(e);
        },
    };
    if tag == SIMPLE_BYTE {
        match get_line(src, &mut cur) {
            Ok(_) => Ok(cur.pos),
            Err(e) => Err(e),
        }
    } else if tag == ARRAY_BYTE {
        let n = match get_decimal(src, &mut cur) {
            Ok(n) => n,
            Err(e) => {
                return Err(e);
            },
        };
        proof {
            lemma_scan_len_bounds(src@, pos as int + 1);
        }
        let ghost p0: int = cur.pos as int;
        let ghost n0: int = n as int;
        let ghost mut ms: Seq<MessageView> = Seq::empty();
        let mut i: usize = 0;
        while i < n
            invariant
                i <= n,
                pos <= src@.len(),
                pos < cur.pos && cur.pos <= src@.len(),
                scan_len(src@, pos as int + 1) == LenScan::Found(n as int, p0),
                scan_elems(src@, p0, n0) == with_prefix(
                    ms,
                    scan_elems(src@, cur.pos as int, n0 - i),
                ),
                n0 == n as int,
            decreases n - i,
        {
            let q = match check_at(src, cur.pos) {
                Ok(q) => q,
                Err(e) => {
                    return Err(e);
                },
            };
            proof {
                lemma_scan_msg_bounds(src@, cur.pos as int);
                lemma_scan_elems_step(src@, cur.pos as int, n0 - i);
                let m = scan_msg(src@, cur.pos as int)->Found_0;
                match scan_elems(src@, q as int, n0 - i - 1) {
                    ElemsScan::Found(rest, qq) => {
                        assert((ms + seq![m]) + rest =~= ms + (seq![m] + rest));
                    },
                    _ => {},
                }
                ms = ms + seq![m];
            }
            cur.pos = q;
            i = i + 1;
        }
        proof {
            assert(ms + Seq::<MessageView>::empty() =~= ms);
        }
        Ok(cur.pos)
    } else if tag == BULK_BYTE {
        let next = match peek_u8(src, &cur) {
            Ok(b) => b,
            Err(e) => {
                return Err(e);
            },
        };
        if next == ERROR_BYTE {
            let (start, end) = match get_line(src, &mut cur) {
                Ok(se) => se,
                Err(e) => {
                    return Err(e);
                },
            };
            if end - start == 2 && src[start] == ERROR_BYTE && src[start + 1] == ONE_BYTE {
                proof {
                    assert(src@.subrange(start as int, end as int) =~= crate::wire::null_line());
                }
                Ok(cur.pos)
            } else {
                proof {
                    lemma_line_end(src@, start as int);
                    let line = src@.subrange(start as int, end as int);
                    if line == crate::wire::null_line() {
                        assert(line.len() == crate::wire::null_line().len());
                        assert(end - start == 2);
                        assert(src@[start as int] == line[0] && line[0]
                            == crate::wire::null_line()[0]);
                        assert(src@[start as int + 1] == line[1] && line[1]
                            == crate::wire::null_line()[1]);
                        assert(false);
                    }
                }
                Err(Error::Other)
            }
        } else {
            let n = match get_decimal(src, &mut cur) {
                Ok(n) => n,
                Err(e) => {
                    return Err(e);
                },
            };
            proof {
                lemma_scan_len_bounds(src@, pos as int + 1);
            }
            let rem = src.len() - cur.pos;
            if rem < n || rem - n < 2 {
                return Err(Error::Incomplete);
            }
            if src[cur.pos + n] == CR_BYTE && src[cur.pos + n + 1] == LF_BYTE {
                Ok(cur.pos + n + 2)
            } else {
                Err(Error::Other)
            }
        }
    } else {
        Err(Error::Other)
    }
}

/// Rebuild the already-validated message starting at `pos` as an owned value,
/// returning it with the position just past it. Fails only when a simple line
/// is not valid UTF-8.
#[verifier::loop_isolation(false)]
fn parse_at(src: &Vec<u8>, pos: usize) -> (r: Result<(Message, usize), Error>)
    requires
        pos <= src@.len(),
        scan_msg(src@, pos as int) is Found,
    ensures
        ({
            let m = scan_msg(src@, pos as int)->Found_0;
            let p = scan_msg(src@, pos as int)->Found_1;
            if lines_utf8(m) {
                r matches Ok(mq) && mq.0@ == m && mq.1 as int == p
            } else {
                r == Err::<(Message, usize), Error>(Error::InvalidEncoding)
            }
        }),
    decreases src@.len() - pos,
{
    proof {
        lemma_scan_msg_bounds(src@, pos as int);
    }
    let mut cur = Cursor { pos };
    let tag = match get_u8(src, &mut cur) {
        Ok(b) => b,
        Err(e) => {
            proof {
                assert(false);
            }
            return Err(e);
        },
    };
    if tag == SIMPLE_BYTE {
        let (start, end) = match get_line(src, &mut cur) {
            Ok(se) => se,
            Err(e) => {
                proof {
                    assert(false);
                }
                return Err(e);
            },
        };
        proof {
            lemma_line_end(src@, pos as int + 1);
        }
        let line = copy_range(src, start, end);
        match string_from_utf8(line) {
            Some(s) => Ok((Message::Simple(s), cur.pos)),
            None => Err(Error::InvalidEncoding),
        }
    } else if tag == ARRAY_BYTE {
        let n = match get_decimal(src, &mut cur) {
            Ok(n) => n,
            Err(e) => {
                proof {
                    assert(false);
                }
                return Err(e);
            },
        };
        proof {
            lemma_scan_len_bounds(src@, pos as int + 1);
        }
        let ghost p0: int = cur.pos as int;
        let ghost n0: int = n as int;
        let ghost mut ms: Seq<MessageView> = Seq::empty();
        let mut out: Vec<Message> = Vec::new();
        let mut i: usize = 0;
        while i < n
            invariant
                i <= n,
                pos <= src@.len(),
                pos < cur.pos && cur.pos <= src@.len(),
                scan_len(src@, pos as int + 1) == LenScan::Found(n as int, p0),
                scan_msg(src@, pos as int) is Found,
                scan_elems(src@, p0, n0) == with_prefix(
                    ms,
                    scan_elems(src@, cur.pos as int, n0 - i),
                ),
                scan_elems(src@, p0, n0) is Found,
                n0 == n as int,
                out@.len() == i,
                views_of(out@) == ms,
                forall|j: int| 0 <= j < ms.len() ==> lines_utf8(#[trigger] ms[j]),
            decreases n - i,
        {
            proof {
                assert(scan_elems(src@, cur.pos as int, n0 - i) is Found);
                assert(scan_msg(src@, cur.pos as int) is Found);
            }
            let (elem, q) = match parse_at(src, cur.pos) {
                Ok(eq) => eq,
                Err(e) => {
                    proof {
                        let bad = scan_msg(src@, cur.pos as int)->Found_0;
                        lemma_scan_elems_step(src@, cur.pos as int, n0 - i);
                        crate::wire::lemma_lines_utf8_from_all(
                            scan_elems(src@, p0, n0)->Found_0,
                            0,
                        );
                        assert(scan_elems(src@, cur.pos as int, n0 - i)->Found_0[0] == bad);
                        assert(scan_elems(src@, p0, n0)->Found_0[ms.len() as int] == bad);
                    }
                    return Err(e);
                },
            };
            proof {
                lemma_scan_msg_bounds(src@, cur.pos as int);
                lemma_scan_elems_step(src@, cur.pos as int, n0 - i);
                let m = scan_msg(src@, cur.pos as int)->Found_0;
                match scan_elems(src@, q as int, n0 - i - 1) {
                    ElemsScan::Found(rest, qq) => {
                        assert((ms + seq![m]) + rest =~= ms + (seq![m] + rest));
                    },
                    _ => {},
                }
                ms = ms + seq![m];
            }
            out.push(elem);
            proof {
                assert(views_of(out@) =~= ms);
            }
            cur.pos = q;
            i = i + 1;
        }
        proof {
            assert(ms + Seq::<MessageView>::empty() =~= ms);
            crate::wire::lemma_lines_utf8_from_all(ms, 0);
            lemma_elem_views(out@, 0);
            assert(views_of(out@).skip(0) =~= views_of(out@));
        }
        Ok((Message::Array(out), cur.pos))
    } else {
        proof {
            assert(tag == BULK_BYTE);
        }
        let next = match peek_u8(src, &cur) {
            Ok(b) => b,
            Err(e) => {
                proof {
                    assert(false);
                }
                return Err(e);
            },
        };
        if next == ERROR_BYTE {
            match get_line(src, &mut cur) {
                Ok(_) => {},
                Err(e) => {
                    proof {
                        assert(false);
                    }
                    return Err(e);
                },
            };
            Ok((Message::Null, cur.pos))
        } else {
            let n = match get_decimal(src, &mut cur) {
                Ok(n) => n,
                Err(e) => {
                    proof {
                        assert(false);
                    }
                    return Err(e);
                },
            };
            let total = src.len();
            proof {
                lemma_scan_len_bounds(src@, pos as int + 1);
                assert(cur.pos as int + n as int + 2 <= total as int);
            }
            let data = copy_range(src, cur.pos, cur.pos + n);
            Ok((Message::Bulk(data), cur.pos + n + 2))
        }
    }
}

impl Message {
    /// An empty array message, ready to take elements.
    pub fn array() -> (m: Message)
        ensures
            m@ == MessageView::Array(Seq::<MessageView>::empty()),
    {
        let v: Vec<Message> = Vec::new();
        proof {
            assert(elem_views(v@, 0) =~= Seq::<MessageView>::empty());
        }
        Message::Array(v)
    }

    /// Append an opaque blob element to an array message.
    pub fn push_bulk(self, bytes: Vec<u8>) -> (m: Message)
        requires
            self@ is Array,
        ensures
            m@ == MessageView::Array(self@->Array_0.push(MessageView::Bulk(bytes@))),
    {
        match self {
            Message::Array(mut v) => {
                let ghost pre = v@;
                v.push(Message::Bulk(bytes));
                proof {
                    lemma_elem_views(pre, 0);
                    lemma_elem_views(v@, 0);
                    assert(views_of(pre).skip(0) =~= views_of(pre));
                    assert(views_of(v@).skip(0) =~= views_of(v@));
                    assert(views_of(v@) =~= views_of(pre).push(MessageView::Bulk(bytes@)));
                }
                Message::Array(v)
            },
            _ => {
                proof {
                    assert(false);
                }
                Message::Null
            },
        }
    }

    /// Confirm that one complete message lies at the cursor, advancing the
    /// cursor past it; on failure the cursor stays put and the error says
    /// whether more data could help.
    pub fn check(src: &Vec<u8>, cur: &mut Cursor) -> (r: Result<(), Error>)
        requires
            old(cur).pos <= src@.len(),
        ensures
            match scan_msg(src@, old(cur).pos as int) {
                Scan::Found(m, p) => r == Ok::<(), Error>(()) && final(cur).pos as int == p,
                Scan::Incomplete => r == Err::<(), Error>(Error::Incomplete) && final(cur).pos
                    == old(cur).pos,
                Scan::Bad => r == Err::<(), Error>(Error::Other) && final(cur).pos == old(cur).pos,
            },
    {
        match check_at(src, cur.pos) {
            Ok(q) => {
                proof {
                    lemma_scan_msg_bounds(src@, cur.pos as int);
                }
                cur.pos = q;
                Ok(())
            },
            Err(e) => Err(e),
        }
    }

    /// Rebuild the message at the cursor as an owned value, assuming a prior
    /// successful `check` from the same position; fails only when a simple
    /// line is not valid UTF-8.
    pub fn parse(src: &Vec<u8>, cur: &mut Cursor) -> (r: Result<Message, Error>)
        requires
            old(cur).pos <= src@.len(),
            scan_msg(src@, old(cur).pos as int) is Found,
        ensures
            ({
                let m = scan_msg(src@, old(cur).pos as int)->Found_0;
                let p = scan_msg(src@, old(cur).pos as int)->Found_1;
                if lines_utf8(m) {
                    r matches Ok(msg) && msg@ == m && final(cur).pos as int == p
                } else {
                    r == Err::<Message, Error>(Error::InvalidEncoding) && final(cur).pos == old(cur).pos
                }
            }),
    {
        match parse_at(src, cur.pos) {
            Ok((msg, q)) => {
                cur.pos = q;
                Ok(msg)
            },
            Err(e) => Err(e),
        }
    }
}

} // verus!
