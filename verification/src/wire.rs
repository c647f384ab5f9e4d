//! Mathematical model of the wire format: CRLF-terminated lines, the four
//! message shapes, a scanner that decides how far a complete message extends
//! in a byte sequence, and the reference encoding of a message.
use vstd::prelude::*;

verus! {

/// Tag byte of a simple (one-line UTF-8 text) message.
pub const SIMPLE_BYTE: u8 = 43;

/// Tag byte of an array message.
pub const ARRAY_BYTE: u8 = 42;

/// Tag byte of a bulk (length-prefixed binary) message; also introduces null.
pub const BULK_BYTE: u8 = 36;

/// The byte that follows a bulk tag when the message is the null sentinel.
pub const ERROR_BYTE: u8 = 45;

/// First byte of the line terminator.
pub const CR_BYTE: u8 = 13;

/// Second byte of the line terminator.
pub const LF_BYTE: u8 = 10;

/// ASCII digit one, the second byte of the null sentinel line `-1`.
pub const ONE_BYTE: u8 = 49;

/// ASCII digit zero.
pub const ZERO_BYTE: u8 = 48;

/// Abstract shape of one wire message. A simple message is represented by the
/// UTF-8 bytes of its text line, a bulk message by its payload bytes.
pub enum MessageView {
    Simple(Seq<u8>),
    Bulk(Seq<u8>),
    Null,
    Array(Seq<MessageView>),
}

/// Outcome of scanning one message at a position.
pub enum Scan {
    /// The data ends before a full message is seen.
    Incomplete,
    /// The bytes at the position cannot begin any message.
    Bad,
    /// A complete message, and the position just past it.
    Found(MessageView, int),
}

/// Outcome of scanning a run of consecutive messages.
pub enum ElemsScan {
    Incomplete,
    Bad,
    Found(Seq<MessageView>, int),
}

/// Outcome of scanning one decimal length line.
pub enum LenScan {
    Incomplete,
    Bad,
    /// The value of the line, and the position just past its terminator.
    Found(int, int),
}

pub open spec fn is_digit_byte(b: u8) -> bool {
    ZERO_BYTE <= b && b <= 57
}

pub open spec fn all_digits(s: Seq<u8>) -> bool {
    forall|i: int| 0 <= i < s.len() ==> is_digit_byte(#[trigger] s[i])
}

/// Numeric value of a sequence of ASCII digits, most significant first.
pub open spec fn digits_val(s: Seq<u8>) -> int
    decreases s.len(),
{
    if s.len() == 0 {
        0
    } else {
        digits_val(s.drop_last()) * 10 + (s.last() - ZERO_BYTE)
    }
}

/// Position of the first CR of a CRLF pair at or after `pos`, if any pair
/// lies wholly within the data.
pub open spec fn line_end(data: Seq<u8>, pos: int) -> Option<int>
    decreases data.len() - pos,
{
    if pos < 0 || pos + 2 > data.len() {
        None
    } else if data[pos] == CR_BYTE && data[pos + 1] == LF_BYTE {
        Some(pos)
    } else {
        line_end(data, pos + 1)
    }
}

/// The two-byte line terminator.
pub open spec fn crlf() -> Seq<u8> {
    seq![CR_BYTE, LF_BYTE]
}

/// The line that denotes null after a bulk tag.
pub open spec fn null_line() -> Seq<u8> {
    seq![ERROR_BYTE, ONE_BYTE]
}

/// Scan a decimal length line: a non-empty run of digits terminated by CRLF,
/// whose value fits the platform's integer width.
pub open spec fn scan_len(data: Seq<u8>, pos: int) -> LenScan {
    match line_end(data, pos) {
        None => LenScan::Incomplete,
        Some(e) => {
            let line = data.subrange(pos, e);
            if line.len() >= 1 && all_digits(line) {
                if digits_val(line) > usize::MAX as int {
                    LenScan::Bad
                } else {
                    LenScan::Found(digits_val(line), e + 2)
                }
            } else {
                LenScan::Bad
            }
        },
    }
}

/// Scan one message starting at `pos`: which message lies there, if any, and
/// where it ends.
pub open spec fn scan_msg(data: Seq<u8>, pos: int) -> Scan
    decreases data.len() - pos, 0int,
{
    if pos < 0 {
        Scan::Bad
    } else if pos >= data.len() {
        Scan::Incomplete
    } else {
        let tag = data[pos];
        if tag == SIMPLE_BYTE {
            match line_end(data, pos + 1) {
                None => Scan::Incomplete,
                Some(e) => Scan::Found(MessageView::Simple(data.subrange(pos + 1, e)), e + 2),
            }
        } else if tag == ARRAY_BYTE {
            match scan_len(data, pos + 1) {
                LenScan::Incomplete => Scan::Incomplete,
                LenScan::Bad => Scan::Bad,
                LenScan::Found(n, p) => {
                    if pos < p && p <= data.len() {
                        match scan_elems(data, p, n) {
                            ElemsScan::Incomplete => Scan::Incomplete,
                            ElemsScan::Bad => Scan::Bad,
                            ElemsScan::Found(elems, q) => Scan::Found(
                                MessageView::Array(elems),
                                q,
                            ),
                        }
                    } else {
                        Scan::Bad
                    }
                },
            }
        } else if tag == BULK_BYTE {
            if pos + 1 >= data.len() {
                Scan::Incomplete
            } else if data[pos + 1] == ERROR_BYTE {
                match line_end(data, pos + 1) {
                    None => Scan::Incomplete,
                    Some(e) => {
                        if data.subrange(pos + 1, e) == null_line() {
                            Scan::Found(MessageView::Null, e + 2)
                        } else {
                            Scan::Bad
                        }
                    },
                }
            } else {
                match scan_len(data, pos + 1) {
                    LenScan::Incomplete => Scan::Incomplete,
                    LenScan::Bad => Scan::Bad,
                    LenScan::Found(n, p) => {
                        if !(pos < p && p <= data.len()) {
                            Scan::Bad
                        } else if p + n + 2 > data.len() {
                            Scan::Incomplete
                        } else if data[p + n] == CR_BYTE && data[p + n + 1] == LF_BYTE {
                            Scan::Found(MessageView::Bulk(data.subrange(p, p + n)), p + n + 2)
                        } else {
                            Scan::Bad
                        }
                    },
                }
            }
        } else {
            Scan::Bad
        }
    }
}

/// Scan `n` consecutive messages starting at `pos`.
pub open spec fn scan_elems(data: Seq<u8>, pos: int, n: int) -> ElemsScan
    decreases data.len() - pos, n,
{
    if n <= 0 {
        ElemsScan::Found(Seq::empty(), pos)
    } else {
        match scan_msg(data, pos) {
            Scan::Incomplete => ElemsScan::Incomplete,
            Scan::Bad => ElemsScan::Bad,
            Scan::Found(m, p) => {
                if pos < p && p <= data.len() {
                    match scan_elems(data, p, n - 1) {
                        ElemsScan::Incomplete => ElemsScan::Incomplete,
                        ElemsScan::Bad => ElemsScan::Bad,
                        ElemsScan::Found(ms, q) => ElemsScan::Found(seq![m] + ms, q),
                    }
                } else {
                    ElemsScan::Bad
                }
            },
        }
    }
}

/// Decimal digits of `n`, most significant first; empty when `n <= 0`.
pub open spec fn dec_rec(n: int) -> Seq<u8>
    decreases n,
{
    if n <= 0 {
        Seq::empty()
    } else {
        dec_rec(n / 10) + seq![(ZERO_BYTE + n % 10) as u8]
    }
}

/// Canonical decimal rendering of a non-negative number.
pub open spec fn dec_digits(n: int) -> Seq<u8> {
    if n <= 0 {
        seq![ZERO_BYTE]
    } else {
        dec_rec(n)
    }
}

/// Reference encoding of a message. Array elements are encoded in order after
/// a count line; the encoder itself only ever emits arrays of scalars (see
/// `encodable`), but the encoding is defined for every shape.
pub open spec fn encode_msg(m: MessageView) -> Seq<u8>
    decreases m, 0int,
{
    match m {
        MessageView::Simple(b) => seq![SIMPLE_BYTE] + b + crlf(),
        MessageView::Bulk(b) => seq![BULK_BYTE] + dec_digits(b.len() as int) + crlf() + b + crlf(),
        MessageView::Null => seq![BULK_BYTE, ERROR_BYTE, ONE_BYTE, CR_BYTE, LF_BYTE],
        MessageView::Array(es) => seq![ARRAY_BYTE] + dec_digits(es.len() as int) + crlf()
            + encode_elems_from(es, 0),
    }
}

/// Concatenated encodings of the elements of `es` from index `i` on.
pub open spec fn encode_elems_from(es: Seq<MessageView>, i: int) -> Seq<u8>
    decreases es, es.len() - i,
{
    if i < 0 || i >= es.len() {
        Seq::empty()
    } else {
        encode_msg(es[i]) + encode_elems_from(es, i + 1)
    }
}

/// True when no CRLF pair occurs inside the byte sequence, so that the bytes
/// can stand as the body of one line.
pub open spec fn no_crlf(b: Seq<u8>) -> bool {
    forall|i: int| 0 <= i && i + 1 < b.len() ==> !(#[trigger] b[i] == CR_BYTE && b[i + 1] == LF_BYTE)
}

/// A message the scalar encoder accepts: a simple line free of the line
/// terminator, a bulk blob whose length fits the platform, or null.
pub open spec fn scalar_encodable(m: MessageView) -> bool {
    match m {
        MessageView::Simple(b) => no_crlf(b),
        MessageView::Bulk(b) => b.len() <= usize::MAX,
        MessageView::Null => true,
        MessageView::Array(_) => false,
    }
}

/// A message the writer accepts whole: a scalar, or an array of scalars.
/// Nested arrays are not encodable and are reported as an error.
pub open spec fn encodable(m: MessageView) -> bool {
    match m {
        MessageView::Array(es) => es.len() <= usize::MAX && forall|i: int|
            0 <= i < es.len() ==> scalar_encodable(#[trigger] es[i]),
        _ => scalar_encodable(m),
    }
}

/// True when every simple line in the message is valid UTF-8, so that the
/// decoder can realize it as owned text.
pub open spec fn lines_utf8(m: MessageView) -> bool
    decreases m, 0int,
{
    match m {
        MessageView::Simple(b) => vstd::utf8::valid_utf8(b),
        MessageView::Bulk(_) => true,
        MessageView::Null => true,
        MessageView::Array(es) => lines_utf8_from(es, 0),
    }
}

/// True when every element of `es` from index `i` on has only UTF-8 lines.
pub open spec fn lines_utf8_from(es: Seq<MessageView>, i: int) -> bool
    decreases es, es.len() - i,
{
    if i < 0 || i >= es.len() {
        true
    } else {
        lines_utf8(es[i]) && lines_utf8_from(es, i + 1)
    }
}

/// A run of messages has only UTF-8 lines exactly when each of its elements
/// does.
pub proof fn lemma_lines_utf8_from_all(es: Seq<MessageView>, i: int)
    requires
        0 <= i,
    ensures
        lines_utf8_from(es, i) <==> (forall|j: int|
            i <= j < es.len() ==> lines_utf8(#[trigger] es[j])),
    decreases es.len() - i,
{
    if 0 <= i < es.len() {
        lemma_lines_utf8_from_all(es, i + 1);
    }
}

/// Prepend already-scanned elements to the outcome of scanning the rest.
pub open spec fn with_prefix(ms: Seq<MessageView>, e: ElemsScan) -> ElemsScan {
    match e {
        ElemsScan::Found(rest, q) => ElemsScan::Found(ms + rest, q),
        other => other,
    }
}

/// Where `line_end` points: at the first CRLF pair at or after `pos`, wholly
/// inside the data, or nowhere when no such pair exists.
pub proof fn lemma_line_end(data: Seq<u8>, pos: int)
    requires
        0 <= pos,
    ensures
        match line_end(data, pos) {
            Some(e) => pos <= e && e + 2 <= data.len() && data[e] == CR_BYTE && data[e + 1]
                == LF_BYTE && forall|j: int|
                pos <= j < e ==> !(#[trigger] data[j] == CR_BYTE && data[j + 1] == LF_BYTE),
            None => forall|j: int|
                pos <= j && j + 2 <= data.len() ==> !(#[trigger] data[j] == CR_BYTE && data[j + 1]
                    == LF_BYTE),
        },
    decreases data.len() - pos,
{
    if pos + 2 > data.len() {
    } else if data[pos] == CR_BYTE && data[pos + 1] == LF_BYTE {
    } else {
        lemma_line_end(data, pos + 1);
    }
}

/// A found length line lies between `pos` and the end of the data, and its
/// value is non-negative.
pub proof fn lemma_scan_len_bounds(data: Seq<u8>, pos: int)
    requires
        0 <= pos,
        scan_len(data, pos) is Found,
    ensures
        pos + 2 <= scan_len(data, pos)->Found_1 <= data.len(),
        0 <= scan_len(data, pos)->Found_0 <= usize::MAX as int,
{
    lemma_line_end(data, pos);
    let e = line_end(data, pos)->Some_0;
    let line = data.subrange(pos, e);
    lemma_digits_val_bounds(line);
}

/// A sequence of digits has a non-negative value.
pub proof fn lemma_digits_val_bounds(s: Seq<u8>)
    requires
        all_digits(s),
    ensures
        digits_val(s) >= 0,
    decreases s.len(),
{
    if s.len() > 0 {
        assert(all_digits(s.drop_last()));
        lemma_digits_val_bounds(s.drop_last());
    }
}

/// A found message extends past its starting position and ends within the
/// data.
pub proof fn lemma_scan_msg_bounds(data: Seq<u8>, pos: int)
    requires
        scan_msg(data, pos) is Found,
    ensures
        pos < scan_msg(data, pos)->Found_1 <= data.len(),
    decreases data.len() - pos, 0int,
{
    if 0 <= pos < data.len() {
        let tag = data[pos];
        if tag == SIMPLE_BYTE {
            lemma_line_end(data, pos + 1);
        } else if tag == ARRAY_BYTE {
            match scan_len(data, pos + 1) {
                LenScan::Found(n, p) => {
                    if pos < p && p <= data.len() {
                        lemma_scan_elems_bounds(data, p, n);
                    }
                },
                _ => {},
            }
        } else if tag == BULK_BYTE {
            if pos + 1 < data.len() && data[pos + 1] == ERROR_BYTE {
                lemma_line_end(data, pos + 1);
            } else if pos + 1 < data.len() {
                match scan_len(data, pos + 1) {
                    LenScan::Found(n, p) => {
                        lemma_scan_len_bounds(data, pos + 1);
                    },
                    _ => {},
                }
            }
        }
    }
}

/// A found run of `n` messages ends at or after its starting position, within
/// the data, and yields exactly `n` elements.
pub proof fn lemma_scan_elems_bounds(data: Seq<u8>, pos: int, n: int)
    requires
        0 <= pos <= data.len(),
        scan_elems(data, pos, n) is Found,
    ensures
        pos <= scan_elems(data, pos, n)->Found_1 <= data.len(),
        scan_elems(data, pos, n)->Found_0.len() == if n <= 0 {
            0
        } else {
            n
        },
    decreases data.len() - pos, n,
{
    if n > 0 {
        match scan_msg(data, pos) {
            Scan::Found(m, p) => {
                lemma_scan_msg_bounds(data, pos);
                if pos < p && p <= data.len() {
                    lemma_scan_elems_bounds(data, p, n - 1);
                }
            },
            _ => {},
        }
    }
}

/// Byte-by-byte restatement of an equality between a subrange and a given
/// sequence.
pub proof fn lemma_subrange_index(data: Seq<u8>, pos: int, s: Seq<u8>)
    requires
        0 <= pos,
        pos + s.len() <= data.len(),
        data.subrange(pos, pos + s.len()) == s,
    ensures
        forall|i: int| 0 <= i < s.len() ==> data[pos + i] == s[i],
{
    assert forall|i: int| 0 <= i < s.len() implies data[pos + i] == s[i] by {
        assert(data.subrange(pos, pos + s.len())[i] == data[pos + i]);
    }
}

/// The canonical digits of a number are digits and read back as that number.
pub proof fn lemma_dec_rec(n: int)
    requires
        n >= 0,
    ensures
        all_digits(dec_rec(n)),
        digits_val(dec_rec(n)) == n || n == 0,
    decreases n,
{
    if n > 0 {
        lemma_dec_rec(n / 10);
        let s = dec_rec(n);
        assert(s == dec_rec(n / 10) + seq![(ZERO_BYTE + n % 10) as u8]);
        assert(s.drop_last() =~= dec_rec(n / 10));
        assert(s.last() == (ZERO_BYTE + n % 10) as u8);
        if n / 10 == 0 {
            assert(dec_rec(n / 10) == Seq::<u8>::empty());
            assert(digits_val(s.drop_last()) == 0);
        }
        assert(digits_val(s) == digits_val(s.drop_last()) * 10 + (s.last() - ZERO_BYTE));
    }
}

/// The canonical decimal rendering is a non-empty digit line with the value
/// it was made from.
pub proof fn lemma_dec_digits(n: int)
    requires
        n >= 0,
    ensures
        all_digits(dec_digits(n)),
        digits_val(dec_digits(n)) == n,
        dec_digits(n).len() >= 1,
    decreases n,
{
    lemma_dec_rec(n);
    if n == 0 {
        assert(dec_digits(0) == seq![ZERO_BYTE]);
        assert(dec_digits(0).drop_last() =~= Seq::<u8>::empty());
        assert(dec_digits(0).last() == ZERO_BYTE);
        assert(digits_val(dec_digits(0)) == digits_val(Seq::<u8>::empty()) * 10 + (ZERO_BYTE
            - ZERO_BYTE));
    } else {
        assert(dec_rec(n).len() >= 1);
    }
}

/// When a CRLF pair sits `k` bytes after `pos` and no pair comes earlier,
/// the line ends exactly there.
pub proof fn lemma_line_end_at(data: Seq<u8>, pos: int, k: int)
    requires
        0 <= pos,
        0 <= k,
        pos + k + 2 <= data.len(),
        forall|i: int| 0 <= i < k ==> !(#[trigger] data[pos + i] == CR_BYTE && data[pos + i + 1] == LF_BYTE),
        data[pos + k] == CR_BYTE,
        data[pos + k + 1] == LF_BYTE,
    ensures
        line_end(data, pos) == Some(pos + k),
    decreases k,
{
    if k > 0 {
        assert(!(data[pos + 0] == CR_BYTE && data[pos + 0 + 1] == LF_BYTE));
        assert forall|i: int| 0 <= i < k - 1 implies !(#[trigger] data[pos + 1 + i] == CR_BYTE
            && data[pos + 1 + i + 1] == LF_BYTE) by {
            assert(!(data[pos + (i + 1)] == CR_BYTE && data[pos + (i + 1) + 1] == LF_BYTE));
        }
        lemma_line_end_at(data, pos + 1, k - 1);
    }
}

/// When the canonical rendering of `n` sits at `pos` with its terminator,
/// the length line scans back to `n`.
pub proof fn lemma_scan_len_at(data: Seq<u8>, pos: int, n: int)
    requires
        0 <= pos,
        0 <= n <= usize::MAX,
        pos + dec_digits(n).len() + 2 <= data.len(),
        data.subrange(pos, pos + dec_digits(n).len()) == dec_digits(n),
        data[pos + dec_digits(n).len()] == CR_BYTE,
        data[pos + dec_digits(n).len() + 1] == LF_BYTE,
    ensures
        scan_len(data, pos) == LenScan::Found(n, pos + dec_digits(n).len() + 2),
{
    let dd = dec_digits(n);
    lemma_dec_digits(n);
    lemma_subrange_index(data, pos, dd);
    assert forall|i: int| 0 <= i < dd.len() implies !(#[trigger] data[pos + i] == CR_BYTE
        && data[pos + i + 1] == LF_BYTE) by {
        assert(data[pos + i] == dd[i]);
        assert(is_digit_byte(dd[i]));
    }
    lemma_line_end_at(data, pos, dd.len() as int);
    assert(data.subrange(pos, pos + dd.len()) == dd);
}

/// Wherever the encoding of a scalar message sits in a byte sequence, the
/// scanner finds exactly that message and stops exactly past it.
pub proof fn lemma_scan_encode_scalar(data: Seq<u8>, pos: int, m: MessageView)
    requires
        scalar_encodable(m),
        0 <= pos,
        pos + encode_msg(m).len() <= data.len(),
        data.subrange(pos, pos + encode_msg(m).len() as int) == encode_msg(m),
    ensures
        scan_msg(data, pos) == Scan::Found(m, pos + encode_msg(m).len()),
{
    let enc = encode_msg(m);
    lemma_subrange_index(data, pos, enc);
    match m {
        MessageView::Simple(b) => {
            let k = b.len() as int;
            assert(enc.len() == k + 3);
            assert(enc[0] == SIMPLE_BYTE);
            assert(forall|i: int| 0 <= i < k ==> #[trigger] enc[1 + i] == b[i]);
            assert(enc[1 + k] == CR_BYTE);
            assert(enc[2 + k] == LF_BYTE);
            assert(data[pos] == SIMPLE_BYTE);
            assert forall|i: int| 0 <= i < k implies !(#[trigger] data[pos + 1 + i] == CR_BYTE
                && data[pos + 1 + i + 1] == LF_BYTE) by {
                assert(data[pos + (1 + i)] == enc[1 + i]);
                if i < k - 1 {
                    assert(data[pos + (1 + i + 1)] == enc[1 + i + 1]);
                    assert(!(b[i] == CR_BYTE && b[i + 1] == LF_BYTE));
                } else {
                    assert(data[pos + (1 + k)] == CR_BYTE);
                }
            }
            assert(data[pos + 1 + k] == CR_BYTE) by {
                assert(data[pos + (1 + k)] == enc[1 + k]);
            }
            assert(data[pos + 1 + k + 1] == LF_BYTE) by {
                assert(data[pos + (2 + k)] == enc[2 + k]);
            }
            lemma_line_end_at(data, pos + 1, k);
            assert forall|i: int| 0 <= i < k implies data.subrange(pos + 1, pos + 1 + k)[i]
                == b[i] by {
                assert(data[pos + 1 + i] == enc[1 + i]);
                assert(enc[1 + i] == b[i]);
            }
            assert(data.subrange(pos + 1, pos + 1 + k) =~= b);
        },
        MessageView::Bulk(b) => {
            let dd = dec_digits(b.len() as int);
            let kd = dd.len() as int;
            let kb = b.len() as int;
            lemma_dec_digits(kb);
            assert(enc.len() == 1 + kd + 2 + kb + 2);
            assert(enc[0] == BULK_BYTE);
            assert(forall|i: int| 0 <= i < kd ==> #[trigger] enc[1 + i] == dd[i]);
            assert(enc[1 + kd] == CR_BYTE);
            assert(enc[2 + kd] == LF_BYTE);
            assert(forall|i: int| 0 <= i < kb ==> #[trigger] enc[3 + kd + i] == b[i]);
            assert(enc[3 + kd + kb] == CR_BYTE);
            assert(enc[4 + kd + kb] == LF_BYTE);
            assert(data[pos] == BULK_BYTE);
            assert(data[pos + 1] == dd[0]) by {
                assert(data[pos + 1] == enc[1 + 0int]);
            }
            assert(is_digit_byte(dd[0]));
            assert(data[pos + 1] != ERROR_BYTE);
            assert forall|i: int| 0 <= i < kd implies data.subrange(pos + 1, pos + 1 + kd)[i]
                == dd[i] by {
                assert(data[pos + 1 + i] == enc[1 + i]);
                assert(enc[1 + i] == dd[i]);
            }
            assert(data.subrange(pos + 1, pos + 1 + kd) =~= dd);
            assert(data[pos + 1 + kd] == CR_BYTE) by {
                assert(data[pos + (1 + kd)] == enc[1 + kd]);
            }
            assert(data[pos + 1 + kd + 1] == LF_BYTE) by {
                assert(data[pos + (2 + kd)] == enc[2 + kd]);
            }
            lemma_scan_len_at(data, pos + 1, kb);
            let p = pos + 1 + kd + 2;
            assert(data[p + kb] == CR_BYTE) by {
                assert(data[pos + (3 + kd + kb)] == enc[3 + kd + kb]);
            }
            assert(data[p + kb + 1] == LF_BYTE) by {
                assert(data[pos + (4 + kd + kb)] == enc[4 + kd + kb]);
            }
            assert forall|i: int| 0 <= i < kb implies data.subrange(p, p + kb)[i] == b[i] by {
                assert(data[pos + (3 + kd + i)] == enc[3 + kd + i]);
                assert(enc[3 + kd + i] == b[i]);
            }
            assert(data.subrange(p, p + kb) =~= b);
        },
        MessageView::Null => {
            assert(enc.len() == 5);
            assert(data[pos] == BULK_BYTE) by {
                assert(data[pos + 0int] == enc[0int]);
            }
            assert(data[pos + 1] == ERROR_BYTE);
            assert(data[pos + 2] == ONE_BYTE);
            assert(data[pos + 3] == CR_BYTE);
            assert(data[pos + 4] == LF_BYTE);
            assert forall|i: int| 0 <= i < 2 implies !(#[trigger] data[pos + 1 + i] == CR_BYTE
                && data[pos + 1 + i + 1] == LF_BYTE) by {}
            lemma_line_end_at(data, pos + 1, 2);
            assert(data.subrange(pos + 1, pos + 3) =~= null_line());
        },
        MessageView::Array(_) => {},
    }
}

/// Wherever the concatenated encodings of scalar elements sit, the scanner
/// finds exactly those elements.
pub proof fn lemma_scan_encode_elems(data: Seq<u8>, pos: int, es: Seq<MessageView>, i: int)
    requires
        0 <= i <= es.len(),
        forall|j: int| i <= j < es.len() ==> scalar_encodable(#[trigger] es[j]),
        0 <= pos,
        pos + encode_elems_from(es, i).len() <= data.len(),
        data.subrange(pos, pos + encode_elems_from(es, i).len() as int) == encode_elems_from(
            es,
            i,
        ),
    ensures
        scan_elems(data, pos, es.len() - i) == ElemsScan::Found(
            es.skip(i),
            pos + encode_elems_from(es, i).len(),
        ),
    decreases es.len() - i,
{
    if i == es.len() {
        assert(encode_elems_from(es, i) == Seq::<u8>::empty());
        assert(es.skip(i) =~= Seq::<MessageView>::empty());
    } else {
        let enc = encode_elems_from(es, i);
        let e0 = encode_msg(es[i]);
        let rest = encode_elems_from(es, i + 1);
        assert(enc == e0 + rest);
        lemma_subrange_index(data, pos, enc);
        assert(data.subrange(pos, pos + e0.len() as int) =~= e0) by {
            assert(forall|j: int| 0 <= j < e0.len() ==> data[pos + j] == #[trigger] enc[j]);
            assert(forall|j: int| 0 <= j < e0.len() ==> #[trigger] enc[j] == e0[j]);
        }
        lemma_scan_encode_scalar(data, pos, es[i]);
        let p = pos + e0.len() as int;
        lemma_scan_msg_bounds(data, pos);
        assert forall|j: int| 0 <= j < rest.len() implies data.subrange(
            p,
            p + rest.len() as int,
        )[j] == rest[j] by {
            assert(data[pos + (e0.len() + j)] == enc[e0.len() + j]);
            assert(enc[e0.len() + j] == rest[j]);
        }
        assert(data.subrange(p, p + rest.len() as int) =~= rest);
        lemma_scan_encode_elems(data, p, es, i + 1);
        assert(seq![es[i]] + es.skip(i + 1) =~= es.skip(i));
        assert(enc.len() == e0.len() + rest.len());
    }
}

/// Wherever the encoding of an encodable message sits in a byte sequence,
/// the scanner finds exactly that message and stops exactly past it.
pub proof fn lemma_scan_encode(data: Seq<u8>, pos: int, m: MessageView)
    requires
        encodable(m),
        0 <= pos,
        pos + encode_msg(m).len() <= data.len(),
        data.subrange(pos, pos + encode_msg(m).len() as int) == encode_msg(m),
    ensures
        scan_msg(data, pos) == Scan::Found(m, pos + encode_msg(m).len()),
{
    match m {
        MessageView::Array(es) => {
            let enc = encode_msg(m);
            let dd = dec_digits(es.len() as int);
            let kd = dd.len() as int;
            let elems = encode_elems_from(es, 0);
            lemma_dec_digits(es.len() as int);
            lemma_subrange_index(data, pos, enc);
            assert(enc.len() == 1 + kd + 2 + elems.len());
            assert(enc[0] == ARRAY_BYTE);
            assert(forall|i: int| 0 <= i < kd ==> #[trigger] enc[1 + i] == dd[i]);
            assert(enc[1 + kd] == CR_BYTE);
            assert(enc[2 + kd] == LF_BYTE);
            assert(forall|i: int| 0 <= i < elems.len() ==> #[trigger] enc[3 + kd + i] == elems[i]);
            assert(data[pos] == ARRAY_BYTE) by {
                assert(data[pos + 0int] == enc[0int]);
            }
            assert forall|i: int| 0 <= i < kd implies data.subrange(pos + 1, pos + 1 + kd)[i]
                == dd[i] by {
                assert(data[pos + (1 + i)] == enc[1 + i]);
                assert(enc[1 + i] == dd[i]);
            }
            assert(data.subrange(pos + 1, pos + 1 + kd) =~= dd);
            assert(data[pos + 1 + kd] == CR_BYTE) by {
                assert(data[pos + (1 + kd)] == enc[1 + kd]);
            }
            assert(data[pos + 1 + kd + 1] == LF_BYTE) by {
                assert(data[pos + (2 + kd)] == enc[2 + kd]);
            }
            lemma_scan_len_at(data, pos + 1, es.len() as int);
            let p = pos + 1 + kd + 2;
            assert forall|i: int| 0 <= i < elems.len() implies data.subrange(
                p,
                p + elems.len() as int,
            )[i] == elems[i] by {
                assert(data[pos + (3 + kd + i)] == enc[3 + kd + i]);
                assert(enc[3 + kd + i] == elems[i]);
            }
            assert(data.subrange(p, p + elems.len() as int) =~= elems);
            lemma_scan_encode_elems(data, p, es, 0);
            assert(es.skip(0) =~= es);
        },
        _ => {
            lemma_scan_encode_scalar(data, pos, m);
        },
    }
}

/// Round trip: decoding the encoding of any encodable message yields that
/// very message, consuming exactly its bytes. This is the scanner half; the
/// codec's `check` and `parse` are proved to follow the scanner, and the
/// writer to produce `encode_msg`.
pub proof fn lemma_round_trip(m: MessageView)
    requires
        encodable(m),
    ensures
        scan_msg(encode_msg(m), 0) == Scan::Found(m, encode_msg(m).len() as int),
{
    let data = encode_msg(m);
    assert(data.subrange(0, data.len() as int) =~= data);
    lemma_scan_encode(data, 0, m);
}

/// Truncating the data never moves a line terminator: a line that ends
/// within the kept prefix still ends there, and one that does not is not
/// found at all.
pub proof fn lemma_line_end_truncate(data: Seq<u8>, k: int, pos: int)
    requires
        0 <= pos,
        0 <= k <= data.len(),
    ensures
        match line_end(data, pos) {
            Some(e) => if e + 2 <= k {
                line_end(data.take(k), pos) == Some(e)
            } else {
                line_end(data.take(k), pos) == None::<int>
            },
            None => line_end(data.take(k), pos) == None::<int>,
        },
    decreases data.len() - pos,
{
    let t = data.take(k);
    if pos + 2 > data.len() {
    } else if data[pos] == CR_BYTE && data[pos + 1] == LF_BYTE {
        if pos + 2 <= k {
            assert(t[pos] == data[pos]);
            assert(t[pos + 1] == data[pos + 1]);
        }
    } else {
        lemma_line_end_truncate(data, k, pos + 1);
        if pos + 2 <= k {
            assert(t[pos] == data[pos]);
            assert(t[pos + 1] == data[pos + 1]);
        } else {
            lemma_line_end(data, pos + 1);
        }
    }
}

/// Truncating the data keeps a fully contained length line intact and turns
/// a straddled one into a wait for more bytes.
pub proof fn lemma_scan_len_truncate(data: Seq<u8>, k: int, pos: int)
    requires
        0 <= pos,
        0 <= k <= data.len(),
        scan_len(data, pos) is Found,
    ensures
        ({
            let n = scan_len(data, pos)->Found_0;
            let p = scan_len(data, pos)->Found_1;
            if p <= k {
                scan_len(data.take(k), pos) == LenScan::Found(n, p)
            } else {
                scan_len(data.take(k), pos) == LenScan::Incomplete
            }
        }),
{
    let t = data.take(k);
    lemma_line_end(data, pos);
    lemma_line_end_truncate(data, k, pos);
    let e = line_end(data, pos)->Some_0;
    if e + 2 <= k {
        assert forall|i: int| 0 <= i < e - pos implies #[trigger] t.subrange(pos, e)[i] == data.subrange(
            pos,
            e,
        )[i] by {
            assert(t[pos + i] == data[pos + i]);
        }
        assert(t.subrange(pos, e) =~= data.subrange(pos, e));
    }
}

/// Truncating the data keeps a fully contained message intact, and turns one
/// cut anywhere before its end into a wait for more bytes — never into a
/// different message and never into a malformed one.
pub proof fn lemma_scan_msg_truncate(data: Seq<u8>, k: int, pos: int)
    requires
        0 <= pos,
        0 <= k <= data.len(),
        scan_msg(data, pos) is Found,
    ensures
        ({
            let m = scan_msg(data, pos)->Found_0;
            let p = scan_msg(data, pos)->Found_1;
            if p <= k {
                scan_msg(data.take(k), pos) == Scan::Found(m, p)
            } else {
                scan_msg(data.take(k), pos) == Scan::Incomplete
            }
        }),
    decreases data.len() - pos, 0int,
{
    let t = data.take(k);
    let p = scan_msg(data, pos)->Found_1;
    lemma_scan_msg_bounds(data, pos);
    if pos >= k {
    } else {
        assert(t[pos] == data[pos]);
        let tag = data[pos];
        if tag == SIMPLE_BYTE {
            lemma_line_end(data, pos + 1);
            lemma_line_end_truncate(data, k, pos + 1);
            let e = line_end(data, pos + 1)->Some_0;
            if e + 2 <= k {
                assert forall|i: int| 0 <= i < e - (pos + 1) implies #[trigger] t.subrange(pos + 1, e)[i]
                    == data.subrange(pos + 1, e)[i] by {
                    assert(t[pos + 1 + i] == data[pos + 1 + i]);
                }
                assert(t.subrange(pos + 1, e) =~= data.subrange(pos + 1, e));
            }
        } else if tag == ARRAY_BYTE {
            match scan_len(data, pos + 1) {
                LenScan::Found(n, p1) => {
                    lemma_scan_len_bounds(data, pos + 1);
                    lemma_scan_len_truncate(data, k, pos + 1);
                    match scan_elems(data, p1, n) {
                        ElemsScan::Found(ms, q) => {
                            lemma_scan_elems_bounds(data, p1, n);
                            if p1 <= k {
                                lemma_scan_elems_truncate(data, k, p1, n);
                            }
                        },
                        _ => {},
                    }
                },
                _ => {},
            }
        } else if tag == BULK_BYTE {
            if pos + 1 >= k {
                if data[pos + 1] == ERROR_BYTE {
                    lemma_line_end(data, pos + 1);
                } else {
                    lemma_scan_len_bounds(data, pos + 1);
                }
            } else {
                assert(t[pos + 1] == data[pos + 1]);
                if data[pos + 1] == ERROR_BYTE {
                    lemma_line_end(data, pos + 1);
                    lemma_line_end_truncate(data, k, pos + 1);
                    let e = line_end(data, pos + 1)->Some_0;
                    if e + 2 <= k {
                        assert forall|i: int| 0 <= i < e - (pos + 1) implies #[trigger] t.subrange(
                            pos + 1,
                            e,
                        )[i] == data.subrange(pos + 1, e)[i] by {
                            assert(t[pos + 1 + i] == data[pos + 1 + i]);
                        }
                        assert(t.subrange(pos + 1, e) =~= data.subrange(pos + 1, e));
                    }
                } else {
                    match scan_len(data, pos + 1) {
                        LenScan::Found(n, p1) => {
                            lemma_scan_len_bounds(data, pos + 1);
                            lemma_scan_len_truncate(data, k, pos + 1);
                            if p1 <= k {
                                if p1 + n + 2 <= k {
                                    assert(t[p1 + n] == data[p1 + n]);
                                    assert(t[p1 + n + 1] == data[p1 + n + 1]);
                                    assert forall|i: int| 0 <= i < n implies #[trigger] t.subrange(
                                        p1,
                                        p1 + n,
                                    )[i] == data.subrange(p1, p1 + n)[i] by {
                                        assert(t[p1 + i] == data[p1 + i]);
                                    }
                                    assert(t.subrange(p1, p1 + n) =~= data.subrange(p1, p1 + n));
                                }
                            }
                        },
                        _ => {},
                    }
                }
            }
        }
    }
}

/// Truncation acts on a run of messages as it does on one message.
pub proof fn lemma_scan_elems_truncate(data: Seq<u8>, k: int, pos: int, n: int)
    requires
        0 <= pos <= k <= data.len(),
        scan_elems(data, pos, n) is Found,
    ensures
        ({
            let ms = scan_elems(data, pos, n)->Found_0;
            let q = scan_elems(data, pos, n)->Found_1;
            if q <= k {
                scan_elems(data.take(k), pos, n) == ElemsScan::Found(ms, q)
            } else {
                scan_elems(data.take(k), pos, n) == ElemsScan::Incomplete
            }
        }),
    decreases data.len() - pos, n,
{
    if n <= 0 {
    } else {
        match scan_msg(data, pos) {
            Scan::Found(m, p) => {
                lemma_scan_msg_bounds(data, pos);
                lemma_scan_msg_truncate(data, k, pos);
                match scan_elems(data, p, n - 1) {
                    ElemsScan::Found(ms2, q) => {
                        lemma_scan_elems_bounds(data, p, n - 1);
                        if p <= k {
                            lemma_scan_elems_truncate(data, k, p, n - 1);
                        }
                    },
                    _ => {},
                }
            },
            _ => {},
        }
    }
}

/// Partial-read resilience: feed the encoded bytes of a message in any
/// prefix-sized chunks and the scanner answers "incomplete" for every strict
/// prefix, and yields exactly the original message once the final byte is
/// there.
pub proof fn lemma_partial_reads(m: MessageView, k: int)
    requires
        encodable(m),
        0 <= k <= encode_msg(m).len(),
    ensures
        k < encode_msg(m).len() ==> scan_msg(encode_msg(m).take(k), 0) == Scan::Incomplete,
        k == encode_msg(m).len() ==> scan_msg(encode_msg(m).take(k), 0) == Scan::Found(m, k),
{
    let enc = encode_msg(m);
    lemma_round_trip(m);
    lemma_scan_msg_truncate(enc, k, 0);
}

/// Null is distinct from the empty bulk blob: their encodings differ, and
/// each decodes back to itself.
pub proof fn lemma_null_distinct()
    ensures
        scan_msg(encode_msg(MessageView::Null), 0) == Scan::Found(MessageView::Null, 5),
        scan_msg(encode_msg(MessageView::Bulk(Seq::empty())), 0) == Scan::Found(
            MessageView::Bulk(Seq::empty()),
            6,
        ),
        encode_msg(MessageView::Null) != encode_msg(MessageView::Bulk(Seq::empty())),
{
    lemma_round_trip(MessageView::Null);
    lemma_round_trip(MessageView::Bulk(Seq::empty()));
    lemma_dec_digits(0);
    assert(encode_msg(MessageView::Null).len() == 5);
    assert(encode_msg(MessageView::Bulk(Seq::empty())).len() == 6);
}

/// Scanning a run of messages consumes the first one and then the rest: the
/// unrolling that a loop over array elements follows.
pub proof fn lemma_scan_elems_step(data: Seq<u8>, pos: int, n: int)
    requires
        n >= 1,
        scan_msg(data, pos) matches Scan::Found(m, p),
    ensures
        scan_elems(data, pos, n) == with_prefix(
            seq![scan_msg(data, pos)->Found_0],
            scan_elems(data, scan_msg(data, pos)->Found_1, n - 1),
        ),
{
    lemma_scan_msg_bounds(data, pos);
    let p = scan_msg(data, pos)->Found_1;
    match scan_elems(data, p, n - 1) {
        ElemsScan::Found(ms, q) => {},
        _ => {},
    }
}

} // verus!
