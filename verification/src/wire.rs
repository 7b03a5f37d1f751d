//! What the reader does with a byte sequence, written as spec functions over
//! the sequence and a position in it.
use vstd::prelude::*;
use vstd::utf8::{decode_utf8, encode_utf8, valid_utf8};
use crate::ascii::{COLON, CR, DOLLAR, LF, MINUS, ONE, PLUS, STAR};
use crate::decimal::{atoi_value, decimal};
use crate::frame::{Error, SpecFrame};

verus! {

/// The outcome of reading a value from a position of a byte sequence.
pub enum Step<T> {
    /// The value, and the position just after it.
    Done(T, int),
    /// The error, and the position the reader stopped at.
    Fail(Error, int),
    /// The input is outside what the reader handles; it gives no result.
    Abort,
}

/// The index of the first `\r\n` in `s` that starts at `from` or later.
pub open spec fn line_end(s: Seq<u8>, from: int) -> Option<int>
    decreases s.len() - from,
{
    if from + 1 >= s.len() {
        None
    } else if s[from] == CR && s[from + 1] == LF {
        Some(from)
    } else {
        line_end(s, from + 1)
    }
}

pub proof fn lemma_line_end(s: Seq<u8>, from: int)
    ensures
        line_end(s, from) matches Some(e) ==> {
            &&& from <= e
            &&& e + 2 <= s.len()
            &&& s[e] == CR
            &&& s[e + 1] == LF
            &&& forall|i: int| from <= i < e ==> !(#[trigger] s[i] == CR && s[i + 1] == LF)
        },
        line_end(s, from) is None ==> forall|i: int|
            from <= i && i + 1 < s.len() ==> !(#[trigger] s[i] == CR && s[i + 1] == LF),
    decreases s.len() - from,
{
    if from + 1 < s.len() && !(s[from] == CR && s[from + 1] == LF) {
        lemma_line_end(s, from + 1);
    }
}

/// A line: the bytes from `p` up to the next `\r\n`; the reader then stands
/// after the `\r\n`.
pub open spec fn line_at(s: Seq<u8>, p: int) -> Step<Seq<u8>> {
    match line_end(s, p) {
        Some(e) => Step::Done(s.subrange(p, e), e + 2),
        None => Step::Fail(Error::IncompleteFrame, p),
    }
}

/// A line that holds a decimal number, as `atoi` reads it.
pub open spec fn decimal_at(s: Seq<u8>, p: int) -> Step<i64> {
    match line_at(s, p) {
        Step::Done(line, q) => match atoi_value(line) {
            Some(v) => Step::Done(v, q),
            None => Step::Fail(Error::InvalidEncoding, q),
        },
        Step::Fail(e, q) => Step::Fail(e, q),
        Step::Abort => Step::Abort,
    }
}

/// Passing over `n` bytes from `p`.
pub open spec fn skip_at(s: Seq<u8>, p: int, n: int) -> Step<()> {
    if n > s.len() - p {
        Step::Fail(Error::IncompleteFrame, p)
    } else {
        Step::Done((), p + n)
    }
}

/// Where the check of a frame that starts at `p` ends, or why it stops.
pub open spec fn check_at(s: Seq<u8>, p: int) -> Step<()>
    decreases s.len() - p, 0int,
{
    if p < 0 || p >= s.len() {
        Step::Fail(Error::IncompleteFrame, p)
    } else {
        let tag = s[p];
        let q = p + 1;
        if tag == PLUS || tag == MINUS {
            match line_at(s, q) {
                Step::Done(_, r) => Step::Done((), r),
                Step::Fail(e, r) => Step::Fail(e, r),
                Step::Abort => Step::Abort,
            }
        } else if tag == COLON {
            match decimal_at(s, q) {
                Step::Done(_, r) => Step::Done((), r),
                Step::Fail(e, r) => Step::Fail(e, r),
                Step::Abort => Step::Abort,
            }
        } else if tag == DOLLAR || tag == STAR {
            if q >= s.len() {
                Step::Fail(Error::IncompleteFrame, q)
            } else if s[q] == MINUS {
                skip_at(s, q, 4)
            } else {
                match decimal_at(s, q) {
                    Step::Done(n, r) => if tag == DOLLAR {
                        skip_at(s, r, n + 2)
                    } else {
                        proof {
                            lemma_line_end(s, q);
                        }
                        check_elems(s, r, n as int)
                    },
                    Step::Fail(e, r) => Step::Fail(e, r),
                    Step::Abort => Step::Abort,
                }
            }
        } else {
            Step::Abort
        }
    }
}

/// The check of `n` frames, one after the other, from `p`.
pub open spec fn check_elems(s: Seq<u8>, p: int, n: int) -> Step<()>
    decreases s.len() - p, 1int,
{
    if n <= 0 {
        Step::Done((), p)
    } else {
        match check_at(s, p) {
            // every frame takes at least one byte, which bounds the recursion
            Step::Done(_, r) => if p < r <= s.len() {
                check_elems(s, r, n - 1)
            } else {
                Step::Abort
            },
            Step::Fail(e, r) => Step::Fail(e, r),
            Step::Abort => Step::Abort,
        }
    }
}

/// The frame that starts at `p`, where it ends, or why it cannot be read.
pub open spec fn read_at(s: Seq<u8>, p: int) -> Step<SpecFrame>
    decreases s.len() - p, 0int,
{
    if p < 0 || p >= s.len() {
        Step::Fail(Error::IncompleteFrame, p)
    } else {
        let tag = s[p];
        let q = p + 1;
        if tag == PLUS || tag == MINUS {
            match line_at(s, q) {
                Step::Done(line, r) => if valid_utf8(line) {
                    if tag == PLUS {
                        Step::Done(SpecFrame::Simple(decode_utf8(line)), r)
                    } else {
                        Step::Done(SpecFrame::Error(decode_utf8(line)), r)
                    }
                } else {
                    Step::Abort
                },
                Step::Fail(e, r) => Step::Fail(e, r),
                Step::Abort => Step::Abort,
            }
        } else if tag == COLON {
            match decimal_at(s, q) {
                Step::Done(v, r) => Step::Done(SpecFrame::Integer(v), r),
                Step::Fail(e, r) => Step::Fail(e, r),
                Step::Abort => Step::Abort,
            }
        } else if tag == DOLLAR || tag == STAR {
            match decimal_at(s, q) {
                Step::Done(n, r) => if n < 0 {
                    if n != -1 {
                        Step::Fail(Error::InvalidEncoding, r)
                    } else {
                        Step::Done(SpecFrame::Null, r)
                    }
                } else if tag == DOLLAR {
                    if n > s.len() - r {
                        Step::Abort
                    } else {
                        match skip_at(s, r + n, 2) {
                            Step::Done(_, r2) => Step::Done(
                                SpecFrame::Bulk(s.subrange(r, r + n)),
                                r2,
                            ),
                            Step::Fail(e, r2) => Step::Fail(e, r2),
                            Step::Abort => Step::Abort,
                        }
                    }
                } else {
                    proof {
                        lemma_line_end(s, q);
                    }
                    array_of(read_elems(s, r, n as int))
                }
                Step::Fail(e, r) => Step::Fail(e, r),
                Step::Abort => Step::Abort,
            }
        } else {
            Step::Abort
        }
    }
}

/// The array of the frames that `st` reads.
pub open spec fn array_of(st: Step<Seq<SpecFrame>>) -> Step<SpecFrame> {
    match st {
        Step::Done(items, p) => Step::Done(SpecFrame::Array(items), p),
        Step::Fail(e, p) => Step::Fail(e, p),
        Step::Abort => Step::Abort,
    }
}

/// The `n` frames that follow one another from `p`.
pub open spec fn read_elems(s: Seq<u8>, p: int, n: int) -> Step<Seq<SpecFrame>>
    decreases s.len() - p, 1int,
{
    if n <= 0 {
        Step::Done(Seq::empty(), p)
    } else {
        match read_at(s, p) {
            // every frame takes at least one byte, which bounds the recursion
            Step::Done(f, r) => if p < r <= s.len() {
                match read_elems(s, r, n - 1) {
                    Step::Done(rest, r2) => Step::Done(seq![f] + rest, r2),
                    Step::Fail(e, r2) => Step::Fail(e, r2),
                    Step::Abort => Step::Abort,
                }
            } else {
                Step::Abort
            },
            Step::Fail(e, r) => Step::Fail(e, r),
            Step::Abort => Step::Abort,
        }
    }
}

/// The two bytes that end every line.
pub open spec fn crlf() -> Seq<u8> {
    seq![CR, LF]
}

/// The bytes the writer sends for a frame that is not an array.
pub open spec fn value_bytes(f: SpecFrame) -> Seq<u8> {
    match f {
        SpecFrame::Simple(text) => seq![PLUS] + encode_utf8(text) + crlf(),
        SpecFrame::Error(text) => seq![MINUS] + encode_utf8(text) + crlf(),
        SpecFrame::Integer(v) => seq![COLON] + decimal(v as int) + crlf(),
        SpecFrame::Bulk(data) => seq![DOLLAR] + decimal(data.len() as int) + crlf() + data + crlf(),
        SpecFrame::Null => seq![MINUS, ONE] + crlf(),
        SpecFrame::Array(_) => Seq::empty(),
    }
}

/// The bytes the writer sends for a sequence of frames, one after the other.
pub open spec fn values_bytes(items: Seq<SpecFrame>) -> Seq<u8>
    decreases items.len(),
{
    if items.len() == 0 {
        Seq::empty()
    } else {
        values_bytes(items.drop_last()) + value_bytes(items.last())
    }
}

/// The bytes the writer sends for a frame.
pub open spec fn frame_bytes(f: SpecFrame) -> Seq<u8> {
    match f {
        SpecFrame::Array(items) => seq![STAR] + decimal(items.len() as int) + crlf() + values_bytes(
            items,
        ),
        _ => value_bytes(f),
    }
}

/// A frame the writer can send inside an array: not an array itself, and a
/// length that an `i64` holds.
pub open spec fn value_writable(f: SpecFrame) -> bool {
    match f {
        SpecFrame::Array(_) => false,
        SpecFrame::Bulk(data) => data.len() <= i64::MAX,
        _ => true,
    }
}

/// A frame the writer can send: an array of frames that are not arrays, or a
/// frame that is not an array.
pub open spec fn writable(f: SpecFrame) -> bool {
    match f {
        SpecFrame::Array(items) => items.len() <= i64::MAX && forall|i: int|
            0 <= i < items.len() ==> value_writable(#[trigger] items[i]),
        _ => value_writable(f),
    }
}

} // verus!
