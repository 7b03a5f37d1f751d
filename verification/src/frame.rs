use vstd::prelude::*;
use vstd::utf8::{decode_utf8, valid_utf8};
use crate::ascii::{COLON, CR, DOLLAR, LF, MINUS, PLUS, STAR};
use crate::cursor::Cursor;
use crate::decimal::atoi_i64;
use crate::wire::{value_writable, writable, check_at, check_elems, decimal_at, line_at, line_end, lemma_line_end, read_at, read_elems, skip_at, array_of, Step};

verus! {

/// Why a frame could not be read.
#[derive(Debug, Clone, Copy, PartialEq, Eq, Structural)]
pub enum Error {
    /// Not enough data is available to parse a message
    IncompleteFrame,
    /// Invalid message encoding
    InvalidEncoding,
}

impl Error {
    /// The name of the error, as a message.
    pub fn to_string(&self) -> (s: String)
        ensures
            s@ == match self {
                Error::IncompleteFrame => "IncompleteFrame"@,
                Error::InvalidEncoding => "InvalidEncoding"@,
            },
    {
        match self {
            Error::IncompleteFrame => "IncompleteFrame".to_string(),
            Error::InvalidEncoding => "InvalidEncoding".to_string(),
        }
    }
}

/// A RESP value.
#[derive(Debug, PartialEq, Eq)]
pub enum Frame {
    Simple(String),
    Error(String),
    Integer(i64),
    Bulk(Vec<u8>),
    Null,
    Array(Vec<Frame>),
}

/// The mathematical value of a frame: strings as their characters, byte
/// strings and arrays as sequences.
pub enum SpecFrame {
    Simple(Seq<char>),
    Error(Seq<char>),
    Integer(i64),
    Bulk(Seq<u8>),
    Null,
    Array(Seq<SpecFrame>),
}

/// The value of a frame.
pub open spec fn spec_frame(f: Frame) -> SpecFrame
    decreases f,
{
    match f {
        Frame::Simple(s) => SpecFrame::Simple(s@),
        Frame::Error(s) => SpecFrame::Error(s@),
        Frame::Integer(i) => SpecFrame::Integer(i),
        Frame::Bulk(b) => SpecFrame::Bulk(b@),
        Frame::Null => SpecFrame::Null,
        Frame::Array(v) => SpecFrame::Array(views(v@)),
    }
}

/// The values of a sequence of frames.
pub open spec fn views(v: Seq<Frame>) -> Seq<SpecFrame>
    decreases v,
{
    if v.len() == 0 {
        Seq::empty()
    } else {
        views(v.drop_last()).push(spec_frame(v.last()))
    }
}

impl View for Frame {
    type V = SpecFrame;

    open spec fn view(&self) -> SpecFrame {
        spec_frame(*self)
    }
}

/// `views` keeps the length and maps each frame to its value.
pub proof fn lemma_views(v: Seq<Frame>)
    ensures
        views(v).len() == v.len(),
        forall|i: int| 0 <= i < v.len() ==> #[trigger] views(v)[i] == v[i]@,
    decreases v.len(),
{
    if v.len() > 0 {
        lemma_views(v.drop_last());
    }
}

/// The result of a reader that may meet an input it does not handle.
pub enum Scan<T> {
    /// The value read.
    Parsed(T),
    /// The reason the input was refused.
    Rejected(Error),
    /// The input is outside what the reader handles (an unknown type byte, a
    /// simple string or error that is not UTF-8, a bulk string shorter than
    /// its announced length).
    Aborted,
}

/// `r` is what the reader gives for the outcome `st`, and `end` is where it
/// stands; an outcome that aborts has no `Result`.
pub open spec fn result_agrees<T: View>(st: Step<T::V>, r: Result<T, Error>, end: int) -> bool {
    match st {
        Step::Done(v, p) => r matches Ok(x) && x@ == v && end == p,
        Step::Fail(e, p) => r matches Err(e2) && e2 == e && end == p,
        Step::Abort => false,
    }
}

/// `r` is what the reader gives for the outcome `st`, and `end` is where it
/// stands unless it aborted.
pub open spec fn scan_agrees<T: View>(st: Step<T::V>, r: Scan<T>, end: int) -> bool {
    match st {
        Step::Done(v, p) => r matches Scan::Parsed(x) && x@ == v && end == p,
        Step::Fail(e, p) => r matches Scan::Rejected(e2) && e2 == e && end == p,
        Step::Abort => r is Aborted,
    }
}

/// `pre` in front of the frames that `st` reads.
pub open spec fn prefixed(pre: Seq<SpecFrame>, st: Step<Seq<SpecFrame>>) -> Step<Seq<SpecFrame>> {
    match st {
        Step::Done(rest, p) => Step::Done(pre + rest, p),
        Step::Fail(e, p) => Step::Fail(e, p),
        Step::Abort => Step::Abort,
    }
}

/// `String::from_utf8` from std: it gives a string exactly when the bytes
/// are valid UTF-8, and then the string's characters are their decoding.
#[verifier::external_body]
fn string_from_utf8(bytes: Vec<u8>) -> (r: Option<String>)
    ensures
        r is Some <==> valid_utf8(bytes@),
        r matches Some(s) ==> s@ == decode_utf8(bytes@),
{
    String::from_utf8(bytes).ok()
}

/// A copy of a slice.
pub(crate) fn copy_bytes(b: &[u8]) -> (v: Vec<u8>)
    ensures
        v@ == b@,
{
    let mut v: Vec<u8> = Vec::new();
    let mut i: usize = 0;
    while i < b.len()
        invariant
            i <= b@.len(),
            v@ == b@.subrange(0, i as int),
        decreases b@.len() - i,
    {
        v.push(b[i]);
        i = i + 1;
        assert(v@ =~= b@.subrange(0, i as int));
    }
    assert(b@.subrange(0, b@.len() as int) =~= b@);
    v
}

impl Frame {
    fn is_writable_value(&self) -> (r: bool)
        ensures
            r == value_writable(self@),
    {
        match self {
            Frame::Array(_) => false,
            Frame::Bulk(data) => data.len() as u64 <= i64::MAX as u64,
            _ => true,
        }
    }

    /// Whether the writer can send this frame: arrays may not nest, and
    /// lengths must fit in an `i64`.
    pub fn is_writable(&self) -> (r: bool)
        ensures
            r == writable(self@),
    {
        match self {
            Frame::Array(items) => {
                proof { lemma_views(items@); }
                if items.len() as u64 > i64::MAX as u64 {
                    return false;
                }
                let mut i: usize = 0;
                while i < items.len()
                    invariant
                        i <= items@.len(),
                        self@ == SpecFrame::Array(views(items@)),
                        views(items@).len() == items@.len(),
                        forall|j: int| 0 <= j < items@.len() ==> #[trigger] views(items@)[j] == items@[j]@,
                        forall|j: int| 0 <= j < i ==> value_writable(#[trigger] views(items@)[j]),
                    decreases items@.len() - i,
                {
                    if !items[i].is_writable_value() {
                        assert(!value_writable(views(items@)[i as int]));
                        return false;
                    }
                    i = i + 1;
                }
                true
            },
            _ => self.is_writable_value(),
        }
    }

    /// Reads the byte at the cursor's position and moves past it.
    pub fn get_u8(bytes: &mut Cursor) -> (r: Result<u8, Error>)
        ensures
            final(bytes).bytes() == old(bytes).bytes(),
            old(bytes).pos() < old(bytes).bytes().len() ==> r == Ok::<u8, Error>(
                old(bytes).bytes()[old(bytes).pos()],
            ) && final(bytes).pos() == old(bytes).pos() + 1,
            old(bytes).pos() >= old(bytes).bytes().len() ==> r == Err::<u8, Error>(
                Error::IncompleteFrame,
            ) && final(bytes).pos() == old(bytes).pos(),
    {
        if bytes.remaining() < 1 {
            return Err(Error::IncompleteFrame);
        }
        Ok(bytes.get_u8())
    }

    /// The byte at the cursor's position; the cursor does not move.
    pub fn peek_u8(bytes: &mut Cursor) -> (r: Result<u8, Error>)
        ensures
            *final(bytes) == *old(bytes),
            old(bytes).pos() < old(bytes).bytes().len() ==> r == Ok::<u8, Error>(
                old(bytes).bytes()[old(bytes).pos()],
            ),
            old(bytes).pos() >= old(bytes).bytes().len() ==> r == Err::<u8, Error>(
                Error::IncompleteFrame,
            ),
    {
        if bytes.remaining() < 1 {
            return Err(Error::IncompleteFrame);
        }
        let p = bytes.offset();
        Ok(bytes.get_ref()[p])
    }

    /// Moves the cursor past `n` bytes, if there are that many.
    pub fn skip(bytes: &mut Cursor, n: u64) -> (r: Result<(), Error>)
        ensures
            final(bytes).bytes() == old(bytes).bytes(),
            result_agrees(skip_at(old(bytes).bytes(), old(bytes).pos(), n as int), r, final(bytes).pos()),
    {
        let remaining = bytes.remaining();
        if n > remaining as u64 {
            return Err(Error::IncompleteFrame);
        }
        bytes.advance(n as usize);
        Ok(())
    }

    /// The bytes up to the first `\r\n` at or after the cursor's position;
    /// the cursor moves past the `\r\n`.
    pub fn get_line<'a>(bytes: &mut Cursor<'a>) -> (r: Result<&'a [u8], Error>)
        ensures
            final(bytes).bytes() == old(bytes).bytes(),
            result_agrees(line_at(old(bytes).bytes(), old(bytes).pos()), r, final(bytes).pos()),
    {
        let ghost s = bytes.bytes();
        let remaining = bytes.remaining();
        let start = bytes.offset();
        let array = bytes.get_ref();
        if array.len() == 0 {
            return Err(Error::IncompleteFrame);
        }
        let end = array.len() - 1;
        let mut i = start;
        while i < end
            invariant
                array@ == s,
                s == old(bytes).bytes(),
                start == old(bytes).pos(),
                bytes.bytes() == s,
                bytes.pos() == start,
                start <= i,
                end == s.len() - 1,
                line_end(s, start as int) == line_end(s, i as int),
            decreases end - i,
        {
            if array[i] == CR && array[i + 1] == LF {
                bytes.set_position(i as u64 + 2);
                return Ok(&array[start..i]);
            }
            i = i + 1;
        }
        Err(Error::IncompleteFrame)
    }

    /// The number that `atoi` reads from the next line.
    pub fn get_decimal(bytes: &mut Cursor) -> (r: Result<i64, Error>)
        ensures
            final(bytes).bytes() == old(bytes).bytes(),
            result_agrees(decimal_at(old(bytes).bytes(), old(bytes).pos()), r, final(bytes).pos()),
    {
        let slice = Self::get_line(bytes)?;
        match atoi_i64(slice) {
            Some(v) => Ok(v),
            None => Err(Error::InvalidEncoding),
        }
    }

    /// Checks whether a complete frame starts at the cursor's position, and
    /// moves past it; `Aborted` where the reader meets a type byte it does
    /// not know.
    pub fn scan_check(bytes: &mut Cursor) -> (r: Scan<()>)
        ensures
            final(bytes).bytes() == old(bytes).bytes(),
            scan_agrees(check_at(old(bytes).bytes(), old(bytes).pos()), r, final(bytes).pos()),
            r is Parsed ==> old(bytes).pos() < final(bytes).pos() <= final(bytes).bytes().len(),
        decreases old(bytes).bytes().len() - old(bytes).pos(),
    {
        let ghost s = bytes.bytes();
        let ghost p0 = bytes.pos();
        proof { bytes.lemma_pos_in_bounds(); }
        let tag = match Self::get_u8(bytes) {
            Ok(b) => b,
            Err(e) => return Scan::Rejected(e),
        };
        if tag == PLUS || tag == MINUS {
            match Self::get_line(bytes) {
                Ok(_) => {
                    proof { lemma_line_end(s, p0 + 1); }
                    Scan::Parsed(())
                },
                Err(e) => Scan::Rejected(e),
            }
        } else if tag == COLON {
            match Self::get_decimal(bytes) {
                Ok(_) => {
                    proof { lemma_line_end(s, p0 + 1); }
                    Scan::Parsed(())
                },
                Err(e) => Scan::Rejected(e),
            }
        } else if tag == DOLLAR || tag == STAR {
            let next = match Self::peek_u8(bytes) {
                Ok(b) => b,
                Err(e) => return Scan::Rejected(e),
            };
            if next == MINUS {
                match Self::skip(bytes, 4) {
                    Ok(()) => Scan::Parsed(()),
                    Err(e) => Scan::Rejected(e),
                }
            } else {
                let length = match Self::get_decimal(bytes) {
                    Ok(n) => n,
                    Err(e) => return Scan::Rejected(e),
                };
                proof { lemma_line_end(s, p0 + 1); }
                assert(length >= 0);
                if tag == DOLLAR {
                    match Self::skip(bytes, length as u64 + 2) {
                        Ok(()) => Scan::Parsed(()),
                        Err(e) => Scan::Rejected(e),
                    }
                } else {
                    let ghost r0 = bytes.pos();
                    let mut k: i64 = 0;
                    while k < length
                        invariant
                            bytes.bytes() == s,
                            s == old(bytes).bytes(),
                            p0 == old(bytes).pos(),
                            0 <= k <= length,
                            p0 < r0 <= bytes.pos() <= s.len(),
                            check_at(s, p0) == check_elems(s, r0, length as int),
                            check_elems(s, r0, length as int) == check_elems(s, bytes.pos(), (length - k) as int),
                        decreases length - k,
                    {
                        match Self::scan_check(bytes) {
                            Scan::Parsed(()) => {},
                            Scan::Rejected(e) => return Scan::Rejected(e),
                            Scan::Aborted => return Scan::Aborted,
                        }
                        k = k + 1;
                    }
                    Scan::Parsed(())
                }
            }
        } else {
            Scan::Aborted
        }
    }

    /// Checks whether a complete frame starts at the cursor's position, and
    /// moves past it.
    pub fn check(bytes: &mut Cursor) -> (r: Result<(), Error>)
        requires
            !(check_at(old(bytes).bytes(), old(bytes).pos()) is Abort),
        ensures
            final(bytes).bytes() == old(bytes).bytes(),
            result_agrees(check_at(old(bytes).bytes(), old(bytes).pos()), r, final(bytes).pos()),
    {
        match Self::scan_check(bytes) {
            Scan::Parsed(()) => Ok(()),
            Scan::Rejected(e) => Err(e),
            Scan::Aborted => {
                assert(false);
                Err(Error::InvalidEncoding)
            },
        }
    }

    /// Reads the frame that starts at the cursor's position, and moves past
    /// it; `Aborted` where the reader meets an input it does not handle.
    pub fn scan_frame(bytes: &mut Cursor) -> (r: Scan<Frame>)
        ensures
            final(bytes).bytes() == old(bytes).bytes(),
            scan_agrees(read_at(old(bytes).bytes(), old(bytes).pos()), r, final(bytes).pos()),
            r is Parsed ==> old(bytes).pos() < final(bytes).pos() <= final(bytes).bytes().len(),
        decreases old(bytes).bytes().len() - old(bytes).pos(),
    {
        let ghost s = bytes.bytes();
        let ghost p0 = bytes.pos();
        proof { bytes.lemma_pos_in_bounds(); }
        let tag = match Self::get_u8(bytes) {
            Ok(b) => b,
            Err(e) => return Scan::Rejected(e),
        };
        if tag == PLUS || tag == MINUS {
            let line = match Self::get_line(bytes) {
                Ok(l) => l,
                Err(e) => return Scan::Rejected(e),
            };
            proof { lemma_line_end(s, p0 + 1); }
            match string_from_utf8(copy_bytes(line)) {
                Some(text) => if tag == PLUS {
                    Scan::Parsed(Frame::Simple(text))
                } else {
                    Scan::Parsed(Frame::Error(text))
                },
                None => Scan::Aborted,
            }
        } else if tag == COLON {
            match Self::get_decimal(bytes) {
                Ok(v) => {
                    proof { lemma_line_end(s, p0 + 1); }
                    Scan::Parsed(Frame::Integer(v))
                },
                Err(e) => Scan::Rejected(e),
            }
        } else if tag == DOLLAR || tag == STAR {
            let length = match Self::get_decimal(bytes) {
                Ok(n) => n,
                Err(e) => return Scan::Rejected(e),
            };
            proof { lemma_line_end(s, p0 + 1); }
            if length < 0 {
                if length != -1 {
                    Scan::Rejected(Error::InvalidEncoding)
                } else {
                    Scan::Parsed(Frame::Null)
                }
            } else if tag == DOLLAR {
                let remaining = bytes.remaining();
                if length as u64 > remaining as u64 {
                    return Scan::Aborted;
                }
                let data = bytes.copy_to_vec(length as usize);
                match Self::skip(bytes, 2) {
                    Ok(()) => Scan::Parsed(Frame::Bulk(data)),
                    Err(e) => Scan::Rejected(e),
                }
            } else {
                let ghost r0 = bytes.pos();
                let mut items: Vec<Frame> = Vec::new();
                let mut k: i64 = 0;
                while k < length
                    invariant
                        bytes.bytes() == s,
                        s == old(bytes).bytes(),
                        p0 == old(bytes).pos(),
                        0 <= k <= length,
                        items.len() == k,
                        p0 < r0 <= bytes.pos() <= s.len(),
                        read_at(s, p0) == array_of(read_elems(s, r0, length as int)),
                        read_elems(s, r0, length as int) == prefixed(
                            views(items@),
                            read_elems(s, bytes.pos(), (length - k) as int),
                        ),
                    decreases length - k,
                {
                    let ghost before = views(items@);
                    let item = match Self::scan_frame(bytes) {
                        Scan::Parsed(f) => f,
                        Scan::Rejected(e) => return Scan::Rejected(e),
                        Scan::Aborted => return Scan::Aborted,
                    };
                    let ghost f = item@;
                    let ghost old_items = items@;
                    items.push(item);
                    k = k + 1;
                    proof {
                        assert(items@.drop_last() =~= old_items);
                        assert(views(items@) =~= before + seq![f]);
                        let rest = read_elems(s, bytes.pos(), (length - k) as int);
                        if let Step::Done(fs, q) = rest {
                            assert(before + (seq![f] + fs) =~= (before + seq![f]) + fs);
                        }
                    }
                }
                proof {
                    assert(items@.len() == length);
                }
                let ghost vs = views(items@);
                let frame = Frame::Array(items);
                assert(vs + Seq::<SpecFrame>::empty() =~= vs);
                Scan::Parsed(frame)
            }
        } else {
            Scan::Aborted
        }
    }

    /// Reads the frame that starts at the cursor's position, and moves past
    /// it.
    pub fn read_frame(bytes: &mut Cursor) -> (r: Result<Frame, Error>)
        requires
            !(read_at(old(bytes).bytes(), old(bytes).pos()) is Abort),
        ensures
            final(bytes).bytes() == old(bytes).bytes(),
            result_agrees(read_at(old(bytes).bytes(), old(bytes).pos()), r, final(bytes).pos()),
    {
        match Self::scan_frame(bytes) {
            Scan::Parsed(f) => Ok(f),
            Scan::Rejected(e) => Err(e),
            Scan::Aborted => {
                assert(false);
                Err(Error::InvalidEncoding)
            },
        }
    }
}

} // verus!
