use vstd::prelude::*;
use crate::ascii::{COLON, CR, DOLLAR, LF, MINUS, ONE, PLUS, STAR};
use crate::decimal::{decimal, push_decimal};
use crate::cursor::Cursor;
use crate::frame::{Error, Frame, Scan, SpecFrame, lemma_views};
use crate::wire::{check_at, crlf, frame_bytes, read_at, value_bytes, values_bytes, value_writable, writable, Step};

verus! {

/// The buffers of a connection that carries frames: the bytes received and
/// not yet read as a frame, and the bytes written and not yet sent.
pub struct Connection {
    buffer: Vec<u8>,
    output: Vec<u8>,
}

/// What taking a frame from the received bytes `buf` gives: the frame, or
/// `None` while the frame is incomplete, with the number of bytes consumed;
/// or the error, which consumes nothing. The number consumed is where the
/// check of the frame ended.
pub open spec fn parse_outcome(buf: Seq<u8>) -> Step<Option<SpecFrame>> {
    match check_at(buf, 0) {
        Step::Done(_, len) => match read_at(buf, 0) {
            Step::Done(f, _) => Step::Done(Some(f), len),
            Step::Fail(e, _) => Step::Fail(e, 0),
            Step::Abort => Step::Abort,
        },
        Step::Fail(Error::IncompleteFrame, _) => Step::Done(None, 0),
        Step::Fail(e, _) => Step::Fail(e, 0),
        Step::Abort => Step::Abort,
    }
}

/// The value of an optional frame.
pub open spec fn option_view(f: Option<Frame>) -> Option<SpecFrame> {
    match f {
        Some(f) => Some(f@),
        None => None,
    }
}

/// What the reading loop is told happened since its last action.
pub enum ReadEvent {
    /// Nothing yet: the loop starts.
    Ready,
    /// These bytes arrived.
    Data(Vec<u8>),
    /// The peer closed its side of the stream.
    Eof,
}

/// What the reading loop does next.
pub enum ReadAction {
    /// Hand out this frame.
    Deliver(Frame),
    /// Read more bytes from the stream.
    Read,
    /// The stream ended between frames: there is no frame.
    Finish,
    /// The stream ended in the middle of a frame: the connection was reset.
    Reset,
    /// The received bytes do not encode a frame.
    Reject(Error),
    /// The received bytes hold an input the reader does not handle.
    Abort,
}

/// Appends all of `data` to `out`.
fn push_all(out: &mut Vec<u8>, data: &[u8])
    ensures
        final(out)@ == old(out)@ + data@,
{
    let mut i: usize = 0;
    while i < data.len()
        invariant
            i <= data@.len(),
            out@ == old(out)@ + data@.subrange(0, i as int),
        decreases data@.len() - i,
    {
        out.push(data[i]);
        i = i + 1;
        assert(out@ =~= old(out)@ + data@.subrange(0, i as int));
    }
    assert(data@.subrange(0, data@.len() as int) =~= data@);
}

impl Connection {
    /// The bytes received and not yet consumed by a frame.
    pub closed spec fn buffered(&self) -> Seq<u8> {
        self.buffer@
    }

    /// The bytes written and not yet handed out to be sent.
    pub closed spec fn pending(&self) -> Seq<u8> {
        self.output@
    }

    /// A connection with nothing received and nothing to send.
    pub fn new() -> (c: Self)
        ensures
            c.buffered() == Seq::<u8>::empty(),
            c.pending() == Seq::<u8>::empty(),
    {
        Connection { buffer: Vec::new(), output: Vec::new() }
    }

    fn write_decimal(&mut self, response: i64)
        ensures
            final(self).buffered() == old(self).buffered(),
            final(self).pending() == old(self).pending() + decimal(response as int) + crlf(),
    {
        push_decimal(&mut self.output, response);
        self.output.push(CR);
        self.output.push(LF);
        assert(self.output@ =~= old(self).pending() + decimal(response as int) + crlf());
    }

    fn write_value(&mut self, frame: &Frame)
        requires
            value_writable(frame@),
        ensures
            final(self).buffered() == old(self).buffered(),
            final(self).pending() == old(self).pending() + value_bytes(frame@),
    {
        let ghost before = self.output@;
        match frame {
            Frame::Simple(response) => {
                self.output.push(PLUS);
                push_all(&mut self.output, response.as_str().as_bytes());
                self.output.push(CR);
                self.output.push(LF);
                assert(self.output@ =~= before + value_bytes(frame@));
            },
            Frame::Error(response) => {
                self.output.push(MINUS);
                push_all(&mut self.output, response.as_str().as_bytes());
                self.output.push(CR);
                self.output.push(LF);
                assert(self.output@ =~= before + value_bytes(frame@));
            },
            Frame::Integer(response) => {
                self.output.push(COLON);
                self.write_decimal(*response);
                assert(self.output@ =~= before + value_bytes(frame@));
            },
            Frame::Bulk(response) => {
                self.output.push(DOLLAR);
                self.write_decimal(response.len() as i64);
                push_all(&mut self.output, response.as_slice());
                self.output.push(CR);
                self.output.push(LF);
                assert(self.output@ =~= before + value_bytes(frame@));
            },
            Frame::Array(_) => {
                assert(false);
            },
            Frame::Null => {
                self.output.push(MINUS);
                self.output.push(ONE);
                self.output.push(CR);
                self.output.push(LF);
                assert(self.output@ =~= before + value_bytes(frame@));
            },
        }
    }

    /// Writes a frame to the bytes to send.
    pub fn write_frame(&mut self, frame: Frame)
        requires
            writable(frame@),
        ensures
            final(self).buffered() == old(self).buffered(),
            final(self).pending() == old(self).pending() + frame_bytes(frame@),
    {
        let ghost before = self.output@;
        let ghost fv = frame@;
        match frame {
            Frame::Array(array) => {
                proof {
                    lemma_views(array@);
                    assert(fv == SpecFrame::Array(crate::frame::views(array@)));
                    assert forall|j: int| 0 <= j < array@.len() implies value_writable(
                        #[trigger] array@[j]@,
                    ) by {
                        assert(crate::frame::views(array@)[j] == array@[j]@);
                    }
                }
                self.output.push(STAR);
                self.write_decimal(array.len() as i64);
                let ghost head = self.output@;
                let mut i: usize = 0;
                while i < array.len()
                    invariant
                        i <= array@.len(),
                        array@.len() <= i64::MAX,
                        forall|j: int| 0 <= j < array@.len() ==> value_writable(#[trigger] array@[j]@),
                        self.buffer@ == old(self).buffered(),
                        self.output@ == head + values_bytes(
                            crate::frame::views(array@).subrange(0, i as int),
                        ),
                        crate::frame::views(array@).len() == array@.len(),
                        forall|j: int| 0 <= j < array@.len() ==> #[trigger] crate::frame::views(array@)[j] == array@[j]@,
                    decreases array@.len() - i,
                {
                    self.write_value(&array[i]);
                    i = i + 1;
                    proof {
                        let vs = crate::frame::views(array@);
                        assert(vs.subrange(0, i as int).drop_last() =~= vs.subrange(0, i - 1));
                    }
                }
                proof {
                    let vs = crate::frame::views(array@);
                    assert(vs.subrange(0, array@.len() as int) =~= vs);
                    assert(Frame::Array(array)@ == SpecFrame::Array(vs));
                }
                assert(self.output@ =~= before + frame_bytes(Frame::Array(array)@));
            },
            other => {
                self.write_value(&other);
            },
        }
    }

    /// Adds received bytes after those already buffered.
    pub fn receive(&mut self, data: &[u8])
        ensures
            final(self).buffered() == old(self).buffered() + data@,
            final(self).pending() == old(self).pending(),
    {
        push_all(&mut self.buffer, data);
    }

    /// Takes the frame at the front of the received bytes, if it is
    /// complete; `Aborted` where the reader meets an input it does not handle.
    pub fn scan_frame(&mut self) -> (r: Scan<Option<Frame>>)
        ensures
            final(self).pending() == old(self).pending(),
            match parse_outcome(old(self).buffered()) {
                Step::Done(f, n) => r matches Scan::Parsed(g) && option_view(g) == f
                    && final(self).buffered() == old(self).buffered().skip(n),
                Step::Fail(e, _) => r matches Scan::Rejected(e2) && e2 == e
                    && final(self).buffered() == old(self).buffered(),
                Step::Abort => r is Aborted && final(self).buffered() == old(self).buffered(),
            },
    {
        let ghost buf = self.buffer@;
        let checked;
        let len;
        {
            let mut cursor = Cursor::new(self.buffer.as_slice());
            checked = Frame::scan_check(&mut cursor);
            len = cursor.offset();
        }
        match checked {
            Scan::Parsed(()) => {},
            Scan::Rejected(Error::IncompleteFrame) => return Scan::Parsed(None),
            Scan::Rejected(e) => return Scan::Rejected(e),
            Scan::Aborted => return Scan::Aborted,
        }
        let frame;
        {
            let mut cursor = Cursor::new(self.buffer.as_slice());
            frame = match Frame::scan_frame(&mut cursor) {
                Scan::Parsed(f) => f,
                Scan::Rejected(e) => return Scan::Rejected(e),
                Scan::Aborted => return Scan::Aborted,
            };
        }
        let rest = self.buffer.split_off(len);
        self.buffer = rest;
        assert(self.buffer@ =~= buf.skip(len as int));
        Scan::Parsed(Some(frame))
    }

    /// Takes the frame at the front of the received bytes, if it is
    /// complete.
    pub fn parse_frame(&mut self) -> (r: Result<Option<Frame>, Error>)
        requires
            !(parse_outcome(old(self).buffered()) is Abort),
        ensures
            final(self).pending() == old(self).pending(),
            match parse_outcome(old(self).buffered()) {
                Step::Done(f, n) => r matches Ok(g) && option_view(g) == f
                    && final(self).buffered() == old(self).buffered().skip(n),
                Step::Fail(e, _) => r matches Err(e2) && e2 == e
                    && final(self).buffered() == old(self).buffered(),
                Step::Abort => false,
            },
    {
        match self.scan_frame() {
            Scan::Parsed(f) => Ok(f),
            Scan::Rejected(e) => Err(e),
            Scan::Aborted => {
                assert(false);
                Err(Error::InvalidEncoding)
            },
        }
    }

    /// One turn of the loop that reads a frame from a stream: given what
    /// happened since the last turn, what to do next.
    pub fn read_frame(&mut self, event: ReadEvent) -> (action: ReadAction)
        ensures
            final(self).pending() == old(self).pending(),
            match event {
                ReadEvent::Eof => final(self).buffered() == old(self).buffered() && if old(
                    self,
                ).buffered().len() == 0 {
                    action is Finish
                } else {
                    action is Reset
                },
                _ => {
                    let buf = match event {
                        ReadEvent::Data(d) => old(self).buffered() + d@,
                        _ => old(self).buffered(),
                    };
                    match parse_outcome(buf) {
                        Step::Done(Some(f), n) => action matches ReadAction::Deliver(g) && g@ == f
                            && final(self).buffered() == buf.skip(n),
                        Step::Done(None, _) => action is Read && final(self).buffered() == buf,
                        Step::Fail(e, _) => action matches ReadAction::Reject(e2) && e2 == e
                            && final(self).buffered() == buf,
                        Step::Abort => action is Abort && final(self).buffered() == buf,
                    }
                },
            },
    {
        match event {
            ReadEvent::Eof => {
                return if self.buffer.len() == 0 {
                    ReadAction::Finish
                } else {
                    ReadAction::Reset
                };
            },
            ReadEvent::Data(data) => {
                self.receive(data.as_slice());
            },
            ReadEvent::Ready => {},
        }
        match self.scan_frame() {
            Scan::Parsed(Some(frame)) => ReadAction::Deliver(frame),
            Scan::Parsed(None) => ReadAction::Read,
            Scan::Rejected(e) => ReadAction::Reject(e),
            Scan::Aborted => ReadAction::Abort,
        }
    }

    /// Hands out the bytes written so far, and forgets them.
    pub fn take_output(&mut self) -> (out: Vec<u8>)
        ensures
            out@ == old(self).pending(),
            final(self).pending() == Seq::<u8>::empty(),
            final(self).buffered() == old(self).buffered(),
    {
        let mut out: Vec<u8> = Vec::new();
        std::mem::swap(&mut out, &mut self.output);
        out
    }
}

} // verus!
