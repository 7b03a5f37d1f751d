use my_redis::connection::{Connection, ReadAction, ReadEvent};
use my_redis::frame::Scan;
use my_redis::{Cursor, Error, Frame};

fn written(frame: Frame) -> Vec<u8> {
    let mut connection = Connection::new();
    connection.write_frame(frame);
    connection.take_output()
}

#[test]
fn write_frame_writes_a_resp_array() {
    let expected = b"*3\r\n+OK\r\n$5\r\nhello\r\n:7\r\n";
    let actual = written(Frame::Array(vec![
        Frame::Simple("OK".into()),
        Frame::Bulk(b"hello".to_vec()),
        Frame::Integer(7),
    ]));
    assert_eq!(actual, expected);
}

#[test]
fn write_frame_writes_a_resp_integer() {
    let expected = b":42\r\n";
    let actual = written(Frame::Integer(42));
    assert_eq!(actual, expected);
}

#[test]
fn read_frame_reads_consecutive_frames_and_end_of_stream() {
    let mut connection = Connection::new();
    match connection.read_frame(ReadEvent::Ready) {
        ReadAction::Read => {}
        _ => panic!("expected to read"),
    }
    match connection.read_frame(ReadEvent::Data(b"+OK\r\n:7\r\n".to_vec())) {
        ReadAction::Deliver(frame) => assert_eq!(frame, Frame::Simple("OK".into())),
        _ => panic!("expected a simple frame"),
    }
    match connection.read_frame(ReadEvent::Ready) {
        ReadAction::Deliver(frame) => assert_eq!(frame, Frame::Integer(7)),
        _ => panic!("expected an integer frame"),
    }
    match connection.read_frame(ReadEvent::Ready) {
        ReadAction::Read => {}
        _ => panic!("expected to read"),
    }
    assert!(matches!(connection.read_frame(ReadEvent::Eof), ReadAction::Finish));
}

#[test]
fn read_frame_reports_a_reset_when_the_stream_ends_inside_a_frame() {
    let mut connection = Connection::new();
    assert!(matches!(
        connection.read_frame(ReadEvent::Data(b"$5\r\nhel".to_vec())),
        ReadAction::Read
    ));
    assert!(matches!(connection.read_frame(ReadEvent::Eof), ReadAction::Reset));
}

#[test]
fn read_frame_waits_for_a_frame_split_across_reads() {
    let mut connection = Connection::new();
    assert!(matches!(
        connection.read_frame(ReadEvent::Data(b"*2\r\n$5\r\nhel".to_vec())),
        ReadAction::Read
    ));
    match connection.read_frame(ReadEvent::Data(b"lo\r\n:3\r\n".to_vec())) {
        ReadAction::Deliver(frame) => assert_eq!(
            frame,
            Frame::Array(vec![Frame::Bulk(b"hello".to_vec()), Frame::Integer(3)])
        ),
        _ => panic!("expected an array"),
    }
}

#[test]
fn read_frame_rejects_an_invalid_frame_and_keeps_the_bytes() {
    let mut connection = Connection::new();
    match connection.read_frame(ReadEvent::Data(b":x\r\n".to_vec())) {
        ReadAction::Reject(e) => assert_eq!(e, Error::InvalidEncoding),
        _ => panic!("expected a rejection"),
    }
    assert_eq!(connection.parse_frame(), Err(Error::InvalidEncoding));
}

#[test]
fn read_frame_aborts_on_an_unknown_type_byte() {
    let mut connection = Connection::new();
    assert!(matches!(
        connection.read_frame(ReadEvent::Data(b"!\r\n".to_vec())),
        ReadAction::Abort
    ));
}

#[test]
fn parse_frame_takes_only_the_checked_bytes() {
    let mut connection = Connection::new();
    connection.receive(b"$-1xx\r\n+OK\r\n");
    assert_eq!(connection.parse_frame(), Ok(Some(Frame::Null)));
    assert!(matches!(connection.scan_frame(), Scan::Aborted));
}

fn sample_frames() -> Vec<Frame> {
    vec![
        Frame::Simple("OK".into()),
        Frame::Error("ERR wrong".into()),
        Frame::Integer(i64::MIN),
        Frame::Integer(i64::MAX),
        Frame::Integer(0),
        Frame::Bulk(b"a\r\nb".to_vec()),
        Frame::Bulk(vec![]),
        Frame::Array(vec![]),
        Frame::Array(vec![Frame::Integer(-1), Frame::Bulk(b"xy".to_vec())]),
    ]
}

#[test]
fn written_frames_read_back() {
    for i in 0..sample_frames().len() {
        let bytes = written(sample_frames().remove(i));
        let frame = sample_frames().remove(i);
        let mut cursor = Cursor::new(bytes.as_slice());
        assert_eq!(Frame::check(&mut cursor), Ok(()));
        assert_eq!(cursor.position(), bytes.len() as u64);
        let mut cursor = Cursor::new(bytes.as_slice());
        assert_eq!(Frame::read_frame(&mut cursor), Ok(frame));
        assert_eq!(cursor.position(), bytes.len() as u64);
    }
}

#[test]
fn null_is_written_as_an_error_frame() {
    let bytes = written(Frame::Null);
    assert_eq!(bytes, b"-1\r\n");
    let mut cursor = Cursor::new(bytes.as_slice());
    assert_eq!(Frame::read_frame(&mut cursor), Ok(Frame::Error("1".into())));
}

#[test]
fn a_simple_string_holding_a_line_end_is_cut_there() {
    let bytes = written(Frame::Simple("a\r\nb".into()));
    let mut cursor = Cursor::new(bytes.as_slice());
    assert_eq!(Frame::read_frame(&mut cursor), Ok(Frame::Simple("a".into())));
    assert_eq!(cursor.position(), 4);
}

#[test]
fn every_proper_prefix_of_a_written_frame_is_incomplete() {
    let bytes = written(Frame::Array(vec![
        Frame::Simple("OK".into()),
        Frame::Bulk(b"hello".to_vec()),
        Frame::Integer(-7),
    ]));
    for k in 0..bytes.len() {
        let mut cursor = Cursor::new(&bytes[..k]);
        assert_eq!(Frame::check(&mut cursor), Err(Error::IncompleteFrame), "{k}");
    }
}

#[test]
fn bytes_after_a_frame_are_kept_for_the_next_one() {
    let mut bytes = written(Frame::Integer(5));
    bytes.extend_from_slice(b"+next\r\n");
    let mut connection = Connection::new();
    connection.receive(&bytes);
    assert_eq!(connection.parse_frame(), Ok(Some(Frame::Integer(5))));
    assert_eq!(connection.parse_frame(), Ok(Some(Frame::Simple("next".into()))));
    assert_eq!(connection.parse_frame(), Ok(None));
}

#[test]
fn take_output_empties_the_pending_bytes() {
    let mut connection = Connection::new();
    connection.write_frame(Frame::Integer(1));
    assert_eq!(connection.take_output(), b":1\r\n");
    assert_eq!(connection.take_output(), b"");
}

#[test]
fn frames_do_not_depend_on_how_reads_split_the_bytes() {
    let stream = b"*2\r\n$-1\r\n:5\r\n+OK\r\n$3\r\nabc\r\n";
    for split in 1..stream.len() {
        let mut connection = Connection::new();
        let mut frames = Vec::new();
        let mut chunks = stream.chunks(split);
        let mut event = ReadEvent::Ready;
        loop {
            match connection.read_frame(event) {
                ReadAction::Deliver(frame) => {
                    frames.push(frame);
                    event = ReadEvent::Ready;
                }
                ReadAction::Read => {
                    event = match chunks.next() {
                        Some(chunk) => ReadEvent::Data(chunk.to_vec()),
                        None => ReadEvent::Eof,
                    };
                }
                ReadAction::Finish => break,
                _ => panic!("unexpected action for split {split}"),
            }
        }
        assert_eq!(
            frames,
            vec![
                Frame::Array(vec![Frame::Null, Frame::Integer(5)]),
                Frame::Simple("OK".into()),
                Frame::Bulk(b"abc".to_vec()),
            ],
            "{split}"
        );
    }
}
