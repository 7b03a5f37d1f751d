use my_redis::frame::Scan;
use my_redis::{Cursor, Error, Frame};

#[test]
fn check_accepts_complete_frames() {
    for input in [
        b"+OK\r\n".as_slice(),
        b"-ERR unknown command\r\n",
        b":42\r\n",
        b"$5\r\nhello\r\n",
        b"$-1\r\n",
        b"*-1\r\n",
        b"*2\r\n+OK\r\n:1\r\n",
    ] {
        let mut cursor = Cursor::new(input);
        assert!(Frame::check(&mut cursor).is_ok(), "{input:?}");
        assert_eq!(cursor.position(), input.len() as u64);
    }
}

#[test]
fn check_rejects_incomplete_frames() {
    for input in [
        b"+OK\r".as_slice(),
        b":42",
        b"$5\r\nhell",
        b"$-1\r",
        b"*2\r\n+OK\r\n:1",
    ] {
        let mut cursor = Cursor::new(input);
        assert!(
            matches!(Frame::check(&mut cursor), Err(Error::IncompleteFrame)),
            "{input:?}"
        );
    }
}

#[test]
fn decode_decodes_scalar_frames() {
    let cases = [
        (b"+OK\r\n".as_slice(), Frame::Simple("OK".into())),
        (
            b"-ERR unknown command\r\n",
            Frame::Error("ERR unknown command".into()),
        ),
        (b":-42\r\n", Frame::Integer(-42)),
        (b"$5\r\nhello\r\n", Frame::Bulk(b"hello".to_vec())),
        (b"$-1\r\n", Frame::Null),
    ];

    for (input, expected) in cases {
        let mut cursor = Cursor::new(input);
        let actual = Frame::read_frame(&mut cursor).unwrap();
        assert_eq!(actual, expected);
        assert_eq!(cursor.position(), input.len() as u64);
    }
}

#[test]
fn decode_decodes_arrays_and_null_arrays() {
    let input = b"*3\r\n+OK\r\n$5\r\nhello\r\n:7\r\n";
    let mut cursor = Cursor::new(input.as_slice());

    let actual = Frame::read_frame(&mut cursor).unwrap();
    assert_eq!(
        actual,
        Frame::Array(vec![
            Frame::Simple("OK".into()),
            Frame::Bulk(b"hello".to_vec()),
            Frame::Integer(7),
        ])
    );
    assert_eq!(cursor.position(), input.len() as u64);

    let mut cursor = Cursor::new(b"*-1\r\n".as_slice());
    assert_eq!(Frame::read_frame(&mut cursor).unwrap(), Frame::Null);
}

#[test]
fn check_reports_an_empty_input_as_incomplete() {
    let mut cursor = Cursor::new(b"".as_slice());
    assert_eq!(Frame::check(&mut cursor), Err(Error::IncompleteFrame));
    assert_eq!(cursor.position(), 0);
}

#[test]
fn check_refuses_a_length_that_is_not_a_number() {
    let mut cursor = Cursor::new(b"$abc\r\nxyz\r\n".as_slice());
    assert_eq!(Frame::check(&mut cursor), Err(Error::InvalidEncoding));
    assert_eq!(cursor.position(), 6);
}

#[test]
fn check_skips_four_bytes_after_a_negative_length() {
    let mut cursor = Cursor::new(b"*-12\r\n".as_slice());
    assert_eq!(Frame::check(&mut cursor), Ok(()));
    assert_eq!(cursor.position(), 5);
}

#[test]
fn check_stops_at_an_unknown_type_byte() {
    let mut cursor = Cursor::new(b"?x\r\n".as_slice());
    assert!(matches!(Frame::scan_check(&mut cursor), Scan::Aborted));
}

#[test]
fn read_refuses_negative_lengths_other_than_minus_one() {
    for input in [b"$-2\r\n".as_slice(), b"*-5\r\n"] {
        let mut cursor = Cursor::new(input);
        assert_eq!(Frame::read_frame(&mut cursor), Err(Error::InvalidEncoding));
        assert_eq!(cursor.position(), input.len() as u64);
    }
}

#[test]
fn read_ignores_what_follows_the_digits_of_an_integer() {
    let mut cursor = Cursor::new(b":42abc\r\n".as_slice());
    assert_eq!(Frame::read_frame(&mut cursor), Ok(Frame::Integer(42)));
    assert_eq!(cursor.position(), 8);
}

#[test]
fn read_takes_a_lone_sign_as_zero() {
    let mut cursor = Cursor::new(b":-\r\n".as_slice());
    assert_eq!(Frame::read_frame(&mut cursor), Ok(Frame::Integer(0)));
}

#[test]
fn read_refuses_an_integer_without_digits() {
    for input in [b":\r\n".as_slice(), b":x1\r\n"] {
        let mut cursor = Cursor::new(input);
        assert_eq!(Frame::read_frame(&mut cursor), Err(Error::InvalidEncoding));
    }
}

#[test]
fn read_refuses_an_integer_that_overflows() {
    let mut cursor = Cursor::new(b":9223372036854775808\r\n".as_slice());
    assert_eq!(Frame::read_frame(&mut cursor), Err(Error::InvalidEncoding));
    let mut cursor = Cursor::new(b":-9223372036854775808\r\n".as_slice());
    assert_eq!(Frame::read_frame(&mut cursor), Ok(Frame::Integer(i64::MIN)));
}

#[test]
fn read_keeps_bulk_bytes_that_hold_line_ends() {
    let mut cursor = Cursor::new(b"$4\r\na\r\nb\r\n".as_slice());
    assert_eq!(Frame::read_frame(&mut cursor), Ok(Frame::Bulk(b"a\r\nb".to_vec())));
    assert_eq!(cursor.position(), 10);
}

#[test]
fn read_reports_a_missing_line_end_after_bulk_data() {
    let mut cursor = Cursor::new(b"$2\r\nab".as_slice());
    assert_eq!(Frame::read_frame(&mut cursor), Err(Error::IncompleteFrame));
    assert_eq!(cursor.position(), 6);
}

#[test]
fn read_stops_on_bulk_data_shorter_than_announced() {
    let mut cursor = Cursor::new(b"$5\r\nhel".as_slice());
    assert!(matches!(Frame::scan_frame(&mut cursor), Scan::Aborted));
}

#[test]
fn read_stops_on_a_simple_string_that_is_not_utf8() {
    let mut cursor = Cursor::new(b"+\xff\xfe\r\n".as_slice());
    assert!(matches!(Frame::scan_frame(&mut cursor), Scan::Aborted));
}

#[test]
fn read_decodes_utf8_simple_strings() {
    let mut cursor = Cursor::new("+héllo\r\n".as_bytes());
    assert_eq!(Frame::read_frame(&mut cursor), Ok(Frame::Simple("héllo".into())));
}

#[test]
fn read_reads_nested_arrays() {
    let mut cursor = Cursor::new(b"*2\r\n*1\r\n:1\r\n*0\r\n".as_slice());
    assert_eq!(
        Frame::read_frame(&mut cursor),
        Ok(Frame::Array(vec![
            Frame::Array(vec![Frame::Integer(1)]),
            Frame::Array(vec![]),
        ]))
    );
    assert_eq!(cursor.position(), 16);
}

#[test]
fn read_reports_where_an_array_element_failed() {
    let mut cursor = Cursor::new(b"*2\r\n:1\r\n:x\r\n".as_slice());
    assert_eq!(Frame::read_frame(&mut cursor), Err(Error::InvalidEncoding));
    assert_eq!(cursor.position(), 12);
}

#[test]
fn is_writable_refuses_nested_arrays() {
    assert!(Frame::Array(vec![Frame::Integer(1), Frame::Null]).is_writable());
    assert!(!Frame::Array(vec![Frame::Array(vec![])]).is_writable());
    assert!(Frame::Bulk(vec![1, 2]).is_writable());
}

#[test]
fn error_messages_name_the_variant() {
    assert_eq!(Error::IncompleteFrame.to_string(), "IncompleteFrame");
    assert_eq!(Error::InvalidEncoding.to_string(), "InvalidEncoding");
}

#[test]
fn read_back_nested_arrays_and_nulls_in_resp() {
    let input = b"*3\r\n*2\r\n$-1\r\n*-1\r\n$4\r\na\r\nb\r\n*1\r\n-ERR x\r\n+rest";
    let mut cursor = Cursor::new(input.as_slice());
    assert_eq!(Frame::check(&mut cursor), Ok(()));
    assert_eq!(cursor.position(), 40);
    let mut cursor = Cursor::new(input.as_slice());
    assert_eq!(
        Frame::read_frame(&mut cursor),
        Ok(Frame::Array(vec![
            Frame::Array(vec![Frame::Null, Frame::Null]),
            Frame::Bulk(b"a\r\nb".to_vec()),
            Frame::Array(vec![Frame::Error("ERR x".into())]),
        ]))
    );
    assert_eq!(cursor.position(), 40);
    for k in 0..40 {
        let mut cursor = Cursor::new(&input[..k]);
        assert_eq!(Frame::check(&mut cursor), Err(Error::IncompleteFrame), "{k}");
    }
}

#[test]
fn an_invalid_encoding_stays_invalid_when_bytes_follow() {
    for input in [b"*2\r\n:1\r\n:x\r\n".as_slice(), b"*2\r\n:1\r\n:x\r\n+OK\r\n"] {
        let mut cursor = Cursor::new(input);
        assert_eq!(Frame::check(&mut cursor), Err(Error::InvalidEncoding));
        assert_eq!(cursor.position(), 12);
    }
}

#[test]
fn helpers_read_bytes_and_lines() {
    let mut cursor = Cursor::new(b"ab\r\ncd".as_slice());
    assert_eq!(Frame::peek_u8(&mut cursor), Ok(b'a'));
    assert_eq!(cursor.position(), 0);
    assert_eq!(Frame::get_u8(&mut cursor), Ok(b'a'));
    assert_eq!(Frame::get_line(&mut cursor), Ok(b"b".as_slice()));
    assert_eq!(cursor.position(), 4);
    assert_eq!(Frame::get_line(&mut cursor), Err(Error::IncompleteFrame));
    assert_eq!(cursor.position(), 4);
    assert_eq!(Frame::skip(&mut cursor, 3), Err(Error::IncompleteFrame));
    assert_eq!(Frame::skip(&mut cursor, 2), Ok(()));
    assert_eq!(cursor.position(), 6);
    assert_eq!(Frame::get_u8(&mut cursor), Err(Error::IncompleteFrame));
    assert_eq!(Frame::peek_u8(&mut cursor), Err(Error::IncompleteFrame));
}

#[test]
fn get_decimal_reads_a_signed_line() {
    let mut cursor = Cursor::new(b"-17\r\n".as_slice());
    assert_eq!(Frame::get_decimal(&mut cursor), Ok(-17));
    assert_eq!(cursor.position(), 5);
}

#[test]
fn a_huge_declared_array_length_is_incomplete() {
    let mut cursor = Cursor::new(b"*9223372036854775807\r\n+OK\r\n".as_slice());
    assert_eq!(Frame::check(&mut cursor), Err(Error::IncompleteFrame));
}
