use resp_kv::{DecodeError, Frame, Parser, Writer};

fn text(s: &str) -> String {
    s.to_string()
}

fn bulk(s: &str) -> Frame {
    Frame::BulkString(Some(text(s)))
}

#[test]
fn set_request_round_trips() {
    let frame = Frame::Array(vec![bulk("SET"), bulk("foo"), bulk("bar")]);
    let bytes = Writer::write(&frame);
    assert_eq!(bytes, b"*3\r\n$3\r\nSET\r\n$3\r\nfoo\r\n$3\r\nbar\r\n".to_vec());
    assert_eq!(Parser::parse(&bytes), Ok(frame));
}

#[test]
fn null_bulk_string_decodes() {
    assert_eq!(Parser::parse(b"$-1\r\n"), Ok(Frame::BulkString(None)));
}

#[test]
fn empty_array_decodes() {
    assert_eq!(Parser::parse(b"*0\r\n"), Ok(Frame::Array(vec![])));
}

#[test]
fn short_buffers_are_too_short() {
    assert_eq!(Parser::parse(b""), Err(DecodeError::BufferTooShort));
    assert_eq!(Parser::parse(b"+"), Err(DecodeError::BufferTooShort));
    assert_eq!(Parser::parse(b"*"), Err(DecodeError::BufferTooShort));
    assert_eq!(Parser::parse(b"x"), Err(DecodeError::BufferTooShort));
}

#[test]
fn bulk_string_shorter_than_declared_is_a_mismatch() {
    assert_eq!(Parser::parse(b"$3\r\nab\r\n"), Err(DecodeError::LengthMismatch));
}

#[test]
fn bulk_string_longer_than_declared_is_a_mismatch() {
    assert_eq!(Parser::parse(b"$1\r\nab\r\n"), Err(DecodeError::LengthMismatch));
}

#[test]
fn negative_bulk_length_other_than_minus_one_is_a_mismatch() {
    assert_eq!(Parser::parse(b"$-2\r\nab\r\n"), Err(DecodeError::LengthMismatch));
    assert_eq!(Parser::parse(b"$-2\r\n\r\n"), Err(DecodeError::LengthMismatch));
}

#[test]
fn bulk_string_without_its_bytes_is_a_mismatch() {
    assert_eq!(Parser::parse(b"$-2\r\n"), Err(DecodeError::LengthMismatch));
    assert_eq!(Parser::parse(b"$3\r\n"), Err(DecodeError::LengthMismatch));
    assert_eq!(Parser::parse(b"$3\r\nabc"), Err(DecodeError::LengthMismatch));
    assert_eq!(Parser::parse(b"$3\r\nabc\r"), Err(DecodeError::LengthMismatch));
    assert_eq!(Parser::parse(b"$3\r\nabc\n\r"), Err(DecodeError::LengthMismatch));
    assert_eq!(Parser::parse(b"$0\r\n"), Err(DecodeError::LengthMismatch));
}

#[test]
fn length_is_checked_before_the_text() {
    assert_eq!(Parser::parse(b"$3\r\n\xff\xff\r\n"), Err(DecodeError::LengthMismatch));
    assert_eq!(Parser::parse(b"$1\r\n\xff\xff\r\n"), Err(DecodeError::LengthMismatch));
    assert_eq!(Parser::parse(b"$2\r\n\xff\xff\r\n"), Err(DecodeError::InvalidEncoding));
}

#[test]
fn unknown_leading_byte_is_an_unknown_type() {
    assert_eq!(Parser::parse(b"hello\r\n"), Err(DecodeError::UnknownType));
    assert_eq!(Parser::parse(b"\r\n"), Err(DecodeError::UnknownType));
}

#[test]
fn missing_terminator_is_malformed() {
    assert_eq!(Parser::parse(b"+OK"), Err(DecodeError::MalformedFrame));
    assert_eq!(Parser::parse(b"+OK\n"), Err(DecodeError::MalformedFrame));
    assert_eq!(Parser::parse(b"-ERR\r"), Err(DecodeError::MalformedFrame));
    assert_eq!(Parser::parse(b":12"), Err(DecodeError::MalformedFrame));
    assert_eq!(Parser::parse(b"$3"), Err(DecodeError::MalformedFrame));
    assert_eq!(Parser::parse(b"$3\r"), Err(DecodeError::MalformedFrame));
    assert_eq!(Parser::parse(b"$-1"), Err(DecodeError::MalformedFrame));
    assert_eq!(Parser::parse(b"*2"), Err(DecodeError::MalformedFrame));
}

#[test]
fn invalid_utf8_is_an_invalid_encoding() {
    assert_eq!(Parser::parse(b"+\xff\r\n"), Err(DecodeError::InvalidEncoding));
    assert_eq!(Parser::parse(b"-\xc3\r\n"), Err(DecodeError::InvalidEncoding));
    assert_eq!(Parser::parse(b"$2\r\n\xc3\x28\r\n"), Err(DecodeError::InvalidEncoding));
}

#[test]
fn text_that_is_not_ascii_decodes() {
    assert_eq!(
        Parser::parse("+héllo ✓\r\n".as_bytes()),
        Ok(Frame::SimpleString(text("héllo ✓")))
    );
    assert_eq!(Parser::parse("$2\r\né\r\n".as_bytes()), Ok(bulk("é")));
}

#[test]
fn non_numeric_fields_are_invalid_numbers() {
    assert_eq!(Parser::parse(b":abc\r\n"), Err(DecodeError::InvalidNumber));
    assert_eq!(Parser::parse(b":\r\n"), Err(DecodeError::InvalidNumber));
    assert_eq!(Parser::parse(b":-\r\n"), Err(DecodeError::InvalidNumber));
    assert_eq!(Parser::parse(b":+\r\n"), Err(DecodeError::InvalidNumber));
    assert_eq!(Parser::parse(b":1 \r\n"), Err(DecodeError::InvalidNumber));
    assert_eq!(Parser::parse(b": 1\r\n"), Err(DecodeError::InvalidNumber));
    assert_eq!(Parser::parse(b":--1\r\n"), Err(DecodeError::InvalidNumber));
    assert_eq!(Parser::parse(b":1.5\r\n"), Err(DecodeError::InvalidNumber));
    assert_eq!(Parser::parse(b"$x\r\nabc\r\n"), Err(DecodeError::InvalidNumber));
    assert_eq!(Parser::parse(b"$\r\n\r\n"), Err(DecodeError::InvalidNumber));
    assert_eq!(Parser::parse(b"*x\r\n"), Err(DecodeError::InvalidNumber));
}

#[test]
fn integers_decode_with_their_signs() {
    assert_eq!(Parser::parse(b":0\r\n"), Ok(Frame::Integer(0)));
    assert_eq!(Parser::parse(b":42\r\n"), Ok(Frame::Integer(42)));
    assert_eq!(Parser::parse(b":-42\r\n"), Ok(Frame::Integer(-42)));
    assert_eq!(Parser::parse(b":+42\r\n"), Ok(Frame::Integer(42)));
    assert_eq!(Parser::parse(b":007\r\n"), Ok(Frame::Integer(7)));
    assert_eq!(Parser::parse(b":-0\r\n"), Ok(Frame::Integer(0)));
}

#[test]
fn integers_decode_up_to_the_limits_of_64_bits() {
    assert_eq!(
        Parser::parse(b":9223372036854775807\r\n"),
        Ok(Frame::Integer(i64::MAX))
    );
    assert_eq!(
        Parser::parse(b":-9223372036854775808\r\n"),
        Ok(Frame::Integer(i64::MIN))
    );
    assert_eq!(
        Parser::parse(b":9223372036854775808\r\n"),
        Err(DecodeError::InvalidNumber)
    );
    assert_eq!(
        Parser::parse(b":-9223372036854775809\r\n"),
        Err(DecodeError::InvalidNumber)
    );
}

#[test]
fn lengths_and_counts_are_32_bits_wide() {
    assert_eq!(Parser::parse(b"$2147483648\r\nab\r\n"), Err(DecodeError::InvalidNumber));
    assert_eq!(Parser::parse(b"*2147483648\r\n"), Err(DecodeError::InvalidNumber));
    assert_eq!(Parser::parse(b"$2147483647\r\nab\r\n"), Err(DecodeError::LengthMismatch));
    assert_eq!(Parser::parse(b"*2147483647\r\n"), Err(DecodeError::LengthMismatch));
    assert_eq!(Parser::parse(b"$-2147483649\r\n"), Err(DecodeError::InvalidNumber));
}

#[test]
fn simple_string_and_error_decode() {
    assert_eq!(Parser::parse(b"+OK\r\n"), Ok(Frame::SimpleString(text("OK"))));
    assert_eq!(Parser::parse(b"+\r\n"), Ok(Frame::SimpleString(text(""))));
    assert_eq!(
        Parser::parse(b"-ERR unknown\r\n"),
        Ok(Frame::Error(text("ERR unknown")))
    );
}

#[test]
fn bytes_after_the_first_value_are_ignored_at_the_top() {
    assert_eq!(Parser::parse(b"+OK\r\n+MORE\r\n"), Ok(Frame::SimpleString(text("OK"))));
    assert_eq!(Parser::parse(b":1\r\ngarbage"), Ok(Frame::Integer(1)));
    assert_eq!(Parser::parse(b"$-1\r\ngarbage"), Ok(Frame::BulkString(None)));
    assert_eq!(Parser::parse(b"$-1"), Err(DecodeError::MalformedFrame));
}

#[test]
fn empty_bulk_string_differs_from_the_null_one() {
    assert_eq!(Parser::parse(b"$0\r\n\r\n"), Ok(bulk("")));
    assert_ne!(Parser::parse(b"$0\r\n\r\n"), Ok(Frame::BulkString(None)));
}

#[test]
fn bulk_string_payload_is_the_bytes_that_its_length_counts() {
    assert_eq!(Parser::parse(b"$4\r\na\r\nb\r\n"), Ok(bulk("a\r\nb")));
    assert_eq!(Parser::parse(b"$2\r\n\r\n\r\n"), Ok(bulk("\r\n")));
    assert_eq!(Parser::parse(b"$1\r\na\r\nb\r\n"), Ok(bulk("a")));
    assert_eq!(Parser::parse(b"$2\r\na\r\nb\r\n"), Err(DecodeError::LengthMismatch));
    assert_eq!(Parser::parse(b"$6\r\nab\r\ncd\r\n"), Ok(bulk("ab\r\ncd")));
    assert_eq!(Parser::parse(b"$3\r\na\rb\r\n"), Ok(bulk("a\rb")));
    assert_eq!(Parser::parse(b"$3\r\na\nb\r\n"), Ok(bulk("a\nb")));
    assert_eq!(Parser::parse(b"$2\r\na\r\r\n"), Ok(bulk("a\r")));
}

#[test]
fn array_of_mixed_values_decodes() {
    assert_eq!(
        Parser::parse(b"*4\r\n+a\r\n-b\r\n:3\r\n$1\r\nd\r\n"),
        Ok(Frame::Array(vec![
            Frame::SimpleString(text("a")),
            Frame::Error(text("b")),
            Frame::Integer(3),
            bulk("d"),
        ]))
    );
}

#[test]
fn array_count_must_match_the_values_decoded() {
    assert_eq!(Parser::parse(b"*2\r\n:1\r\n"), Err(DecodeError::LengthMismatch));
    assert_eq!(Parser::parse(b"*1\r\n:1\r\n:2\r\n"), Err(DecodeError::LengthMismatch));
    assert_eq!(Parser::parse(b"*0\r\n:1\r\n"), Err(DecodeError::LengthMismatch));
    assert_eq!(Parser::parse(b"*-1\r\n"), Err(DecodeError::LengthMismatch));
}

#[test]
fn array_takes_the_buffer_up_to_its_end() {
    assert_eq!(Parser::parse(b"*1\r\n:1\r\nx"), Err(DecodeError::UnknownType));
    assert_eq!(Parser::parse(b"*1\r\n:1\r\n+"), Err(DecodeError::MalformedFrame));
    assert_eq!(Parser::parse(b"*1\r\n:1\r\n\r\n"), Err(DecodeError::UnknownType));
}

#[test]
fn failure_of_a_value_fails_the_array() {
    assert_eq!(Parser::parse(b"*2\r\n:1\r\n:x\r\n"), Err(DecodeError::InvalidNumber));
    assert_eq!(Parser::parse(b"*2\r\n:1\r\n$3\r\nab\r\n"), Err(DecodeError::LengthMismatch));
    assert_eq!(Parser::parse(b"*1\r\n+\xff\r\n"), Err(DecodeError::InvalidEncoding));
    assert_eq!(Parser::parse(b"*1\r\n?\r\n"), Err(DecodeError::UnknownType));
}

#[test]
fn nested_array_as_last_value_decodes() {
    let frame = Frame::Array(vec![
        Frame::Integer(1),
        Frame::Array(vec![Frame::Integer(2), Frame::Array(vec![])]),
    ]);
    let bytes = Writer::write(&frame);
    assert_eq!(bytes, b"*2\r\n:1\r\n*2\r\n:2\r\n*0\r\n".to_vec());
    assert_eq!(Parser::parse(&bytes), Ok(frame));
}

#[test]
fn nested_array_takes_the_values_that_follow_it() {
    let frame = Frame::Array(vec![Frame::Array(vec![Frame::Integer(1)]), Frame::Integer(2)]);
    let bytes = Writer::write(&frame);
    assert_eq!(bytes, b"*2\r\n*1\r\n:1\r\n:2\r\n".to_vec());
    assert_eq!(Parser::parse(&bytes), Err(DecodeError::LengthMismatch));
    assert_eq!(
        Parser::parse(b"*1\r\n*2\r\n:1\r\n:2\r\n"),
        Ok(Frame::Array(vec![Frame::Array(vec![Frame::Integer(1), Frame::Integer(2)])]))
    );
}

#[test]
fn null_bulk_string_in_an_array_is_read_back() {
    let frame = Frame::Array(vec![Frame::BulkString(None)]);
    let bytes = Writer::write(&frame);
    assert_eq!(bytes, b"*1\r\n$-1\r\n".to_vec());
    assert_eq!(Parser::parse(&bytes), Ok(frame));
    let frame = Frame::Array(vec![
        Frame::BulkString(None),
        bulk("a"),
        Frame::BulkString(None),
        Frame::Integer(1),
    ]);
    let bytes = Writer::write(&frame);
    assert_eq!(bytes, b"*4\r\n$-1\r\n$1\r\na\r\n$-1\r\n:1\r\n".to_vec());
    assert_eq!(Parser::parse(&bytes), Ok(frame));
}

#[test]
fn text_with_a_terminator_is_not_read_back() {
    let frame = Frame::SimpleString(text("a\r\nb"));
    let bytes = Writer::write(&frame);
    assert_eq!(bytes, b"+a\r\nb\r\n".to_vec());
    assert_eq!(Parser::parse(&bytes), Ok(Frame::SimpleString(text("a"))));
    let frame = Frame::Error(text("\r\n"));
    assert_eq!(Parser::parse(&Writer::write(&frame)), Ok(Frame::Error(text(""))));
}

#[test]
fn bulk_string_with_a_terminator_is_read_back() {
    let frame = bulk("a\r\nb");
    let bytes = Writer::write(&frame);
    assert_eq!(bytes, b"$4\r\na\r\nb\r\n".to_vec());
    assert_eq!(Parser::parse(&bytes), Ok(frame));
    let frame = Frame::Array(vec![bulk("\r\n"), bulk("x\r\n$1\r\ny"), Frame::Integer(2)]);
    assert_eq!(Parser::parse(&Writer::write(&frame)), Ok(frame));
}

#[test]
fn each_kind_of_value_encodes() {
    assert_eq!(Writer::write(&Frame::SimpleString(text("PONG"))), b"+PONG\r\n".to_vec());
    assert_eq!(
        Writer::write(&Frame::Error(text("Unknown command"))),
        b"-Unknown command\r\n".to_vec()
    );
    assert_eq!(Writer::write(&Frame::Integer(0)), b":0\r\n".to_vec());
    assert_eq!(Writer::write(&Frame::Integer(1234567890)), b":1234567890\r\n".to_vec());
    assert_eq!(Writer::write(&Frame::Integer(-7)), b":-7\r\n".to_vec());
    assert_eq!(Writer::write(&bulk("hello")), b"$5\r\nhello\r\n".to_vec());
    assert_eq!(Writer::write(&bulk("")), b"$0\r\n\r\n".to_vec());
    assert_eq!(Writer::write(&Frame::BulkString(None)), b"$-1\r\n".to_vec());
    assert_eq!(Writer::write(&Frame::Array(vec![])), b"*0\r\n".to_vec());
}

#[test]
fn bulk_string_length_counts_bytes() {
    assert_eq!(Writer::write(&bulk("é✓")), "$5\r\né✓\r\n".as_bytes().to_vec());
}

#[test]
fn integer_limits_encode_and_round_trip() {
    assert_eq!(
        Writer::write(&Frame::Integer(i64::MAX)),
        b":9223372036854775807\r\n".to_vec()
    );
    assert_eq!(
        Writer::write(&Frame::Integer(i64::MIN)),
        b":-9223372036854775808\r\n".to_vec()
    );
    for n in [i64::MIN, -10, -9, -1, 0, 1, 9, 10, 99, 100, i64::MAX] {
        let frame = Frame::Integer(n);
        assert_eq!(Parser::parse(&Writer::write(&frame)), Ok(frame));
    }
}

#[test]
fn long_array_encodes_its_count_in_decimal() {
    let items: Vec<Frame> = (0..12).map(Frame::Integer).collect();
    let bytes = Writer::write(&Frame::Array(items.clone()));
    assert!(bytes.starts_with(b"*12\r\n:0\r\n:1\r\n"));
    assert_eq!(Parser::parse(&bytes), Ok(Frame::Array(items)));
}

#[test]
fn values_that_are_read_back_round_trip() {
    let frames = vec![
        Frame::SimpleString(text("OK")),
        Frame::SimpleString(text("ends with a return\r")),
        Frame::Error(text("ERR Not Supported")),
        Frame::Integer(-1),
        bulk("with\nnewline"),
        bulk("with\r\nterminator"),
        Frame::Array(vec![Frame::BulkString(None), bulk("")]),
        Frame::BulkString(None),
        Frame::Array(vec![]),
        Frame::Array(vec![bulk("GET"), bulk("missing")]),
        Frame::Array(vec![bulk("a"), Frame::Array(vec![bulk("b"), Frame::Array(vec![bulk("c")])])]),
    ];
    for frame in frames {
        assert_eq!(Parser::parse(&Writer::write(&frame)), Ok(frame));
    }
}

#[test]
fn write_into_appends() {
    let mut out = b"+a\r\n".to_vec();
    Writer::write_into(&mut out, &Frame::Integer(5));
    assert_eq!(out, b"+a\r\n:5\r\n".to_vec());
}

#[test]
fn clone_copies_a_value() {
    let frame = Frame::Array(vec![bulk("a"), Frame::Array(vec![Frame::Integer(1)])]);
    assert_eq!(frame.clone(), frame);
}

#[test]
fn decode_errors_have_descriptions() {
    assert_eq!(DecodeError::BufferTooShort.description(), "Buffer too short");
    assert_eq!(DecodeError::UnknownType.description(), "Unknown RESP type");
    assert_eq!(DecodeError::MalformedFrame.description(), "Parse error");
    assert_eq!(DecodeError::InvalidEncoding.description(), "Invalid UTF-8 encoding");
    assert_eq!(DecodeError::InvalidNumber.description(), "Invalid number");
    assert_eq!(
        DecodeError::LengthMismatch.description(),
        "Buffer len doesn't match prefixed len"
    );
}
