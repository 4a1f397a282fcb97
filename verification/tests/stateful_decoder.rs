use bytes::BytesMut;
use resp_codec::error::CodecError;
use resp_codec::resp_stateful_codec::{ArrayContext, RedisValue, RespDecoder};

fn text(s: &str) -> String {
    s.to_string()
}

/// Feeds the fragments one by one and returns what the last attempt gave;
/// every attempt before it has to ask for more.
fn feed(decoder: &mut RespDecoder, fragments: &[&[u8]]) -> Result<Option<RedisValue>, CodecError> {
    let mut buffer = BytesMut::new();
    let mut last = Ok(None);
    for (i, fragment) in fragments.iter().enumerate() {
        buffer.extend_from_slice(fragment);
        last = decoder.decode(&mut buffer);
        if i + 1 < fragments.len() {
            assert_eq!(last, Ok(None), "fragment {} should leave the frame unfinished", i);
        }
    }
    last
}

fn decode_whole(bytes: &[u8]) -> Result<Option<RedisValue>, CodecError> {
    let mut decoder = RespDecoder::new();
    let mut buffer = BytesMut::from(bytes);
    decoder.decode(&mut buffer)
}

#[test]
fn simple_string() {
    let mut decoder = RespDecoder::new();
    let mut buffer = BytesMut::from(&b"+OK\r\n"[..]);
    assert_eq!(decoder.decode(&mut buffer), Ok(Some(RedisValue::SimpleString(text("OK")))));
    assert!(buffer.is_empty());
}

#[test]
fn error_reply() {
    assert_eq!(
        decode_whole(b"-ERR unknown command\r\n"),
        Ok(Some(RedisValue::Error(text("ERR unknown command"))))
    );
}

#[test]
fn integer_replies() {
    assert_eq!(decode_whole(b":0\r\n"), Ok(Some(RedisValue::Integer(0))));
    assert_eq!(decode_whole(b":1000\r\n"), Ok(Some(RedisValue::Integer(1000))));
    assert_eq!(decode_whole(b":-42\r\n"), Ok(Some(RedisValue::Integer(-42))));
    assert_eq!(decode_whole(b":+7\r\n"), Ok(Some(RedisValue::Integer(7))));
    assert_eq!(decode_whole(b":007\r\n"), Ok(Some(RedisValue::Integer(7))));
    assert_eq!(
        decode_whole(b":9223372036854775807\r\n"),
        Ok(Some(RedisValue::Integer(i64::MAX)))
    );
    assert_eq!(
        decode_whole(b":-9223372036854775808\r\n"),
        Ok(Some(RedisValue::Integer(i64::MIN)))
    );
}

#[test]
fn bulk_string() {
    let mut decoder = RespDecoder::new();
    let mut buffer = BytesMut::from(&b"$5\r\nhello\r\n+next\r\n"[..]);
    assert_eq!(
        decoder.decode(&mut buffer),
        Ok(Some(RedisValue::BulkString(Some(b"hello".to_vec()))))
    );
    assert_eq!(&buffer[..], b"+next\r\n");
    assert_eq!(decoder.decode(&mut buffer), Ok(Some(RedisValue::SimpleString(text("next")))));
    assert!(buffer.is_empty());
}

#[test]
fn bulk_string_is_binary_safe() {
    assert_eq!(
        decode_whole(b"$6\r\n\r\n\xff\x00\r\n\r\n"),
        Ok(Some(RedisValue::BulkString(Some(b"\r\n\xff\x00\r\n".to_vec()))))
    );
}

#[test]
fn absent_and_empty_bulk_string() {
    assert_eq!(decode_whole(b"$-1\r\n"), Ok(Some(RedisValue::BulkString(None))));
    assert_eq!(decode_whole(b"$0\r\n\r\n"), Ok(Some(RedisValue::BulkString(Some(Vec::new())))));
}

#[test]
fn absent_and_empty_array() {
    assert_eq!(decode_whole(b"*-1\r\n"), Ok(Some(RedisValue::Array(None))));
    assert_eq!(decode_whole(b"*0\r\n"), Ok(Some(RedisValue::Array(Some(Vec::new())))));
}

#[test]
fn flat_array() {
    assert_eq!(
        decode_whole(b"*3\r\n:1\r\n$3\r\nfoo\r\n+bar\r\n"),
        Ok(Some(RedisValue::Array(Some(vec![
            RedisValue::Integer(1),
            RedisValue::BulkString(Some(b"foo".to_vec())),
            RedisValue::SimpleString(text("bar")),
        ]))))
    );
}

fn three_deep() -> RedisValue {
    RedisValue::Array(Some(vec![RedisValue::Array(Some(vec![RedisValue::Array(Some(vec![
        RedisValue::Integer(5),
    ]))]))]))
}

#[test]
fn nested_arrays_in_one_piece() {
    assert_eq!(decode_whole(b"*1\r\n*1\r\n*1\r\n:5\r\n"), Ok(Some(three_deep())));
}

#[test]
fn nested_arrays_byte_by_byte() {
    let bytes = b"*1\r\n*1\r\n*1\r\n:5\r\n";
    let fragments: Vec<&[u8]> = bytes.chunks(1).collect();
    let mut decoder = RespDecoder::new();
    assert_eq!(feed(&mut decoder, &fragments), Ok(Some(three_deep())));
}

#[test]
fn arrays_that_close_several_at_once() {
    // the last element completes the inner array, which completes the outer one
    assert_eq!(
        decode_whole(b"*2\r\n:1\r\n*2\r\n*0\r\n*-1\r\n"),
        Ok(Some(RedisValue::Array(Some(vec![
            RedisValue::Integer(1),
            RedisValue::Array(Some(vec![
                RedisValue::Array(Some(Vec::new())),
                RedisValue::Array(None),
            ])),
        ]))))
    );
}

#[test]
fn unknown_tag_is_fatal() {
    assert_eq!(decode_whole(b"#1\r\n"), Err(CodecError::InvalidTag));
}

#[test]
fn unknown_tag_inside_an_array_is_fatal() {
    assert_eq!(decode_whole(b"*2\r\n:1\r\n?\r\n"), Err(CodecError::InvalidTag));
}

#[test]
fn text_that_is_not_utf8_is_fatal() {
    assert_eq!(decode_whole(b"+\xff\xfe\r\n"), Err(CodecError::InvalidEncoding));
    assert_eq!(decode_whole(b"-\xc3\r\n"), Err(CodecError::InvalidEncoding));
}

#[test]
fn text_in_utf8_is_kept() {
    assert_eq!(
        decode_whole("+h\u{e9}llo \u{4e16}\r\n".as_bytes()),
        Ok(Some(RedisValue::SimpleString(text("h\u{e9}llo \u{4e16}"))))
    );
}

#[test]
fn numbers_that_are_none_are_fatal() {
    assert_eq!(decode_whole(b":abc\r\n"), Err(CodecError::InvalidNumber));
    assert_eq!(decode_whole(b":\r\n"), Err(CodecError::InvalidNumber));
    assert_eq!(decode_whole(b":-\r\n"), Err(CodecError::InvalidNumber));
    assert_eq!(decode_whole(b": 42\r\n"), Err(CodecError::InvalidNumber));
    assert_eq!(decode_whole(b":12a\r\n"), Err(CodecError::InvalidNumber));
    assert_eq!(decode_whole(b":9223372036854775808\r\n"), Err(CodecError::InvalidNumber));
    assert_eq!(decode_whole(b"$x\r\n"), Err(CodecError::InvalidNumber));
    assert_eq!(decode_whole(b"*1.5\r\n"), Err(CodecError::InvalidNumber));
}

#[test]
fn lengths_below_minus_one_are_fatal() {
    assert_eq!(decode_whole(b"$-2\r\n"), Err(CodecError::InvalidNumber));
    assert_eq!(decode_whole(b"*-2\r\n"), Err(CodecError::InvalidNumber));
}

#[test]
fn empty_buffer_asks_for_more() {
    assert_eq!(decode_whole(b""), Ok(None));
}

#[test]
fn a_lone_tag_asks_for_more() {
    let mut decoder = RespDecoder::new();
    let mut buffer = BytesMut::from(&b"+"[..]);
    assert_eq!(decoder.decode(&mut buffer), Ok(None));
    buffer.extend_from_slice(b"OK\r");
    assert_eq!(decoder.decode(&mut buffer), Ok(None));
    buffer.extend_from_slice(b"\n");
    assert_eq!(decoder.decode(&mut buffer), Ok(Some(RedisValue::SimpleString(text("OK")))));
}

#[test]
fn short_payload_suspends_until_it_is_all_there() {
    let mut decoder = RespDecoder::new();
    let mut buffer = BytesMut::from(&b"$3\r\nab"[..]);
    assert_eq!(decoder.decode(&mut buffer), Ok(None));
    // the length line is gone from the buffer, the payload waits in it
    assert_eq!(&buffer[..], b"ab");
    buffer.extend_from_slice(b"c");
    assert_eq!(decoder.decode(&mut buffer), Ok(None));
    assert_eq!(&buffer[..], b"abc");
    buffer.extend_from_slice(b"\r");
    assert_eq!(decoder.decode(&mut buffer), Ok(None));
    buffer.extend_from_slice(b"\n");
    assert_eq!(decoder.decode(&mut buffer), Ok(Some(RedisValue::BulkString(Some(b"abc".to_vec())))));
    assert!(buffer.is_empty());
}

#[test]
fn cached_decode_reports_starvation_as_incomplete() {
    let mut decoder = RespDecoder::new();
    let mut buffer = BytesMut::from(&b":12"[..]);
    assert_eq!(decoder.cached_decode(&mut buffer), Err(CodecError::Incomplete));
    buffer.extend_from_slice(b"3\r\n");
    assert_eq!(decoder.cached_decode(&mut buffer), Ok(RedisValue::Integer(123)));
}

#[test]
fn every_split_in_two_gives_the_same_value() {
    let bytes: &[u8] = b"*3\r\n$7\r\nmessage\r\n*2\r\n:-12\r\n+ok\r\n$-1\r\n";
    let whole = decode_whole(bytes);
    assert_eq!(
        whole,
        Ok(Some(RedisValue::Array(Some(vec![
            RedisValue::BulkString(Some(b"message".to_vec())),
            RedisValue::Array(Some(vec![
                RedisValue::Integer(-12),
                RedisValue::SimpleString(text("ok")),
            ])),
            RedisValue::BulkString(None),
        ]))))
    );
    for cut in 1..bytes.len() {
        let mut decoder = RespDecoder::new();
        assert_eq!(feed(&mut decoder, &[&bytes[..cut], &bytes[cut..]]), whole, "cut at {}", cut);
    }
}

#[test]
fn every_split_in_three_gives_the_same_value() {
    let bytes: &[u8] = b"*2\r\n$4\r\na\r\nb\r\n*1\r\n-e\r\n";
    let whole = decode_whole(bytes);
    assert!(matches!(whole, Ok(Some(_))));
    for first in 1..bytes.len() {
        for second in first + 1..bytes.len() {
            let mut decoder = RespDecoder::new();
            assert_eq!(
                feed(&mut decoder, &[&bytes[..first], &bytes[first..second], &bytes[second..]]),
                whole,
                "cuts at {} and {}",
                first,
                second
            );
        }
    }
}

#[test]
fn frames_in_a_row_come_out_one_per_attempt() {
    let mut decoder = RespDecoder::new();
    let mut buffer = BytesMut::from(&b":1\r\n:2\r\n*1\r\n:3\r\n:4"[..]);
    assert_eq!(decoder.decode(&mut buffer), Ok(Some(RedisValue::Integer(1))));
    assert_eq!(decoder.decode(&mut buffer), Ok(Some(RedisValue::Integer(2))));
    assert_eq!(
        decoder.decode(&mut buffer),
        Ok(Some(RedisValue::Array(Some(vec![RedisValue::Integer(3)]))))
    );
    assert_eq!(decoder.decode(&mut buffer), Ok(None));
    buffer.extend_from_slice(b"\r\n");
    assert_eq!(decoder.decode(&mut buffer), Ok(Some(RedisValue::Integer(4))));
}

#[test]
fn the_scan_goes_on_where_it_stopped() {
    let mut decoder = RespDecoder::new();
    let mut buffer = BytesMut::new();
    buffer.extend_from_slice(b"+");
    assert_eq!(decoder.decode(&mut buffer), Ok(None));
    assert_eq!(decoder.scan_cursor(), 0);
    let line = b"a line that trickles in";
    for (i, byte) in line.iter().enumerate() {
        buffer.extend_from_slice(&[*byte]);
        assert_eq!(decoder.decode(&mut buffer), Ok(None));
        // all but the last byte are known to begin no terminator
        assert_eq!(decoder.scan_cursor(), i);
        assert_eq!(buffer.len(), i + 1);
    }
    buffer.extend_from_slice(b"\r");
    assert_eq!(decoder.decode(&mut buffer), Ok(None));
    assert_eq!(decoder.scan_cursor(), line.len());
    buffer.extend_from_slice(b"\n");
    assert_eq!(
        decoder.decode(&mut buffer),
        Ok(Some(RedisValue::SimpleString(text("a line that trickles in"))))
    );
    assert_eq!(decoder.scan_cursor(), 0);
}

#[test]
fn a_lone_carriage_return_is_part_of_the_line() {
    assert_eq!(decode_whole(b"+a\rb\r\n"), Ok(Some(RedisValue::SimpleString(text("a\rb")))));
    assert_eq!(decode_whole(b"+a\r\r\n"), Ok(Some(RedisValue::SimpleString(text("a\r")))));
}

#[test]
fn lines_up_to_the_limit_are_read() {
    let mut decoder = RespDecoder::with_line_limit(8);
    let mut buffer = BytesMut::from(&b"+12345678\r\n"[..]);
    assert_eq!(decoder.decode(&mut buffer), Ok(Some(RedisValue::SimpleString(text("12345678")))));
}

#[test]
fn a_line_over_the_limit_is_fatal() {
    let mut decoder = RespDecoder::with_line_limit(8);
    let mut buffer = BytesMut::from(&b"+123456789\r\n"[..]);
    assert_eq!(decoder.decode(&mut buffer), Err(CodecError::FrameTooLarge));
}

#[test]
fn an_unterminated_line_over_the_limit_is_fatal() {
    let mut decoder = RespDecoder::with_line_limit(8);
    let mut buffer = BytesMut::from(&b"+1234567890"[..]);
    assert_eq!(decoder.decode(&mut buffer), Ok(None));
    buffer.extend_from_slice(b"1");
    assert_eq!(decoder.decode(&mut buffer), Err(CodecError::FrameTooLarge));
}

#[test]
fn the_limit_does_not_bound_a_payload() {
    let mut decoder = RespDecoder::with_line_limit(4);
    let mut buffer = BytesMut::from(&b"$12\r\nhello, world\r\n"[..]);
    assert_eq!(
        decoder.decode(&mut buffer),
        Ok(Some(RedisValue::BulkString(Some(b"hello, world".to_vec()))))
    );
}

#[test]
fn default_is_new() {
    let mut decoder = RespDecoder::default();
    let mut buffer = BytesMut::from(&b":5\r\n"[..]);
    assert_eq!(decoder.decode(&mut buffer), Ok(Some(RedisValue::Integer(5))));
}

#[test]
fn array_context_counts_down() {
    let mut context = ArrayContext::new(2);
    assert!(!context.is_complete());
    context.push(RedisValue::Integer(1));
    assert!(!context.is_complete());
    context.push(RedisValue::BulkString(None));
    assert!(context.is_complete());
    assert_eq!(context.items(), vec![RedisValue::Integer(1), RedisValue::BulkString(None)]);
}

#[test]
fn array_context_of_nothing_is_complete() {
    let context = ArrayContext::new(0);
    assert!(context.is_complete());
    assert_eq!(context.items(), Vec::<RedisValue>::new());
}

#[test]
fn the_largest_limit_is_accepted() {
    let mut decoder = RespDecoder::with_line_limit(usize::MAX);
    let mut buffer = BytesMut::from(&b"+fine\r\n"[..]);
    assert_eq!(decoder.decode(&mut buffer), Ok(Some(RedisValue::SimpleString(text("fine")))));
}

#[test]
fn a_limit_of_nothing_admits_the_empty_line() {
    let mut decoder = RespDecoder::with_line_limit(0);
    let mut buffer = BytesMut::from(&b"+\r\n+a\r\n"[..]);
    assert_eq!(decoder.decode(&mut buffer), Ok(Some(RedisValue::SimpleString(String::new()))));
    assert_eq!(decoder.decode(&mut buffer), Err(CodecError::FrameTooLarge));
}

#[test]
fn the_bytes_after_a_payload_end_it_whatever_they_are() {
    let mut decoder = RespDecoder::new();
    let mut buffer = BytesMut::from(&b"$2\r\nabXY:1\r\n"[..]);
    assert_eq!(decoder.decode(&mut buffer), Ok(Some(RedisValue::BulkString(Some(b"ab".to_vec())))));
    assert_eq!(decoder.decode(&mut buffer), Ok(Some(RedisValue::Integer(1))));
}

#[test]
fn a_suspended_array_keeps_its_elements() {
    let mut decoder = RespDecoder::new();
    let mut buffer = BytesMut::from(&b"*2\r\n*1\r\n:1\r\n"[..]);
    assert_eq!(decoder.decode(&mut buffer), Ok(None));
    // what was read has left the buffer
    assert!(buffer.is_empty());
    buffer.extend_from_slice(b"+last\r\n");
    assert_eq!(
        decoder.decode(&mut buffer),
        Ok(Some(RedisValue::Array(Some(vec![
            RedisValue::Array(Some(vec![RedisValue::Integer(1)])),
            RedisValue::SimpleString(text("last")),
        ]))))
    );
}
