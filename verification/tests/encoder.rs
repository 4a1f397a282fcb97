use bytes::BytesMut;
use resp_codec::resp::encoder::{encode_value, resp_encode};
use resp_codec::resp::RespCodec;
use resp_codec::resp_stateful_codec::{RedisValue, RespDecoder};

fn encoded(value: RedisValue) -> Vec<u8> {
    let mut buffer = BytesMut::new();
    resp_encode(value, &mut buffer);
    buffer.to_vec()
}

fn sample() -> RedisValue {
    RedisValue::Array(Some(vec![
        RedisValue::SimpleString("OK".to_string()),
        RedisValue::Error("ERR no".to_string()),
        RedisValue::Integer(-9000),
        RedisValue::BulkString(Some(b"bin\r\nary\x00\xff".to_vec())),
        RedisValue::BulkString(None),
        RedisValue::BulkString(Some(Vec::new())),
        RedisValue::Array(None),
        RedisValue::Array(Some(Vec::new())),
        RedisValue::Array(Some(vec![RedisValue::Array(Some(vec![RedisValue::Integer(i64::MIN)]))])),
    ]))
}

#[test]
fn encodes_simple_string() {
    assert_eq!(encoded(RedisValue::SimpleString("OK".to_string())), b"+OK\r\n");
}

#[test]
fn encodes_error() {
    assert_eq!(encoded(RedisValue::Error("ERR x".to_string())), b"-ERR x\r\n");
}

#[test]
fn encodes_integers() {
    assert_eq!(encoded(RedisValue::Integer(0)), b":0\r\n");
    assert_eq!(encoded(RedisValue::Integer(1234567890)), b":1234567890\r\n");
    assert_eq!(encoded(RedisValue::Integer(-42)), b":-42\r\n");
    assert_eq!(encoded(RedisValue::Integer(i64::MAX)), b":9223372036854775807\r\n");
    assert_eq!(encoded(RedisValue::Integer(i64::MIN)), b":-9223372036854775808\r\n");
}

#[test]
fn encodes_bulk_strings() {
    assert_eq!(encoded(RedisValue::BulkString(Some(b"hello".to_vec()))), b"$5\r\nhello\r\n");
    assert_eq!(encoded(RedisValue::BulkString(Some(Vec::new()))), b"$0\r\n\r\n");
    assert_eq!(encoded(RedisValue::BulkString(None)), b"$-1\r\n");
    assert_eq!(encoded(RedisValue::BulkString(Some(vec![0u8; 12]))), b"$12\r\n\0\0\0\0\0\0\0\0\0\0\0\0\r\n");
}

#[test]
fn encodes_arrays() {
    assert_eq!(encoded(RedisValue::Array(None)), b"*-1\r\n");
    assert_eq!(encoded(RedisValue::Array(Some(Vec::new()))), b"*0\r\n");
    assert_eq!(
        encoded(RedisValue::Array(Some(vec![
            RedisValue::Integer(1),
            RedisValue::Array(Some(vec![RedisValue::SimpleString("a".to_string())])),
        ]))),
        b"*2\r\n:1\r\n*1\r\n+a\r\n"
    );
}

#[test]
fn encodes_text_as_utf8() {
    assert_eq!(
        encoded(RedisValue::SimpleString("h\u{e9}".to_string())),
        b"+h\xc3\xa9\r\n"
    );
}

#[test]
fn encoding_appends() {
    let mut buffer = BytesMut::from(&b"+first\r\n"[..]);
    resp_encode(RedisValue::Integer(2), &mut buffer);
    assert_eq!(&buffer[..], b"+first\r\n:2\r\n");
}

#[test]
fn encode_value_appends_to_a_vector() {
    let mut out = vec![b'x'];
    encode_value(&RedisValue::BulkString(Some(b"ab".to_vec())), &mut out);
    assert_eq!(out, b"x$2\r\nab\r\n");
}

#[test]
fn what_is_written_is_read_back() {
    let mut buffer = BytesMut::new();
    resp_encode(sample(), &mut buffer);
    buffer.extend_from_slice(b":7\r\n");
    let mut decoder = RespDecoder::new();
    assert_eq!(decoder.decode(&mut buffer), Ok(Some(sample())));
    assert_eq!(&buffer[..], b":7\r\n");
}

#[test]
fn what_is_written_is_read_back_byte_by_byte() {
    let bytes = encoded(sample());
    let mut decoder = RespDecoder::new();
    let mut buffer = BytesMut::new();
    for (i, byte) in bytes.iter().enumerate() {
        buffer.extend_from_slice(&[*byte]);
        let got = decoder.decode(&mut buffer);
        if i + 1 < bytes.len() {
            assert_eq!(got, Ok(None));
        } else {
            assert_eq!(got, Ok(Some(sample())));
        }
    }
    assert!(buffer.is_empty());
}

#[test]
fn what_is_read_is_written_back() {
    let bytes: &[u8] = b"*2\r\n$3\r\nfoo\r\n*1\r\n:-1\r\n";
    let mut buffer = BytesMut::from(bytes);
    let mut decoder = RespDecoder::new();
    let value = decoder.decode(&mut buffer).unwrap().unwrap();
    assert_eq!(encoded(value), bytes);
}

#[test]
fn text_with_a_terminator_does_not_come_back() {
    // the line ends at the first terminator, so the text is cut there
    let mut buffer = BytesMut::new();
    resp_encode(RedisValue::SimpleString("a\r\nb".to_string()), &mut buffer);
    assert_eq!(&buffer[..], b"+a\r\nb\r\n");
    let mut decoder = RespDecoder::new();
    assert_eq!(decoder.decode(&mut buffer), Ok(Some(RedisValue::SimpleString("a".to_string()))));
}

#[test]
fn codec_decodes_and_encodes() {
    let mut codec = RespCodec::default();
    let mut out = BytesMut::new();
    assert_eq!(codec.encode(sample(), &mut out), Ok(()));
    let half = out.len() / 2;
    let mut input = BytesMut::from(&out[..half]);
    assert_eq!(codec.decode(&mut input), Ok(None));
    input.extend_from_slice(&out[half..]);
    assert_eq!(codec.decode(&mut input), Ok(Some(sample())));
    assert!(input.is_empty());
}

#[test]
fn codec_reports_a_broken_stream() {
    let mut codec = RespCodec::default();
    let mut input = BytesMut::from(&b"!oops\r\n"[..]);
    assert_eq!(codec.decode(&mut input), Err(resp_codec::error::CodecError::InvalidTag));
}
