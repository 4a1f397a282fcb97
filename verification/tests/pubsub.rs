use bytes::BytesMut;
use resp_codec::error::{CodecError, ShapeError};
use resp_codec::{PubSubEvent, PubSubMessage, RedisCodec, RedisValue};

fn bulk(s: &str) -> RedisValue {
    RedisValue::String(s.as_bytes().to_vec())
}

fn decode(bytes: &[u8]) -> Result<Option<RedisValue>, CodecError> {
    let mut buffer = BytesMut::from(bytes);
    RedisCodec.decode(&mut buffer)
}

#[test]
fn a_published_message() {
    let reply = decode(b"*3\r\n$7\r\nmessage\r\n$5\r\nchanA\r\n$5\r\nhello\r\n").unwrap().unwrap();
    assert_eq!(
        PubSubEvent::try_from(reply),
        Ok(PubSubEvent::Message(PubSubMessage {
            channel_name: "chanA".to_string(),
            channel_pattern: None,
            data: b"hello".to_vec(),
        }))
    );
}

#[test]
fn a_payload_shorter_than_declared_is_no_reply() {
    // six bytes are declared for the five of `chanA`: the payload runs into
    // the terminator, and what follows it is none
    assert_eq!(
        decode(b"*3\r\n$7\r\nmessage\r\n$6\r\nchanA\r\n$5\r\nhello\r\n"),
        Err(CodecError::MissingTerminator)
    );
}

#[test]
fn pong_as_simple_string() {
    let reply = decode(b"+PONG\r\n").unwrap().unwrap();
    assert_eq!(PubSubEvent::try_from(reply), Ok(PubSubEvent::Pong("PONG".to_string())));
    assert_eq!(
        PubSubEvent::try_from(RedisValue::Status("PONG".to_string())),
        Ok(PubSubEvent::Pong("PONG".to_string()))
    );
}

#[test]
fn another_simple_string_is_a_status() {
    assert_eq!(
        PubSubEvent::try_from(RedisValue::Status("OK".to_string())),
        Ok(PubSubEvent::Status("OK".to_string()))
    );
    assert_eq!(
        PubSubEvent::try_from(RedisValue::Status("pong".to_string())),
        Ok(PubSubEvent::Status("pong".to_string()))
    );
    assert_eq!(
        PubSubEvent::try_from(RedisValue::Status(String::new())),
        Ok(PubSubEvent::Status(String::new()))
    );
}

#[test]
fn pong_as_bulk_string() {
    assert_eq!(PubSubEvent::try_from(bulk("anything")), Ok(PubSubEvent::Pong("anything".to_string())));
    assert_eq!(
        PubSubEvent::try_from(RedisValue::String(vec![b'a', 0xff, b'b'])),
        Ok(PubSubEvent::Pong("a\u{fffd}b".to_string()))
    );
}

#[test]
fn an_integer_is_handed_on() {
    assert_eq!(PubSubEvent::try_from(RedisValue::Int(-3)), Ok(PubSubEvent::Int(-3)));
}

#[test]
fn an_error_is_handed_on() {
    assert_eq!(
        PubSubEvent::try_from(RedisValue::Error("ERR nope".to_string())),
        Ok(PubSubEvent::Error("ERR nope".to_string()))
    );
}

#[test]
fn a_message_by_pattern() {
    let reply = RedisValue::List(vec![bulk("pmessage"), bulk("chan*"), bulk("chanB"), bulk("data")]);
    assert_eq!(
        PubSubEvent::try_from(reply),
        Ok(PubSubEvent::Message(PubSubMessage {
            channel_name: "chanB".to_string(),
            channel_pattern: Some("chan*".to_string()),
            data: b"data".to_vec(),
        }))
    );
}

#[test]
fn a_message_keeps_a_binary_payload() {
    let reply = RedisValue::List(vec![bulk("message"), bulk("c"), RedisValue::String(vec![0, 159, 146, 150])]);
    assert_eq!(
        PubSubEvent::try_from(reply),
        Ok(PubSubEvent::Message(PubSubMessage {
            channel_name: "c".to_string(),
            channel_pattern: None,
            data: vec![0, 159, 146, 150],
        }))
    );
}

#[test]
fn a_message_with_fields_to_spare() {
    let reply = RedisValue::List(vec![bulk("message"), bulk("c"), bulk("d"), bulk("extra")]);
    assert_eq!(
        PubSubEvent::try_from(reply),
        Ok(PubSubEvent::Message(PubSubMessage {
            channel_name: "c".to_string(),
            channel_pattern: None,
            data: b"d".to_vec(),
        }))
    );
}

#[test]
fn a_message_of_other_kinds_of_fields() {
    let reply = RedisValue::List(vec![
        RedisValue::Status("message".to_string()),
        RedisValue::Int(12),
        RedisValue::Int(-5),
    ]);
    assert_eq!(
        PubSubEvent::try_from(reply),
        Ok(PubSubEvent::Message(PubSubMessage {
            channel_name: "12".to_string(),
            channel_pattern: None,
            data: b"-5".to_vec(),
        }))
    );
}

#[test]
fn a_message_without_its_fields() {
    assert_eq!(
        PubSubEvent::try_from(RedisValue::List(vec![bulk("message")])),
        Err(ShapeError::MessageFields)
    );
    assert_eq!(
        PubSubEvent::try_from(RedisValue::List(vec![bulk("message"), bulk("chan")])),
        Err(ShapeError::MessageFields)
    );
    assert_eq!(
        PubSubEvent::try_from(RedisValue::List(vec![bulk("pmessage"), bulk("p"), bulk("chan")])),
        Err(ShapeError::PatternMessageFields)
    );
}

#[test]
fn an_empty_list_has_no_kind() {
    assert_eq!(PubSubEvent::try_from(RedisValue::List(Vec::new())), Err(ShapeError::EmptyList));
}

#[test]
fn a_subscription_is_confirmed() {
    let reply = decode(b"*3\r\n$9\r\nsubscribe\r\n$5\r\nchanA\r\n:1\r\n").unwrap().unwrap();
    assert_eq!(
        PubSubEvent::try_from(reply),
        Ok(PubSubEvent::List(("subscribe".to_string(), vec![bulk("chanA"), RedisValue::Int(1)])))
    );
}

#[test]
fn any_other_list_is_handed_on_with_its_kind() {
    assert_eq!(
        PubSubEvent::try_from(RedisValue::List(vec![bulk("unsubscribe"), bulk("c"), RedisValue::Int(0)])),
        Ok(PubSubEvent::List(("unsubscribe".to_string(), vec![bulk("c"), RedisValue::Int(0)])))
    );
    assert_eq!(
        PubSubEvent::try_from(RedisValue::List(vec![bulk("psubscribe")])),
        Ok(PubSubEvent::List(("psubscribe".to_string(), Vec::new())))
    );
    assert_eq!(
        PubSubEvent::try_from(RedisValue::List(vec![RedisValue::List(Vec::new()), bulk("x")])),
        Ok(PubSubEvent::List((String::new(), vec![bulk("x")])))
    );
}

#[test]
fn as_str_of_each_kind() {
    assert_eq!(bulk("text").as_str(), "text");
    assert_eq!(RedisValue::String(vec![0xff, b'a']).as_str(), "\u{fffd}a");
    assert_eq!(RedisValue::Int(-120).as_str(), "-120");
    assert_eq!(RedisValue::Int(0).as_str(), "0");
    assert_eq!(RedisValue::Status("fine".to_string()).as_str(), "fine");
    assert_eq!(RedisValue::Error("bad".to_string()).as_str(), "bad");
    assert_eq!(RedisValue::List(Vec::new()).as_str(), "");
    assert_eq!(
        RedisValue::List(vec![RedisValue::List(vec![RedisValue::Int(3)]), bulk("x")]).as_str(),
        "3"
    );
}

#[test]
fn take_buffer_of_each_kind() {
    assert_eq!(RedisValue::String(vec![0xff, 0]).take_buffer(), vec![0xff, 0]);
    assert_eq!(RedisValue::Int(42).take_buffer(), b"42".to_vec());
    assert_eq!(RedisValue::Status("h\u{e9}".to_string()).take_buffer(), b"h\xc3\xa9".to_vec());
    assert_eq!(RedisValue::Error("e".to_string()).take_buffer(), b"e".to_vec());
    assert_eq!(RedisValue::List(vec![bulk("first"), bulk("second")]).take_buffer(), b"first".to_vec());
    assert_eq!(RedisValue::List(Vec::new()).take_buffer(), Vec::<u8>::new());
}

#[test]
fn to_str_of_a_payload() {
    let message = PubSubMessage {
        channel_name: "c".to_string(),
        channel_pattern: None,
        data: b"caf\xc3\xa9".to_vec(),
    };
    assert_eq!(message.to_str(), Ok("caf\u{e9}".to_string()));
    let message = PubSubMessage {
        channel_name: "c".to_string(),
        channel_pattern: None,
        data: vec![0x80],
    };
    assert_eq!(message.to_str(), Err(ShapeError::NotText));
}

#[test]
fn a_list_by_its_kind() {
    assert_eq!(
        PubSubEvent::of_list("message".to_string(), vec![bulk("c"), bulk("d")]),
        Ok(PubSubEvent::Message(PubSubMessage {
            channel_name: "c".to_string(),
            channel_pattern: None,
            data: b"d".to_vec(),
        }))
    );
    assert_eq!(
        PubSubEvent::of_list("pmessage".to_string(), vec![bulk("p"), bulk("c")]),
        Err(ShapeError::PatternMessageFields)
    );
    assert_eq!(
        PubSubEvent::of_list("Message".to_string(), vec![bulk("c")]),
        Ok(PubSubEvent::List(("Message".to_string(), vec![bulk("c")])))
    );
}
