use roker::wire::{decode_message, encode_message};
use roker::{ClientId, Error, Message, Timestamp, Topic, MAX_TOPIC_LENGTH};

#[test]
fn topic_name_checks() {
    match Topic::new("") {
        Err(Error::InvalidTopic(t)) => assert_eq!(t, "Topic name cannot be empty"),
        other => panic!("unexpected: {:?}", other),
    }
    assert!(matches!(Topic::new(&"a".repeat(MAX_TOPIC_LENGTH + 1)), Err(Error::TopicTooLong)));
    assert_eq!(Topic::new(&"a".repeat(MAX_TOPIC_LENGTH)).unwrap().name().len(), 256);
    // the limit counts bytes, not characters
    assert!(matches!(Topic::new(&"é".repeat(129)), Err(Error::TopicTooLong)));
    assert!(Topic::new(&"é".repeat(128)).is_ok());
    assert_eq!(Topic::new("/a/b").unwrap().name(), "/a/b");
}

#[test]
fn client_id_text_is_hyphenated_hex() {
    let id = ClientId::from_u128(0xa1a2a3a4_b1b2_c1c2_d1d2_d3d4d5d6d7d8);
    assert_eq!(id.as_str(), "a1a2a3a4-b1b2-c1c2-d1d2-d3d4d5d6d7d8");
    assert_eq!(ClientId::from_u128(0).as_str(), "00000000-0000-0000-0000-000000000000");
    assert_eq!(id.as_u128(), 0xa1a2a3a4_b1b2_c1c2_d1d2_d3d4d5d6d7d8);
}

#[test]
fn new_client_ids_are_random_v4() {
    let a = ClientId::new();
    let b = ClientId::default();
    assert_ne!(a, b);
    for id in [a, b] {
        let x = id.as_u128();
        assert_eq!((x >> 76) & 0xf, 4);
        assert_eq!((x >> 62) & 0x3, 2);
        assert_eq!(id.as_str().chars().nth(14), Some('4'));
    }
}

#[test]
fn message_new_stamps_the_time() {
    let m = Message::new(Topic::new("/a").unwrap(), vec![1, 2, 3]);
    assert_eq!(m.topic.name(), "/a");
    assert_eq!(m.payload, vec![1, 2, 3]);
    let t = m.timestamp.expect("clock after the epoch");
    assert!(t.nanos_since_epoch < 1_000_000_000);
    assert!(t.secs_since_epoch > 1_600_000_000);
    let c = m.clone();
    assert_eq!(c.topic, m.topic);
    assert_eq!(c.payload, m.payload);
    assert_eq!(c.timestamp, m.timestamp);
}

#[test]
fn encoding_is_bincode_message_layout() {
    let m = Message {
        topic: Topic::new("/ab").unwrap(),
        payload: vec![9, 8],
        timestamp: Some(Timestamp { secs_since_epoch: 0x0102030405060708, nanos_since_epoch: 0x0a0b0c0d }),
    };
    let bytes = encode_message(&m).unwrap();
    let mut expected = vec![3, 0, 0, 0, 0, 0, 0, 0];
    expected.extend_from_slice(b"/ab");
    expected.extend_from_slice(&[2, 0, 0, 0, 0, 0, 0, 0, 9, 8]);
    expected.extend_from_slice(&[8, 7, 6, 5, 4, 3, 2, 1]);
    expected.extend_from_slice(&[0x0d, 0x0c, 0x0b, 0x0a]);
    assert_eq!(bytes, expected);
    assert_eq!(bytes.len(), 28 + 3 + 2);
    let back = decode_message(&bytes).unwrap();
    assert_eq!(back.topic.name(), "/ab");
    assert_eq!(back.payload, vec![9, 8]);
    assert_eq!(back.timestamp, m.timestamp);
}

#[test]
fn decoding_refuses_garbage() {
    assert!(matches!(decode_message(&[1, 2, 3]), Err(Error::DeserializationError(_))));
    // a name that is not UTF-8
    let mut bytes = vec![1, 0, 0, 0, 0, 0, 0, 0, 0xff];
    bytes.extend_from_slice(&[0u8; 20]);
    assert!(matches!(decode_message(&bytes), Err(Error::DeserializationError(_))));
}

#[test]
fn encoding_without_timestamp_fails() {
    let m = Message { topic: Topic::new("/a").unwrap(), payload: vec![], timestamp: None };
    match encode_message(&m) {
        Err(Error::SerializationError(t)) => assert_eq!(t, "SystemTime must be later than UNIX_EPOCH"),
        other => panic!("unexpected: {:?}", other),
    }
}

#[test]
fn decoding_ignores_trailing_bytes() {
    let m = Message {
        topic: Topic::new("/t").unwrap(),
        payload: vec![1, 2, 3],
        timestamp: Some(Timestamp { secs_since_epoch: 5, nanos_since_epoch: 6 }),
    };
    let mut bytes = encode_message(&m).unwrap();
    bytes.extend_from_slice(&[0xaa, 0xbb]);
    let back = decode_message(&bytes).unwrap();
    assert_eq!(back.topic.name(), "/t");
    assert_eq!(back.payload, vec![1, 2, 3]);
    assert_eq!(back.timestamp, m.timestamp);
}

#[test]
fn decoding_refuses_truncated_bytes() {
    let m = Message {
        topic: Topic::new("/t").unwrap(),
        payload: vec![1, 2, 3],
        timestamp: Some(Timestamp { secs_since_epoch: 5, nanos_since_epoch: 6 }),
    };
    let bytes = encode_message(&m).unwrap();
    for cut in 0..bytes.len() {
        assert!(matches!(decode_message(&bytes[..cut]), Err(Error::DeserializationError(_))), "cut {}", cut);
    }
}

#[test]
fn encoding_counts_name_bytes_in_utf8() {
    let m = Message {
        topic: Topic::new("/é").unwrap(),
        payload: vec![],
        timestamp: Some(Timestamp { secs_since_epoch: 0, nanos_since_epoch: 0 }),
    };
    let bytes = encode_message(&m).unwrap();
    assert_eq!(bytes.len(), 28 + 3);
    assert_eq!(&bytes[..11], &[3, 0, 0, 0, 0, 0, 0, 0, b'/', 0xc3, 0xa9]);
    assert_eq!(decode_message(&bytes).unwrap().topic.name(), "/é");
}

fn raw_message(secs: u64, nanos: u32) -> Vec<u8> {
    let mut bytes = vec![2, 0, 0, 0, 0, 0, 0, 0];
    bytes.extend_from_slice(b"/t");
    bytes.extend_from_slice(&[1, 0, 0, 0, 0, 0, 0, 0, 42]);
    bytes.extend_from_slice(&secs.to_le_bytes());
    bytes.extend_from_slice(&nanos.to_le_bytes());
    bytes
}

#[test]
fn decoding_carries_whole_seconds_out_of_the_nanoseconds() {
    let m = decode_message(&raw_message(10, 2_500_000_000)).unwrap();
    assert_eq!(m.timestamp, Some(Timestamp { secs_since_epoch: 12, nanos_since_epoch: 500_000_000 }));
    let m = decode_message(&raw_message(10, 999_999_999)).unwrap();
    assert_eq!(m.timestamp, Some(Timestamp { secs_since_epoch: 10, nanos_since_epoch: 999_999_999 }));
}

#[test]
fn decoding_refuses_a_carry_past_the_last_second() {
    match decode_message(&raw_message(u64::MAX, 1_000_000_000)) {
        Err(Error::DeserializationError(t)) => assert_eq!(t, "overflow deserializing SystemTime epoch offset"),
        other => panic!("unexpected: {:?}", other),
    }
    assert!(decode_message(&raw_message(u64::MAX, 999_999_999)).is_ok());
}

#[test]
fn decoding_errors_carry_bincodes_text() {
    match decode_message(&[1, 2, 3]) {
        Err(Error::DeserializationError(t)) => assert_eq!(t, "io error: unexpected end of file"),
        other => panic!("unexpected: {:?}", other),
    }
    let mut bytes = vec![1, 0, 0, 0, 0, 0, 0, 0, 0xff];
    bytes.extend_from_slice(&[0u8; 20]);
    match decode_message(&bytes) {
        Err(Error::DeserializationError(t)) => {
            assert!(t.starts_with("string is not valid utf8: "), "{}", t)
        },
        other => panic!("unexpected: {:?}", other),
    }
}
