use roker::broker::METADATA_SIZE;
use roker::{Broker, BrokerConfig, ClientId, Error, Message, Topic};

fn config(buffer_size: usize, max_clients: usize, max_subs: usize) -> BrokerConfig {
    BrokerConfig {
        name: "test".to_string(),
        buffer_size,
        max_clients,
        max_subscriptions_per_client: max_subs,
    }
}

fn msg(topic: &str, payload: &[u8]) -> Message {
    Message::new(Topic::new(topic).unwrap(), payload.to_vec())
}

#[test]
fn default_config_values() {
    let c = BrokerConfig::default();
    assert_eq!(c.name, "roker");
    assert_eq!(c.buffer_size, 64 * 1024 * 1024);
    assert_eq!(c.max_clients, 1000);
    assert_eq!(c.max_subscriptions_per_client, 100);
}

#[test]
fn new_refuses_zero_buffer() {
    match Broker::new(config(0, 10, 5)) {
        Err(Error::InvalidConfig(text)) => assert_eq!(text, "Buffer size cannot be zero"),
        other => panic!("unexpected: {:?}", other.map(|_| ())),
    }
}

#[test]
fn new_broker_starts_empty() {
    let broker = Broker::new(config(512, 10, 5)).unwrap();
    let stats = broker.stats();
    assert_eq!(stats.connected_clients, 0);
    assert_eq!(stats.total_subscriptions, 0);
    assert_eq!(stats.messages_published, 0);
    assert_eq!(stats.messages_delivered, 0);
    assert_eq!(stats.buffer_used, 0);
    assert_eq!(stats.buffer_size, 512);
    assert_eq!(broker.debug_write_pos(), 0);
    assert_eq!(broker.debug_read_pos(), 0);
    assert_eq!(broker.debug_buffer_size(), 512);
}

#[test]
fn client_limit_is_enforced() {
    let mut broker = Broker::new(config(512, 2, 5)).unwrap();
    broker.register_client("a").unwrap();
    broker.register_client("b").unwrap();
    assert!(matches!(broker.register_client("c"), Err(Error::ClientLimitExceeded)));
    assert_eq!(broker.stats().connected_clients, 2);
}

#[test]
fn registering_an_id_twice_replaces_it() {
    let mut broker = Broker::new(config(512, 5, 5)).unwrap();
    let id = ClientId::from_u128(7);
    broker.register_client_with_id(id).unwrap();
    broker.subscribe(&id, "/a").unwrap();
    broker.register_client_with_id(id).unwrap();
    let stats = broker.stats();
    assert_eq!(stats.connected_clients, 1);
    assert_eq!(stats.total_subscriptions, 0);
}

#[test]
fn subscription_limit_is_enforced() {
    let mut broker = Broker::new(config(512, 5, 2)).unwrap();
    let id = broker.register_client("a").unwrap();
    broker.subscribe(&id, "/a").unwrap();
    broker.subscribe(&id, "/b").unwrap();
    match broker.subscribe(&id, "/c") {
        Err(Error::SubscriptionLimitExceeded(text)) => assert_eq!(text, id.as_str()),
        other => panic!("unexpected: {:?}", other),
    }
    assert_eq!(broker.stats().total_subscriptions, 2);
}

#[test]
fn unknown_client_is_not_found() {
    let mut broker = Broker::new(config(512, 5, 5)).unwrap();
    let id = ClientId::from_u128(0x0123_4567_89ab_cdef_0123_4567_89ab_cdef);
    let text = "01234567-89ab-cdef-0123-456789abcdef".to_string();
    match broker.unregister_client(&id) {
        Err(Error::ClientNotFound(t)) => assert_eq!(t, text),
        other => panic!("unexpected: {:?}", other),
    }
    assert!(matches!(broker.subscribe(&id, "/a"), Err(Error::ClientNotFound(t)) if t == text));
    assert!(matches!(broker.unsubscribe(&id, "/a"), Err(Error::ClientNotFound(t)) if t == text));
    assert!(matches!(broker.receive(&id), Err(Error::ClientNotFound(t)) if t == text));
}

#[test]
fn unregistered_client_is_gone() {
    let mut broker = Broker::new(config(512, 5, 5)).unwrap();
    let a = broker.register_client("a").unwrap();
    let b = broker.register_client("b").unwrap();
    broker.unregister_client(&a).unwrap();
    assert_eq!(broker.stats().connected_clients, 1);
    assert!(matches!(broker.subscribe(&a, "/x"), Err(Error::ClientNotFound(_))));
    assert!(broker.subscribe(&b, "/x").is_ok());
}

#[test]
fn receive_on_empty_ring_is_buffer_empty() {
    let mut broker = Broker::new(config(512, 5, 5)).unwrap();
    let id = broker.register_client("a").unwrap();
    broker.subscribe(&id, "#").unwrap();
    assert!(matches!(broker.receive(&id), Err(Error::BufferEmpty)));
}

#[test]
fn publish_then_receive_gives_the_message_back() {
    let mut broker = Broker::new(config(1024, 5, 5)).unwrap();
    let id = broker.register_client("a").unwrap();
    broker.subscribe(&id, "/sensors/*/temperature").unwrap();
    let m = msg("/sensors/room1/temperature", b"25.5");
    let stamp = m.timestamp;
    broker.publish(m).unwrap();
    let got = broker.receive(&id).unwrap();
    assert_eq!(got.topic.name(), "/sensors/room1/temperature");
    assert_eq!(got.payload, b"25.5");
    assert_eq!(got.timestamp, stamp);
    // caught up again
    assert!(matches!(broker.receive(&id), Err(Error::BufferEmpty)));
    let stats = broker.stats();
    assert_eq!(stats.messages_published, 1);
    assert_eq!(stats.messages_delivered, 1);
}

#[test]
fn unmatched_message_is_skipped() {
    let mut broker = Broker::new(config(1024, 5, 5)).unwrap();
    let id = broker.register_client("a").unwrap();
    broker.subscribe(&id, "/b").unwrap();
    broker.publish(msg("/a", b"one")).unwrap();
    broker.publish(msg("/b", b"two")).unwrap();
    assert!(matches!(broker.receive(&id), Err(Error::BufferEmpty)));
    let got = broker.receive(&id).unwrap();
    assert_eq!(got.payload, b"two");
    assert_eq!(broker.stats().messages_delivered, 1);
}

#[test]
fn messages_come_out_in_order() {
    let mut broker = Broker::new(config(2048, 5, 5)).unwrap();
    let id = broker.register_client("a").unwrap();
    broker.subscribe(&id, "/images/#").unwrap();
    broker.publish(msg("/images/png", b"PNG image data")).unwrap();
    broker.publish(msg("/images/jpg", b"JPG image data")).unwrap();
    broker.publish(msg("/images/raw/large", b"RAW image data")).unwrap();
    assert_eq!(broker.receive(&id).unwrap().payload, b"PNG image data");
    assert_eq!(broker.receive(&id).unwrap().payload, b"JPG image data");
    assert_eq!(broker.receive(&id).unwrap().payload, b"RAW image data");
    assert!(matches!(broker.receive(&id), Err(Error::BufferEmpty)));
}

#[test]
fn two_subscribers_read_independently() {
    let mut broker = Broker::new(config(2048, 5, 5)).unwrap();
    let a = broker.register_client("a").unwrap();
    let b = broker.register_client("b").unwrap();
    broker.subscribe(&a, "/images/*").unwrap();
    broker.subscribe(&b, "/videos/#").unwrap();
    broker.publish(msg("/images/png", b"PNG")).unwrap();
    broker.publish(msg("/videos/mp4", b"MP4")).unwrap();
    assert_eq!(broker.receive(&a).unwrap().payload, b"PNG");
    assert!(matches!(broker.receive(&a), Err(Error::BufferEmpty)));
    assert!(matches!(broker.receive(&b), Err(Error::BufferEmpty)));
    assert_eq!(broker.receive(&b).unwrap().payload, b"MP4");
}

#[test]
fn unsubscribe_removes_the_pattern() {
    let mut broker = Broker::new(config(1024, 5, 5)).unwrap();
    let id = broker.register_client("a").unwrap();
    broker.subscribe(&id, "/a").unwrap();
    broker.subscribe(&id, "/b").unwrap();
    broker.subscribe(&id, "/a").unwrap();
    broker.unsubscribe(&id, "/a").unwrap();
    assert_eq!(broker.stats().total_subscriptions, 1);
    broker.publish(msg("/a", b"x")).unwrap();
    assert!(matches!(broker.receive(&id), Err(Error::BufferEmpty)));
    // unsubscribing from a pattern one does not have changes nothing
    broker.unsubscribe(&id, "/zzz").unwrap();
    assert_eq!(broker.stats().total_subscriptions, 1);
}

#[test]
fn oversized_message_is_buffer_full() {
    let mut broker = Broker::new(config(64, 5, 5)).unwrap();
    let id = broker.register_client("a").unwrap();
    broker.subscribe(&id, "#").unwrap();
    assert!(matches!(broker.publish(msg("/a", &[7u8; 100])), Err(Error::BufferFull)));
    assert_eq!(broker.stats().messages_published, 0);
    assert_eq!(broker.debug_write_pos(), 0);
}

#[test]
fn message_before_epoch_is_not_serialized() {
    let mut broker = Broker::new(config(512, 5, 5)).unwrap();
    let mut m = msg("/a", b"x");
    m.timestamp = None;
    match broker.publish(m) {
        Err(Error::SerializationError(text)) => {
            assert_eq!(text, "SystemTime must be later than UNIX_EPOCH")
        }
        other => panic!("unexpected: {:?}", other),
    }
}

#[test]
fn ring_wraps_around() {
    // each record: 12 header bytes + 28 framing bytes + 2 + 4 = 46 bytes
    let mut broker = Broker::new(config(100, 5, 5)).unwrap();
    let id = broker.register_client("a").unwrap();
    broker.subscribe(&id, "#").unwrap();
    for k in 0..20u32 {
        let payload = k.to_le_bytes();
        broker.publish(msg("/t", &payload)).unwrap();
        let got = broker.receive(&id).unwrap();
        assert_eq!(got.payload, payload.to_vec());
        assert_eq!(got.topic.name(), "/t");
    }
    assert_eq!(broker.debug_write_pos(), (20 * 46) % 100);
    assert_eq!(broker.stats().messages_delivered, 20);
}

#[test]
fn region_round_trip_through_connect() {
    let mut broker = Broker::new(config(1024, 5, 5)).unwrap();
    broker.publish(msg("/a", b"first")).unwrap();
    broker.publish(msg("/b", b"second")).unwrap();
    let mut shm = vec![0u8; 1024 + METADATA_SIZE];
    let region = broker.region();
    shm[..region.len()].copy_from_slice(&region);

    let mut other = Broker::connect("test", &shm).unwrap();
    assert_eq!(other.debug_buffer_size(), 1024);
    assert_eq!(other.debug_write_pos(), broker.debug_write_pos());
    let id = other.register_client("reader").unwrap();
    other.subscribe(&id, "#").unwrap();
    assert_eq!(other.receive(&id).unwrap().payload, b"first");
    assert_eq!(other.receive(&id).unwrap().payload, b"second");
    assert!(matches!(other.receive(&id), Err(Error::BufferEmpty)));
}

#[test]
fn connect_checks_the_metadata() {
    let broker = Broker::new(config(256, 5, 5)).unwrap();
    let mut shm = vec![0u8; 256 + METADATA_SIZE];
    let region = broker.region();
    shm[..region.len()].copy_from_slice(&region);

    let mut bad_magic = shm.clone();
    bad_magic[16] ^= 0xff;
    match Broker::connect("x", &bad_magic) {
        Err(Error::InvalidConfig(t)) => assert_eq!(t, "Invalid metadata magic number"),
        other => panic!("unexpected: {:?}", other.map(|_| ())),
    }
    let mut bad_version = shm.clone();
    bad_version[24] = 2;
    match Broker::connect("x", &bad_version) {
        Err(Error::InvalidConfig(t)) => assert_eq!(t, "Incompatible metadata version"),
        other => panic!("unexpected: {:?}", other.map(|_| ())),
    }
    // a zeroed segment carries no metadata
    match Broker::connect("x", &vec![0u8; 2048]) {
        Err(Error::InvalidConfig(t)) => assert_eq!(t, "Invalid metadata magic number"),
        other => panic!("unexpected: {:?}", other.map(|_| ())),
    }
    assert!(matches!(Broker::connect("x", &shm[..100]), Err(Error::InvalidBufferSize)));
    assert!(matches!(Broker::connect("x", &shm[..METADATA_SIZE]), Err(Error::InvalidBufferSize)));
    assert!(matches!(Broker::connect("x", &shm[..600]), Err(Error::InvalidBufferSize)));
}

#[test]
fn connect_reads_the_metadata_before_the_size() {
    // segments that hold the metadata fields, whatever their size
    for len in [28usize, 100, 527, 528, 600, METADATA_SIZE] {
        match Broker::connect("x", &vec![0u8; len]) {
            Err(Error::InvalidConfig(t)) => assert_eq!(t, "Invalid metadata magic number"),
            other => panic!("unexpected for {}: {:?}", len, other.map(|_| ())),
        }
    }
    // a short segment with the right magic but another version
    let mut short = vec![0u8; 40];
    short[16..24].copy_from_slice(&roker::broker::ring_buffer::METADATA_MAGIC.to_le_bytes());
    short[24] = 9;
    match Broker::connect("x", &short) {
        Err(Error::InvalidConfig(t)) => assert_eq!(t, "Incompatible metadata version"),
        other => panic!("unexpected: {:?}", other.map(|_| ())),
    }
    // too short to hold the metadata fields
    assert!(matches!(Broker::connect("x", &vec![0u8; 27]), Err(Error::InvalidBufferSize)));
}

#[test]
fn load_region_takes_another_writers_messages() {
    let mut writer = Broker::new(config(512, 5, 5)).unwrap();
    let mut reader = Broker::new(config(512, 5, 5)).unwrap();
    let id = reader.register_client("r").unwrap();
    reader.subscribe(&id, "/x").unwrap();
    writer.publish(msg("/x", b"hello")).unwrap();
    reader.load_region(&writer.region()).unwrap();
    assert_eq!(reader.receive(&id).unwrap().payload, b"hello");
    // a region without metadata is refused and nothing changes
    assert!(matches!(reader.load_region(&vec![0u8; 2048]), Err(Error::InvalidConfig(_))));
    assert!(matches!(reader.load_region(&vec![0u8; 10]), Err(Error::InvalidBufferSize)));
    assert!(matches!(reader.receive(&id), Err(Error::BufferEmpty)));
}

#[test]
fn corrupt_record_is_invalid_config() {
    let broker = Broker::new(config(256, 5, 5)).unwrap();
    let mut region = broker.region();
    // write position 40, record at 0 with length 0
    region[0] = 40;
    let mut other = Broker::connect("x", &[region.clone(), vec![0u8; METADATA_SIZE - 528]].concat()).unwrap();
    let id = other.register_client("r").unwrap();
    match other.receive(&id) {
        Err(Error::InvalidConfig(t)) => assert_eq!(t, "Invalid message size"),
        other => panic!("unexpected: {:?}", other.map(|_| ())),
    }
}

#[test]
fn undecodable_record_is_deserialization_error() {
    let broker = Broker::new(config(256, 5, 5)).unwrap();
    let mut region = broker.region();
    region[0] = 40; // write position past one record
    region[528 + 8] = 3; // a record of three bytes: too short for a message
    let mut other = Broker::connect("x", &[region, vec![0u8; METADATA_SIZE - 528]].concat()).unwrap();
    let id = other.register_client("r").unwrap();
    other.subscribe(&id, "#").unwrap();
    assert!(matches!(other.receive(&id), Err(Error::DeserializationError(_))));
    // the read position did not move
    assert!(matches!(other.receive(&id), Err(Error::DeserializationError(_))));
}

#[test]
fn register_then_unregister_restores_the_registry() {
    let mut broker = Broker::new(config(512, 5, 5)).unwrap();
    let a = broker.register_client("a").unwrap();
    broker.subscribe(&a, "/a").unwrap();
    let before = broker.stats();
    let b = broker.register_client_with_id(ClientId::from_u128(42)).unwrap();
    assert_eq!(broker.stats().connected_clients, before.connected_clients + 1);
    broker.unregister_client(&b).unwrap();
    assert_eq!(broker.stats(), before);
    assert!(broker.subscribe(&a, "/b").is_ok());
    assert_eq!(broker.stats().total_subscriptions, 2);
}

#[test]
fn unsubscribing_twice_is_unsubscribing_once() {
    let mut broker = Broker::new(config(512, 5, 5)).unwrap();
    let id = broker.register_client("c").unwrap();
    broker.subscribe(&id, "/a").unwrap();
    broker.subscribe(&id, "/b").unwrap();
    broker.subscribe(&id, "/a").unwrap();
    broker.unsubscribe(&id, "/a").unwrap();
    assert_eq!(broker.stats().total_subscriptions, 1);
    broker.unsubscribe(&id, "/a").unwrap();
    assert_eq!(broker.stats().total_subscriptions, 1);
    broker.publish(msg("/b", b"still here")).unwrap();
    assert_eq!(broker.receive(&id).unwrap().payload, b"still here".to_vec());
}

#[test]
fn publishing_keeps_the_registry() {
    let mut broker = Broker::new(config(512, 5, 5)).unwrap();
    let id = broker.register_client("c").unwrap();
    broker.subscribe(&id, "/x/#").unwrap();
    let before = broker.stats();
    broker.publish(msg("/x/y", b"p")).unwrap();
    let after = broker.stats();
    assert_eq!(after.connected_clients, before.connected_clients);
    assert_eq!(after.total_subscriptions, before.total_subscriptions);
    assert_eq!(after.messages_delivered, before.messages_delivered);
    assert_eq!(after.messages_published, before.messages_published + 1);
}

#[test]
fn a_run_of_messages_is_received_where_patterns_match() {
    let mut broker = Broker::new(config(4096, 5, 5)).unwrap();
    let id = broker.register_client("subscriber").unwrap();
    broker.subscribe(&id, "/images/*").unwrap();
    broker.subscribe(&id, "/videos/#").unwrap();
    let sent = [
        ("/images/png", b"PNG image data".to_vec()),
        ("/images/jpg", b"JPG image data".to_vec()),
        ("/images/raw/large", b"RAW image data".to_vec()),
        ("/videos/mp4", b"MP4 video data".to_vec()),
    ];
    for (t, p) in &sent {
        broker.publish(msg(t, p)).unwrap();
    }
    let m = broker.receive(&id).unwrap();
    assert_eq!((m.topic.name(), &m.payload), ("/images/png", &sent[0].1));
    let m = broker.receive(&id).unwrap();
    assert_eq!((m.topic.name(), &m.payload), ("/images/jpg", &sent[1].1));
    assert!(matches!(broker.receive(&id), Err(Error::BufferEmpty)));
    let m = broker.receive(&id).unwrap();
    assert_eq!((m.topic.name(), &m.payload), ("/videos/mp4", &sent[3].1));
    let before = broker.stats();
    assert!(matches!(broker.receive(&id), Err(Error::BufferEmpty)));
    let after = broker.stats();
    assert_eq!(before, after);
    assert_eq!(after.messages_published, 4);
    assert_eq!(after.messages_delivered, 3);
    assert_eq!(after.total_subscriptions, 2);
    assert_eq!(after.connected_clients, 1);
}
