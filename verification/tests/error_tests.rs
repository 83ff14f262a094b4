use roker::Error;

#[test]
fn fixed_error_texts() {
    assert_eq!(Error::BufferFull.to_string(), "Buffer is full");
    assert_eq!(Error::BufferEmpty.to_string(), "Buffer is empty");
    assert_eq!(Error::InvalidBufferSize.to_string(), "Invalid buffer size");
    assert_eq!(Error::TopicTooLong.to_string(), "Topic name too long");
    assert_eq!(Error::LockError.to_string(), "Failed to acquire broker lock");
    assert_eq!(Error::ClientLimitExceeded.to_string(), "Client limit exceeded");
    assert_eq!(Error::Timeout.to_string(), "Operation timeout");
    assert_eq!(Error::BufferTooSmall.to_string(), "Buffer too small");
}

#[test]
fn error_texts_carry_their_detail() {
    assert_eq!(Error::InvalidTopic("x".to_string()).to_string(), "Invalid topic name: x");
    assert_eq!(Error::SerializationError("s".to_string()).to_string(), "Failed to serialize message: s");
    assert_eq!(Error::DeserializationError("d".to_string()).to_string(), "Failed to deserialize message: d");
    assert_eq!(Error::ClientNotFound("c".to_string()).to_string(), "Client not found: c");
    assert_eq!(
        Error::SubscriptionLimitExceeded("c".to_string()).to_string(),
        "Subscription limit exceeded for client: c"
    );
    assert_eq!(Error::InvalidConfig("bad".to_string()).to_string(), "Invalid configuration: bad");
}

#[test]
fn outside_error_texts_follow_the_opening() {
    let io = std::io::Error::new(std::io::ErrorKind::Other, "disk gone");
    assert_eq!(Error::Io(io).to_string(), "IO error: disk gone");
    let shm = Error::SharedMemoryCreation(shared_memory::ShmemError::MapSizeZero);
    let text = shm.to_string();
    assert!(text.starts_with("Failed to create shared memory segment: "));
    assert!(text.len() > "Failed to create shared memory segment: ".len());
}
