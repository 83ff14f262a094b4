use roker::client::Poll;
use roker::{Broker, BrokerConfig, Error, Publisher, Subscriber, Topic};

fn broker(buffer_size: usize) -> Broker {
    Broker::new(BrokerConfig {
        name: "clients".to_string(),
        buffer_size,
        max_clients: 10,
        max_subscriptions_per_client: 5,
    })
    .unwrap()
}

#[test]
fn publisher_and_subscriber_exchange_messages() {
    let mut b = broker(4096);
    let pid = b.register_client("pub").unwrap();
    let sid = b.register_client("sub").unwrap();
    let publisher = Publisher::new(pid);
    let subscriber = Subscriber::new(sid);
    subscriber.subscribe(&mut b, "/sensors/#").unwrap();
    let t = Topic::new("/sensors/temperature").unwrap();
    publisher.publish(&mut b, &t, b"25.5").unwrap();
    let m = subscriber.receive(&mut b).unwrap();
    assert_eq!(m.topic.name(), "/sensors/temperature");
    assert_eq!(m.payload, b"25.5");
    subscriber.unsubscribe(&mut b, "/sensors/#").unwrap();
    publisher.publish(&mut b, &t, b"26.0").unwrap();
    assert!(matches!(subscriber.receive(&mut b), Err(Error::BufferEmpty)));
}

#[test]
fn batch_publish_and_receive() {
    let mut b = broker(4096);
    let sid = b.register_client("sub").unwrap();
    let publisher = Publisher::new(sid);
    let subscriber = Subscriber::new(sid);
    subscriber.subscribe(&mut b, "#").unwrap();
    let t1 = Topic::new("/a").unwrap();
    let t2 = Topic::new("/b").unwrap();
    let d1: &[u8] = b"one";
    let d2: &[u8] = b"two";
    let d3: &[u8] = b"three";
    publisher.publish_batch(&mut b, &[(&t1, d1), (&t2, d2), (&t1, d3)]).unwrap();
    assert_eq!(b.stats().messages_published, 3);
    let first = subscriber.receive_batch(&mut b, 2).unwrap();
    assert_eq!(first.len(), 2);
    assert_eq!(first[0].payload, b"one");
    assert_eq!(first[1].topic.name(), "/b");
    let rest = subscriber.receive_batch(&mut b, 10).unwrap();
    assert_eq!(rest.len(), 1);
    assert_eq!(rest[0].payload, b"three");
    assert!(subscriber.receive_batch(&mut b, 10).unwrap().is_empty());
    assert!(subscriber.receive_batch(&mut b, 0).unwrap().is_empty());
}

#[test]
fn batch_publish_stops_at_the_first_failure() {
    let mut b = broker(128);
    let id = b.register_client("p").unwrap();
    let publisher = Publisher::new(id);
    let t = Topic::new("/a").unwrap();
    let small: &[u8] = b"ok";
    let big = vec![0u8; 200];
    let result = publisher.publish_batch(&mut b, &[(&t, small), (&t, &big), (&t, small)]);
    assert!(matches!(result, Err(Error::BufferFull)));
    assert_eq!(b.stats().messages_published, 1);
}

#[test]
fn receive_batch_stops_on_errors() {
    let mut b = broker(4096);
    let subscriber = Subscriber::new(roker::ClientId::from_u128(5));
    assert!(matches!(subscriber.receive_batch(&mut b, 3), Err(Error::ClientNotFound(_))));
}

#[test]
fn poll_classifies_receives() {
    let mut b = broker(4096);
    let id = b.register_client("s").unwrap();
    let subscriber = Subscriber::new(id);
    subscriber.subscribe(&mut b, "/x").unwrap();
    assert!(matches!(subscriber.poll(&mut b), Poll::Retry));
    Publisher::new(id).publish(&mut b, &Topic::new("/x").unwrap(), b"1").unwrap();
    match subscriber.poll(&mut b) {
        Poll::Delivered(m) => assert_eq!(m.payload, b"1"),
        other => panic!("unexpected: {:?}", other),
    }
    let stranger = Subscriber::new(roker::ClientId::from_u128(1));
    assert!(matches!(stranger.poll(&mut b), Poll::Failed(Error::ClientNotFound(_))));
}
