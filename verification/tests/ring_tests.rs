use roker::broker::ring_buffer::{RingBuffer, DATA_OFFSET, METADATA_MAGIC};
use roker::Error;

fn fresh(size: usize) -> RingBuffer {
    RingBuffer::from_raw_parts(&vec![0u8; DATA_OFFSET + size], size, true).unwrap()
}

#[test]
fn write_then_read_gives_the_payload_back() {
    let mut ring = fresh(64);
    ring.write(b"hello").unwrap();
    assert_eq!(ring.write_pos(), 17);
    let (data, next) = ring.read_message(0).unwrap();
    assert_eq!(data, b"hello");
    assert_eq!(next, 17);
    assert!(matches!(ring.read_message(17), Err(Error::BufferEmpty)));
}

#[test]
fn record_layout_is_sequence_length_payload() {
    let mut ring = fresh(64);
    ring.write(b"ab").unwrap();
    ring.write(b"c").unwrap();
    let region = ring.region();
    assert_eq!(region.len(), DATA_OFFSET + 64);
    let data = &region[DATA_OFFSET..];
    assert_eq!(&data[0..14], &[0, 0, 0, 0, 0, 0, 0, 0, 2, 0, 0, 0, b'a', b'b']);
    assert_eq!(&data[14..27], &[1, 0, 0, 0, 0, 0, 0, 0, 1, 0, 0, 0, b'c']);
    // metadata block: write position, next sequence number, magic, version
    assert_eq!(&region[0..8], &27u64.to_le_bytes());
    assert_eq!(&region[8..16], &2u64.to_le_bytes());
    assert_eq!(&region[16..24], &METADATA_MAGIC.to_le_bytes());
    assert_eq!(&region[24..28], &1u32.to_le_bytes());
    assert!(region[28..DATA_OFFSET].iter().all(|b| *b == 0));
}

#[test]
fn records_wrap_around_the_end() {
    let mut ring = fresh(30);
    ring.write(&[1u8; 10]).unwrap(); // 22 bytes: 0..22
    ring.write(&[2u8; 10]).unwrap(); // 22 bytes: 22..30 then 0..14
    assert_eq!(ring.write_pos(), 14);
    let (data, next) = ring.read_message(22).unwrap();
    assert_eq!(data, vec![2u8; 10]);
    assert_eq!(next, 14);
}

#[test]
fn too_large_record_is_refused() {
    let mut ring = fresh(30);
    assert!(matches!(ring.write(&[0u8; 19]), Err(Error::BufferFull)));
    assert_eq!(ring.write_pos(), 0);
    // a record exactly as long as the ring is refused too: it would read as empty
    assert!(matches!(ring.write(&[5u8; 18]), Err(Error::BufferFull)));
    assert_eq!(ring.write_pos(), 0);
    // one byte shorter fits
    ring.write(&[5u8; 17]).unwrap();
    assert_eq!(ring.write_pos(), 29);
    let (data, next) = ring.read_message(0).unwrap();
    assert_eq!(data, vec![5u8; 17]);
    assert_eq!(next, 29);
}

#[test]
fn zero_length_record_reads_as_invalid() {
    let mut ring = fresh(30);
    ring.write(&[]).unwrap();
    match ring.read_message(0) {
        Err(Error::InvalidConfig(t)) => assert_eq!(t, "Invalid message size"),
        other => panic!("unexpected: {:?}", other),
    }
}

#[test]
fn read_positions_are_taken_modulo_the_ring() {
    let mut ring = fresh(32);
    ring.write(b"xyz").unwrap();
    let (data, next) = ring.read_message(32).unwrap();
    assert_eq!(data, b"xyz");
    assert_eq!(next, 15);
}

#[test]
fn from_raw_parts_checks_sizes() {
    assert!(matches!(RingBuffer::from_raw_parts(&[0u8; 600], 0, true), Err(Error::InvalidBufferSize)));
    assert!(matches!(
        RingBuffer::from_raw_parts(&[0u8; 600], 600 - DATA_OFFSET + 1, true),
        Err(Error::InvalidBufferSize)
    ));
    // without initializing, the metadata is read before the size is looked at
    match RingBuffer::from_raw_parts(&[0u8; 600], 0, false) {
        Err(Error::InvalidConfig(t)) => assert_eq!(t, "Invalid metadata magic number"),
        other => panic!("unexpected: {:?}", other.map(|_| ())),
    }
    let ring = RingBuffer::from_raw_parts(&[0u8; 600], 600 - DATA_OFFSET, true).unwrap();
    assert_eq!(ring.size(), 600 - DATA_OFFSET);
    assert_eq!(ring.oldest_read_pos(), 0);
    assert_eq!(ring.used_bytes(), 0);
}

#[test]
fn reopening_a_region_restores_the_ring() {
    let mut ring = fresh(50);
    ring.write(b"one").unwrap();
    ring.write(b"two").unwrap();
    let again = RingBuffer::from_raw_parts(&ring.region(), 50, false).unwrap();
    assert_eq!(again.write_pos(), ring.write_pos());
    assert_eq!(again.region(), ring.region());
    assert_eq!(again.read_message(15).unwrap().0, b"two");
}

#[test]
fn many_writes_read_back_in_order() {
    let mut ring = fresh(200);
    let payloads: Vec<Vec<u8>> = (1..=8u8).map(|i| vec![i; i as usize]).collect();
    let mut positions = vec![ring.write_pos()];
    for p in &payloads {
        ring.write(p).unwrap();
        positions.push(ring.write_pos());
    }
    for (i, p) in payloads.iter().enumerate() {
        let (data, next) = ring.read_message(positions[i]).unwrap();
        assert_eq!(&data, p);
        assert_eq!(next, positions[i + 1]);
    }
    assert!(matches!(ring.read_message(positions[8]), Err(Error::BufferEmpty)));
}
