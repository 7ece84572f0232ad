//! Unit-level tests of the volatile ring buffer

use sherlog_ring_buffer::types::{Record, RecordHeader};
use sherlog_ring_buffer::VolatileRingBuffer;

#[test]
fn volatile_test_basic_write_read() {
    let mut buffer = VolatileRingBuffer::new(1024);
    let data = b"test message".to_vec();
    let record = Record::new(data, 1);
    assert!(buffer.write(record));
    let records = buffer.read();
    assert_eq!(records.len(), 1);
    assert_eq!(records[0].data, b"test message");
    assert_eq!(records[0].header.tag, 1);
}

#[test]
fn volatile_test_reserve_write_commit() {
    let mut buffer = VolatileRingBuffer::new(1024);
    let mut reservation = buffer.reserve(10).unwrap();
    let data = b"test data".to_vec();
    let mut header = RecordHeader::new(data.len() as u32, 123);
    header.update_crc(&data);
    reservation.write(&mut buffer, header, &data);
    reservation.commit(&mut buffer);
    let records = buffer.read();
    assert_eq!(records.len(), 1);
    assert_eq!(records[0].data, b"test data");
    assert_eq!(records[0].header.tag, 123);
}

#[test]
fn volatile_clone_is_empty_with_same_capacity() {
    let mut buffer = VolatileRingBuffer::new(100);
    assert!(buffer.write(Record::new(b"kept".to_vec(), 7)));
    let mut copy = buffer.clone();
    assert_eq!(copy.capacity(), 128);
    assert_eq!(copy.used_bytes(), 0);
    assert_eq!(copy.overflow_len(), 0);
    assert!(copy.read().is_empty());
    let records = buffer.read();
    assert_eq!(records.len(), 1);
    assert_eq!(records[0].data, b"kept");
}
