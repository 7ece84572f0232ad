//! Unit-level tests of the persistent ring buffer

use memmap2::MmapMut;
use sherlog_ring_buffer::types::{ControlBlock, Record};
use sherlog_ring_buffer::PersistentRingBuffer;

fn fresh(size: usize) -> PersistentRingBuffer {
    let region = MmapMut::map_anon(size + ControlBlock::SIZE).unwrap();
    PersistentRingBuffer::new(region, true, size).unwrap()
}

#[test]
fn test_create_new_buffer() {
    let buffer = fresh(1024);
    assert_eq!(buffer.size(), 1024);
    let control = buffer.control_block();
    assert_eq!(control.magic, ControlBlock::MAGIC);
    assert_eq!(control.version, ControlBlock::VERSION);
    assert_eq!(control.buffer_size, 1024);
    assert_eq!(control.write_pos, 0);
    assert_eq!(control.read_pos, 0);
    assert_eq!(control.wrap_count, 0);
    assert!(control.verify_crc());
}

#[test]
fn test_write_read_records() {
    let mut buffer = fresh(1024);
    for i in 0..5 {
        let data = format!("test message {}", i).into_bytes();
        let record = Record::new(data, i);
        buffer.write(&record).unwrap();
    }
    let records = buffer.read_all().unwrap();
    assert_eq!(records.len(), 5);
    for (i, record) in records.iter().enumerate() {
        let expected = format!("test message {}", i);
        assert_eq!(record.data, expected.as_bytes());
        assert_eq!(record.header.tag, i as u32);
    }
}

#[test]
fn test_buffer_reopen() {
    let mut buffer = fresh(1024);
    let data = b"persistence test".to_vec();
    let record = Record::new(data, 42);
    buffer.write(&record).unwrap();
    buffer.flush().unwrap();
    let region = buffer.into_region();
    let mut buffer = PersistentRingBuffer::new(region, false, 0).unwrap();
    assert_eq!(buffer.size(), 1024);
    let records = buffer.read_all().unwrap();
    assert_eq!(records.len(), 1);
    assert_eq!(records[0].data, b"persistence test");
    assert_eq!(records[0].header.tag, 42);
}

#[test]
fn persistent_test_buffer_wrapping() {
    let mut buffer = fresh(100);
    for i in 0..20 {
        let data = format!("msg{}", i).into_bytes();
        let record = Record::new(data, i);
        buffer.write(&record).unwrap();
    }
    let control = buffer.control_block();
    assert!(control.wrap_count > 0);
}
