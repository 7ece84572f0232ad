//! Tests of cursors over the persistent ring buffer

use memmap2::MmapMut;
use sherlog_ring_buffer::types::{ControlBlock, Record};
use sherlog_ring_buffer::{Cursor, PersistentRingBuffer};

fn fresh(size: usize) -> PersistentRingBuffer {
    let region = MmapMut::map_anon(size + ControlBlock::SIZE).unwrap();
    PersistentRingBuffer::new(region, true, size).unwrap()
}

#[test]
fn test_cursor_basics() {
    let mut buffer = fresh(1024);
    for i in 0..5 {
        let data = format!("test {}", i).into_bytes();
        let record = Record::new(data, i);
        buffer.write(&record).unwrap();
    }
    let mut cursor = Cursor::new(&buffer, None);
    let mut records = Vec::new();
    while let Some(record) = cursor.next(&buffer).unwrap() {
        records.push(record);
    }
    assert_eq!(records.len(), 5);
    assert!(cursor.at_end());
    for (i, record) in records.iter().enumerate() {
        let expected = format!("test {}", i);
        assert_eq!(record.data, expected.as_bytes());
    }
}

#[test]
fn test_cursor_batch_read() {
    let mut buffer = fresh(1024);
    for i in 0..10 {
        let data = format!("batch {}", i).into_bytes();
        let record = Record::new(data, i);
        buffer.write(&record).unwrap();
    }
    let mut cursor = Cursor::new(&buffer, None);
    let batch1 = cursor.read_batch(&buffer, 3).unwrap();
    assert_eq!(batch1.len(), 3);
    let batch2 = cursor.read_batch(&buffer, 3).unwrap();
    assert_eq!(batch2.len(), 3);
    let batch3 = cursor.read_batch(&buffer, 5).unwrap();
    assert_eq!(batch3.len(), 4);
    assert!(cursor.at_end());
    for i in 0..3 {
        let expected = format!("batch {}", i);
        assert_eq!(batch1[i].data, expected.as_bytes());
    }
    for i in 0..3 {
        let expected = format!("batch {}", i + 3);
        assert_eq!(batch2[i].data, expected.as_bytes());
    }
    for i in 0..4 {
        let expected = format!("batch {}", i + 6);
        assert_eq!(batch3[i].data, expected.as_bytes());
    }
}

#[test]
fn test_cursor_seek() {
    let mut buffer = fresh(1024);
    for i in 0..5 {
        let data = format!("seek {}", i).into_bytes();
        let record = Record::new(data, i);
        buffer.write(&record).unwrap();
    }
    let mut cursor = Cursor::new(&buffer, None);
    cursor.next(&buffer).unwrap();
    cursor.next(&buffer).unwrap();
    let pos = cursor.position();
    while cursor.next(&buffer).unwrap().is_some() {}
    cursor.seek_to(&buffer, pos).unwrap();
    assert!(!cursor.at_end());
    let records = cursor.read_batch(&buffer, 10).unwrap();
    assert_eq!(records.len(), 3);
    for i in 0..3 {
        let expected = format!("seek {}", i + 2);
        assert_eq!(records[i].data, expected.as_bytes());
    }
}

#[test]
fn cursor_test_cursor_commit() {
    let mut buffer = fresh(1024);
    for i in 0..5 {
        let data = format!("commit {}", i).into_bytes();
        let record = Record::new(data, i);
        buffer.write(&record).unwrap();
    }
    let mut cursor = Cursor::new(&buffer, None);
    cursor.read_batch(&buffer, 3).unwrap();
    cursor.commit(&mut buffer).unwrap();
    let mut new_cursor = Cursor::new(&buffer, None);
    let records = new_cursor.read_batch(&buffer, 10).unwrap();
    assert_eq!(records.len(), 2);
    for i in 0..2 {
        let expected = format!("commit {}", i + 3);
        assert_eq!(records[i].data, expected.as_bytes());
    }
}
