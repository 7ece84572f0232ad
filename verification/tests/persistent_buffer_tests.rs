//! Tests for the persistent ring buffer over a mapped region

use memmap2::MmapMut;
use sherlog_ring_buffer::types::{ControlBlock, Position, Record};
use sherlog_ring_buffer::{Cursor, PersistentRingBuffer};

/// A new buffer over a fresh anonymous region with room for `size` data bytes.
fn fresh(size: usize) -> PersistentRingBuffer {
    let region = MmapMut::map_anon(size + ControlBlock::SIZE).unwrap();
    PersistentRingBuffer::new(region, true, size).unwrap()
}

/// Open the region of `buffer` again, as an existing buffer.
fn reopen(buffer: PersistentRingBuffer, size: usize) -> PersistentRingBuffer {
    let region = buffer.into_region();
    PersistentRingBuffer::new(region, false, size).unwrap()
}

#[test]
fn persistent_buffer_tests_test_basic_write_read() {
    let mut buffer = fresh(10240);
    let test_data = "Test message".as_bytes().to_vec();
    let tag = 1;
    let record = Record::new(test_data.clone(), tag);
    buffer.write(&record).unwrap();
    buffer.flush().unwrap();
    let records = buffer.read_all().unwrap();
    assert_eq!(records.len(), 1, "Should have read one record");
    assert_eq!(records[0].data, test_data, "Record data should match");
    assert_eq!(records[0].header.tag, tag, "Record tag should match");
    let control = buffer.control_block();
    assert!(control.write_pos > 0, "Write position should be advanced");
    assert!(control.read_pos > 0, "Read position should be advanced");
    assert_eq!(control.read_pos, control.write_pos, "Read should have caught up to write");
}

#[test]
fn test_multiple_records() {
    let mut buffer = fresh(10240);
    for i in 0..10 {
        let data = format!("Record {}", i).as_bytes().to_vec();
        let record = Record::new(data, i);
        buffer.write(&record).unwrap();
    }
    buffer.flush().unwrap();
    let records = buffer.read_all().unwrap();
    assert_eq!(records.len(), 10, "Should have read all 10 records");
    for (i, record) in records.iter().enumerate() {
        let expected = format!("Record {}", i).as_bytes().to_vec();
        assert_eq!(record.data, expected, "Record data should match");
        assert_eq!(record.header.tag, i as u32, "Record tag should match");
    }
}

#[test]
fn test_reopen_buffer() {
    let mut buffer = fresh(10240);
    let data = "Persistence test".as_bytes().to_vec();
    let record = Record::new(data, 42);
    buffer.write(&record).unwrap();
    buffer.flush().unwrap();
    let mut buffer = reopen(buffer, 0);
    assert_eq!(buffer.size(), 10240, "Buffer size should be preserved");
    let records = buffer.read_all().unwrap();
    assert_eq!(records.len(), 1, "Should have read the persisted record");
    assert_eq!(records[0].data, "Persistence test".as_bytes().to_vec(), "Record data should match");
    assert_eq!(records[0].header.tag, 42, "Record tag should match");
}

#[test]
fn test_cursor_reading() {
    let mut buffer = fresh(10240);
    for i in 0..10 {
        let data = format!("Cursor record {}", i).as_bytes().to_vec();
        let record = Record::new(data, i);
        buffer.write(&record).unwrap();
    }
    buffer.flush().unwrap();
    let mut cursor = Cursor::new(&buffer, None);
    let mut count = 0;
    while let Ok(Some(record)) = cursor.next(&buffer) {
        let expected = format!("Cursor record {}", count).as_bytes().to_vec();
        assert_eq!(record.data, expected, "Record data should match");
        count += 1;
    }
    assert_eq!(count, 10, "Should have read all 10 records");
    assert!(cursor.at_end(), "Cursor should be at end");
}

#[test]
fn test_cursor_batch_reading() {
    let mut buffer = fresh(10240);
    for i in 0..20 {
        let data = format!("Batch record {}", i).as_bytes().to_vec();
        let record = Record::new(data, i % 4);
        buffer.write(&record).unwrap();
    }
    buffer.flush().unwrap();
    let mut cursor = Cursor::new(&buffer, None);
    let batch1 = cursor.read_batch(&buffer, 5).unwrap();
    assert_eq!(batch1.len(), 5, "First batch should have 5 records");
    let batch2 = cursor.read_batch(&buffer, 5).unwrap();
    assert_eq!(batch2.len(), 5, "Second batch should have 5 records");
    let batch3 = cursor.read_batch(&buffer, 5).unwrap();
    assert_eq!(batch3.len(), 5, "Third batch should have 5 records");
    let batch4 = cursor.read_batch(&buffer, 5).unwrap();
    assert_eq!(batch4.len(), 5, "Fourth batch should have 5 records");
    let batch5 = cursor.read_batch(&buffer, 5).unwrap();
    assert_eq!(batch5.len(), 0, "Fifth batch should be empty");
    for i in 0..5 {
        let expected = format!("Batch record {}", i).as_bytes().to_vec();
        assert_eq!(batch1[i].data, expected, "Batch 1 record {} data should match", i);
    }
    for i in 0..5 {
        let expected = format!("Batch record {}", i + 5).as_bytes().to_vec();
        assert_eq!(batch2[i].data, expected, "Batch 2 record {} data should match", i);
    }
}

#[test]
fn test_cursor_seeking() {
    let mut buffer = fresh(10240);
    for i in 0..10 {
        let data = format!("Seek record {}", i).as_bytes().to_vec();
        let record = Record::new(data, i);
        buffer.write(&record).unwrap();
    }
    buffer.flush().unwrap();
    let mut cursor = Cursor::new(&buffer, None);
    let _ = cursor.read_batch(&buffer, 3).unwrap();
    let position = cursor.position();
    while let Ok(Some(_)) = cursor.next(&buffer) {}
    cursor.seek_to(&buffer, position).unwrap();
    let remaining = cursor.read_batch(&buffer, 10).unwrap();
    assert_eq!(remaining.len(), 7, "Should be 7 records after seeking back");
    for i in 0..7 {
        let expected = format!("Seek record {}", i + 3).as_bytes().to_vec();
        assert_eq!(remaining[i].data, expected, "Record data after seek should match");
    }
}

#[test]
fn persistent_buffer_tests_test_cursor_commit() {
    let mut buffer = fresh(10240);
    for i in 0..10 {
        let data = format!("Commit record {}", i).as_bytes().to_vec();
        let record = Record::new(data, i);
        buffer.write(&record).unwrap();
    }
    buffer.flush().unwrap();
    let mut cursor = Cursor::new(&buffer, None);
    let _ = cursor.read_batch(&buffer, 5).unwrap();
    cursor.commit(&mut buffer).unwrap();
    let mut new_cursor = Cursor::new(&buffer, None);
    let remaining = new_cursor.read_batch(&buffer, 10).unwrap();
    assert_eq!(remaining.len(), 5, "Should only read 5 records after commit");
    for i in 0..5 {
        let expected = format!("Commit record {}", i + 5).as_bytes().to_vec();
        assert_eq!(remaining[i].data, expected, "Record data after commit should match");
    }
}

#[test]
fn persistent_buffer_tests_test_buffer_wrapping() {
    let mut buffer = fresh(512);
    for i in 0..20 {
        let data = format!("Wrap record {}", i).as_bytes().to_vec();
        let record = Record::new(data, i);
        buffer.write(&record).unwrap();
    }
    buffer.flush().unwrap();
    let control = buffer.control_block();
    assert!(control.wrap_count > 0, "Buffer should have wrapped");
    let mut cursor = Cursor::new(&buffer, None);
    let records = cursor.read_batch(&buffer, 100).unwrap();
    assert!(!records.is_empty(), "Should have read some records after wrap");
    let first_id = records[0].header.tag as usize;
    for (i, record) in records.iter().enumerate() {
        let expected_id = first_id + i;
        if expected_id < 20 {
            let expected = format!("Wrap record {}", expected_id).as_bytes().to_vec();
            assert_eq!(record.data, expected, "Record after wrap should match");
        }
    }
}

#[test]
fn test_error_handling() {
    // a region of zeros holds no valid control block
    let region = MmapMut::map_anon(64).unwrap();
    let result = PersistentRingBuffer::new(region, false, 1024);
    assert!(result.is_err(), "Opening invalid file should fail");
}

#[test]
fn test_reset_read_position() {
    let mut buffer = fresh(10240);
    for i in 0..5 {
        let data = format!("Reset record {}", i).as_bytes().to_vec();
        let record = Record::new(data, i);
        buffer.write(&record).unwrap();
    }
    buffer.flush().unwrap();
    let _ = buffer.read_all().unwrap();
    let control = buffer.control_block();
    assert_eq!(control.read_pos, control.write_pos, "Read position should be at write position");
    for i in 5..10 {
        let data = format!("Reset record {}", i).as_bytes().to_vec();
        let record = Record::new(data, i);
        buffer.write(&record).unwrap();
    }
    buffer.flush().unwrap();
    buffer.reset_read_position().unwrap();
    let control = buffer.control_block();
    assert_eq!(control.read_pos, control.write_pos, "Read position should be reset to write position");
    let records = buffer.read_all().unwrap();
    assert_eq!(records.len(), 0, "Should read no records after reset");
}

#[test]
fn test_corrupted_records() {
    let mut buffer = fresh(1024);
    let data = "Good record".as_bytes().to_vec();
    let record = Record::new(data, 1);
    buffer.write(&record).unwrap();
    buffer.flush().unwrap();
    let control = buffer.control_block();
    let write_pos = control.write_pos;
    // corrupt the region behind the control block and the record
    let mut region = buffer.into_region();
    let at = (64 + write_pos + 16) as usize;
    region[at..at + 10].copy_from_slice(&[0xFF; 10]);
    let mut buffer = PersistentRingBuffer::new(region, false, 0).unwrap();
    let mut cursor = Cursor::new(&buffer, None);
    let result = cursor.next(&buffer);
    match result {
        Ok(Some(_)) => {}
        Ok(None) => {}
        Err(_) => {}
    }
    let data = "After corruption".as_bytes().to_vec();
    let record = Record::new(data, 2);
    buffer.write(&record).unwrap();
    buffer.flush().unwrap();
    let mut cursor = Cursor::new(&buffer, None);
    cursor.seek_to_end(&buffer).unwrap();
    let control = buffer.control_block();
    let new_pos = control.write_pos - 64;
    let _ = cursor.seek_to(&buffer, Position::new(new_pos, control.wrap_count));
    let mut found_new_record = false;
    while let Ok(Some(record)) = cursor.next(&buffer) {
        if record.header.tag == 2 && record.data == "After corruption".as_bytes() {
            found_new_record = true;
            break;
        }
    }
    assert!(found_new_record, "Should be able to read new record after corruption");
}

#[test]
fn persistent_buffer_tests_test_large_records() {
    let mut buffer = fresh(100 * 1024);
    let sizes = [1, 10, 100, 1000, 10000, 50000];
    for (i, &size) in sizes.iter().enumerate() {
        let data = vec![i as u8; size];
        let record = Record::new(data.clone(), i as u32);
        buffer.write(&record).unwrap();
    }
    buffer.flush().unwrap();
    let mut cursor = Cursor::new(&buffer, None);
    let mut count = 0;
    while let Ok(Some(record)) = cursor.next(&buffer) {
        let expected_size = sizes[count];
        let expected_tag = count as u32;
        assert_eq!(record.data.len(), expected_size, "Record size should match");
        assert_eq!(record.header.tag, expected_tag, "Record tag should match");
        if expected_size > 0 {
            assert_eq!(record.data[0], count as u8, "First byte should match");
        }
        count += 1;
    }
    assert_eq!(count, sizes.len(), "Should have read all records");
}

#[test]
fn test_flush() {
    let mut buffer = fresh(10240);
    let data = "Unflushed record".as_bytes().to_vec();
    let record = Record::new(data, 1);
    buffer.write(&record).unwrap();
    buffer.flush().unwrap();
    let mut buffer = reopen(buffer, 0);
    let records = buffer.read_all().unwrap();
    assert_eq!(records.len(), 1, "Should read the flushed record");
    assert_eq!(records[0].data, "Unflushed record".as_bytes(), "Record data should match");
}

#[test]
fn test_multiple_opens() {
    let region = MmapMut::map_anon(1024 + ControlBlock::SIZE).unwrap();
    let mut buffer = PersistentRingBuffer::new(region, true, 1024).unwrap();
    for i in 0..5 {
        let data = format!("Open {}", i).as_bytes().to_vec();
        let record = Record::new(data, i);
        buffer.write(&record).unwrap();
        buffer.flush().unwrap();
        // close and open again
        buffer = reopen(buffer, 1024);
    }
    let mut buffer = reopen(buffer, 0);
    let records = buffer.read_all().unwrap();
    assert_eq!(records.len(), 5, "Should read all records from multiple opens");
    for i in 0..5 {
        let expected = format!("Open {}", i).as_bytes().to_vec();
        assert_eq!(records[i].data, expected, "Record from open {} should match", i);
    }
}
