//! Flush steps from the volatile ring to the persistent ring, run in turn
//! by the test in place of a background daemon

use memmap2::MmapMut;
use sherlog_ring_buffer::flush::flush_step;
use sherlog_ring_buffer::types::{ControlBlock, Record};
use sherlog_ring_buffer::{Cursor, PersistentRingBuffer, VolatileRingBuffer};

fn fresh(size: usize) -> PersistentRingBuffer {
    let region = MmapMut::map_anon(size + ControlBlock::SIZE).unwrap();
    PersistentRingBuffer::new(region, true, size).unwrap()
}

/// Run flush steps until the volatile ring and the backlog have nothing
/// more to give.
fn drain(memory: &mut VolatileRingBuffer, disk: &mut PersistentRingBuffer, batch: usize) {
    let mut backlog = Vec::new();
    for _ in 0..1000 {
        if memory.used_bytes() == 0 && memory.overflow_len() == 0 && backlog.is_empty() {
            break;
        }
        flush_step(memory, disk, &mut backlog, batch);
    }
}

#[test]
fn test_full_system_flow() {
    let mut memory_buffer = VolatileRingBuffer::new(4096);
    let mut disk_buffer = fresh(10240);
    for i in 0..10 {
        let data = format!("Integration test record {}", i).as_bytes().to_vec();
        assert!(memory_buffer.write(Record::new(data, i)), "Write should succeed");
    }
    flush_step(&mut memory_buffer, &mut disk_buffer, &mut Vec::new(), 10);
    let mut cursor = Cursor::new(&disk_buffer, None);
    let records = cursor.read_batch(&disk_buffer, 20).unwrap();
    assert!(!records.is_empty(), "Should have flushed some records to disk");
    for (i, record) in records.iter().enumerate() {
        let expected = format!("Integration test record {}", i).as_bytes().to_vec();
        assert_eq!(record.data, expected, "Record data should match");
        assert_eq!(record.header.tag, i as u32, "Record tag should match");
    }
}

#[test]
fn test_memory_pressure() {
    let mut memory_buffer = VolatileRingBuffer::new(1024);
    let mut disk_buffer = fresh(1024 * 1024);
    const NUM_RECORDS: usize = 100;
    for i in 0..NUM_RECORDS {
        let data = format!("Overflow test record {}", i).as_bytes().to_vec();
        memory_buffer.write(Record::new(data, i as u32));
    }
    drain(&mut memory_buffer, &mut disk_buffer, 10);
    let mut cursor = Cursor::new(&disk_buffer, None);
    let records = cursor.read_batch(&disk_buffer, NUM_RECORDS).unwrap();
    assert!(!records.is_empty(), "Should have flushed some records");
    for record in &records {
        let id = record.header.tag as usize;
        if id < NUM_RECORDS {
            let expected = format!("Overflow test record {}", id).as_bytes().to_vec();
            assert_eq!(record.data, expected, "Record data should match");
        }
    }
}

#[test]
fn test_crash_recovery() {
    // first session: write and flush, then stop without cleaning up
    let mut memory_buffer = VolatileRingBuffer::new(4096);
    let mut disk_buffer = fresh(10240);
    for i in 0..5 {
        let data = format!("Pre-crash record {}", i).as_bytes().to_vec();
        memory_buffer.write(Record::new(data, i));
    }
    flush_step(&mut memory_buffer, &mut disk_buffer, &mut Vec::new(), 100);
    let region = disk_buffer.into_region();
    // second session: recover and continue
    let mut memory_buffer = VolatileRingBuffer::new(4096);
    let mut disk_buffer = PersistentRingBuffer::new(region, false, 0).unwrap();
    let mut cursor = Cursor::new(&disk_buffer, None);
    let pre_crash_records = cursor.read_batch(&disk_buffer, 10).unwrap();
    assert!(!pre_crash_records.is_empty(), "Should recover pre-crash records");
    for i in 0..5 {
        let data = format!("Post-crash record {}", i).as_bytes().to_vec();
        memory_buffer.write(Record::new(data, i + 10));
    }
    flush_step(&mut memory_buffer, &mut disk_buffer, &mut Vec::new(), 100);
    let region = disk_buffer.into_region();
    // third session: everything is there
    let disk_buffer = PersistentRingBuffer::new(region, false, 0).unwrap();
    let mut cursor = Cursor::new(&disk_buffer, None);
    let all_records = cursor.read_batch(&disk_buffer, 20).unwrap();
    let mut pre_crash = 0;
    let mut post_crash = 0;
    for record in &all_records {
        if record.header.tag < 10 {
            pre_crash += 1;
        } else {
            post_crash += 1;
        }
    }
    assert!(pre_crash > 0, "Should have pre-crash records");
    assert!(post_crash > 0, "Should have post-crash records");
}

#[test]
fn integration_tests_test_large_records() {
    let mut memory_buffer = VolatileRingBuffer::new(1024 * 1024);
    let mut disk_buffer = fresh(10 * 1024 * 1024);
    let sizes = [10, 100, 1000, 10000, 100000, 400000];
    for (i, &size) in sizes.iter().enumerate() {
        let data = vec![i as u8; size];
        memory_buffer.write(Record::new(data, i as u32));
    }
    drain(&mut memory_buffer, &mut disk_buffer, 100);
    let mut cursor = Cursor::new(&disk_buffer, None);
    let mut verified_sizes = vec![false; sizes.len()];
    while let Ok(Some(record)) = cursor.next(&disk_buffer) {
        let tag = record.header.tag as usize;
        if tag < sizes.len() {
            let expected_size = sizes[tag];
            if record.data.len() == expected_size {
                verified_sizes[tag] = true;
            }
        }
    }
    for (i, &verified) in verified_sizes.iter().enumerate() {
        if sizes[i] <= memory_buffer.capacity() / 2 {
            assert!(verified, "Record of size {} should be processed", sizes[i]);
        }
    }
}
