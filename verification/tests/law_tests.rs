//! Checks of the library's laws and edge cases on concrete values

use memmap2::MmapMut;
use sherlog_ring_buffer::clock::timestamp_from;
use sherlog_ring_buffer::flush::{flush_batch, flush_step};
use sherlog_ring_buffer::ios::{
    generate_swift_interface, swift_commit_cursor, swift_create_cursor, swift_read_batch,
    swift_read_next, swift_reset_cursor, swift_write,
};
use sherlog_ring_buffer::jni::generate_kotlin_interface;
use sherlog_ring_buffer::memory::{Slot, SlotState};
use sherlog_ring_buffer::types::{ControlBlock, Header, PersistentError, Position, Record, RecordHeader};
use sherlog_ring_buffer::{Cursor, PersistentRingBuffer, VolatileRingBuffer};

fn fresh(size: usize) -> PersistentRingBuffer {
    let region = MmapMut::map_anon(size + ControlBlock::SIZE).unwrap();
    PersistentRingBuffer::new(region, true, size).unwrap()
}

#[test]
fn crc_of_check_string() {
    // the standard CRC32 check value of "123456789"
    let record = Record::new(b"123456789".to_vec(), 7);
    assert_eq!(record.header.crc32, 0xCBF4_3926);
    assert_eq!(record.header.size, 9);
    assert_eq!(record.header.tag, 7);
    assert!(record.header.verify_crc(b"123456789"));
    assert!(!record.header.verify_crc(b"123456780"));
    assert_eq!(record.total_size(), RecordHeader::SIZE + 9);
}

#[test]
fn control_block_checksum_law() {
    let mut c = ControlBlock::new(4096);
    assert!(c.verify_crc());
    assert_eq!(c.magic, ControlBlock::MAGIC);
    assert_eq!(c.buffer_size, 4096);
    c.write_pos = 100;
    assert!(!c.verify_crc());
    c.update_crc();
    assert!(c.verify_crc());
    let bytes = c.to_bytes();
    assert_eq!(bytes.len(), ControlBlock::SIZE);
    let back = ControlBlock::from_bytes(&bytes);
    assert_eq!(back.write_pos, 100);
    assert_eq!(back.crc32, c.crc32);
    assert!(back.verify_crc());
}

#[test]
fn header_encoding_roundtrip() {
    let mut h = Header::new(5, 123456789, 9);
    assert!(h.is_valid());
    h.update_crc(b"hello");
    assert!(h.verify_crc(b"hello"));
    let bytes = h.to_bytes();
    assert_eq!(bytes.len(), Header::SIZE);
    let back = Header::from_bytes(&bytes);
    assert_eq!(back.size, 5);
    assert_eq!(back.timestamp_us, 123456789);
    assert_eq!(back.tag, 9);
    assert_eq!(back.marker, Header::MARKER);
    assert_eq!(back.crc32, h.crc32);
    let mut rh = RecordHeader::new(3, 4);
    rh.update_crc(b"abc");
    let back = RecordHeader::from_bytes(&rh.to_bytes());
    assert_eq!(back.size, 3);
    assert_eq!(back.tag, 4);
    assert_eq!(back.crc32, rh.crc32);
    assert_eq!(back.timestamp_us, rh.timestamp_us);
}

#[test]
fn write_then_read_at_gives_record_back() {
    let mut buffer = fresh(256);
    let record = Record::new(b"payload".to_vec(), 11);
    buffer.write(&record).unwrap();
    let (got, size) = buffer.read_at(0).unwrap().unwrap();
    assert_eq!(size, Header::SIZE + 7);
    assert_eq!(got.data, b"payload");
    assert_eq!(got.header.tag, 11);
    assert_eq!(got.header.crc32, record.header.crc32);
    assert_eq!(got.header.timestamp_us, record.header.timestamp_us);
    assert_eq!(buffer.control_block().write_pos, (Header::SIZE + 7) as u64);
    // nothing at the write position, nor past the data area
    assert!(buffer.read_at(size as u64).unwrap().is_none());
    assert!(buffer.read_at(256).unwrap().is_none());
}

#[test]
fn region_holds_what_was_written() {
    let mut buffer = fresh(128);
    let record = Record::new(b"xyz".to_vec(), 1);
    buffer.write(&record).unwrap();
    let control = buffer.control_block();
    let region = buffer.into_region();
    assert_eq!(&region[0..ControlBlock::SIZE], &control.to_bytes()[..]);
    let at = ControlBlock::SIZE + Header::SIZE;
    assert_eq!(&region[at..at + 3], b"xyz");
    let header = Header::from_bytes(&region[ControlBlock::SIZE..at]);
    assert_eq!(header.size, 3);
    assert!(header.is_valid());
}

#[test]
fn reopen_keeps_control_block() {
    let mut buffer = fresh(512);
    for i in 0..3 {
        buffer.write(&Record::new(vec![i as u8; 10], i)).unwrap();
    }
    let before = buffer.control_block();
    let region = buffer.into_region();
    let again = PersistentRingBuffer::new(region, false, 7).unwrap();
    let after = again.control_block();
    assert_eq!(again.size(), 512);
    assert_eq!(after.write_pos, before.write_pos);
    assert_eq!(after.read_pos, before.read_pos);
    assert_eq!(after.wrap_count, before.wrap_count);
    assert_eq!(after.crc32, before.crc32);
}

#[test]
fn read_all_twice_second_is_empty() {
    let mut buffer = fresh(1024);
    buffer.write(&Record::new(b"one".to_vec(), 1)).unwrap();
    buffer.write(&Record::new(b"two".to_vec(), 2)).unwrap();
    let first = buffer.read_all().unwrap();
    assert_eq!(first.len(), 2);
    assert_eq!(first[0].data, b"one");
    assert_eq!(first[1].data, b"two");
    let second = buffer.read_all().unwrap();
    assert_eq!(second.len(), 0);
    buffer.write(&Record::new(b"three".to_vec(), 3)).unwrap();
    let third = buffer.read_all().unwrap();
    assert_eq!(third.len(), 1);
    assert_eq!(third[0].data, b"three");
}

#[test]
fn invalid_record_errors() {
    let mut buffer = fresh(64);
    // header and data exceed the data area
    let result = buffer.write(&Record::new(vec![0u8; 41], 1));
    assert!(matches!(result, Err(PersistentError::InvalidRecord)));
    assert_eq!(buffer.control_block().write_pos, 0);
    // a record whose data no longer matches its checksum
    buffer.write(&Record::new(b"abcd".to_vec(), 1)).unwrap();
    let mut region = buffer.into_region();
    let at = ControlBlock::SIZE + Header::SIZE;
    region[at] = b'z';
    let mut buffer = PersistentRingBuffer::new(region, false, 0).unwrap();
    assert!(matches!(buffer.read_at(0), Err(PersistentError::InvalidRecord)));
    assert!(matches!(buffer.read_all(), Err(PersistentError::InvalidRecord)));
    let mut cursor = Cursor::new(&buffer, None);
    assert!(matches!(cursor.next(&buffer), Err(PersistentError::InvalidRecord)));
}

#[test]
fn invalid_buffer_errors() {
    // fresh region too small for the data area
    let region = MmapMut::map_anon(100).unwrap();
    assert!(matches!(PersistentRingBuffer::new(region, true, 64), Err(PersistentError::InvalidBuffer)));
    // existing region shorter than a control block
    let region = MmapMut::map_anon(20).unwrap();
    assert!(matches!(PersistentRingBuffer::new(region, false, 0), Err(PersistentError::InvalidBuffer)));
    // checksum mismatch
    let buffer = fresh(64);
    let mut region = buffer.into_region();
    region[16] = 9;
    assert!(matches!(PersistentRingBuffer::new(region, false, 0), Err(PersistentError::InvalidBuffer)));
    // wrong magic number
    let mut region = MmapMut::map_anon(100).unwrap();
    let mut c = ControlBlock::new(52);
    c.magic = 0x1234_5678;
    c.update_crc();
    region[0..ControlBlock::SIZE].copy_from_slice(&c.to_bytes());
    assert!(matches!(PersistentRingBuffer::new(region, false, 0), Err(PersistentError::InvalidBuffer)));
}

#[test]
fn wrap_resets_write_position() {
    let mut buffer = fresh(100);
    buffer.write(&Record::new(vec![1u8; 40], 1)).unwrap();
    assert_eq!(buffer.control_block().write_pos, 64);
    buffer.write(&Record::new(vec![2u8; 20], 2)).unwrap();
    let c = buffer.control_block();
    assert_eq!(c.wrap_count, 1);
    assert_eq!(c.write_pos, 44);
    let (got, _) = buffer.read_at(0).unwrap().unwrap();
    assert_eq!(got.header.tag, 2);
}

#[test]
fn cursor_seek_clamps() {
    let mut buffer = fresh(512);
    buffer.write(&Record::new(b"a".to_vec(), 1)).unwrap();
    let wp = buffer.control_block().write_pos;
    let mut cursor = Cursor::new(&buffer, Some(Position::begin()));
    assert!(!cursor.at_end());
    cursor.seek_to(&buffer, Position::new(wp + 100, 0)).unwrap();
    assert_eq!(cursor.position(), Position::new(wp, 0));
    assert!(cursor.at_end());
    cursor.seek_to(&buffer, Position::new(0, 0)).unwrap();
    assert!(!cursor.at_end());
    let next = cursor.next(&buffer).unwrap().unwrap();
    assert_eq!(next.data, b"a");
    assert!(cursor.at_end());
    assert!(cursor.next(&buffer).unwrap().is_none());
}

#[test]
fn cursor_commit_then_resume() {
    let mut buffer = fresh(512);
    for i in 0..4 {
        buffer.write(&Record::new(vec![i as u8; 3], i)).unwrap();
    }
    let mut cursor = Cursor::new(&buffer, None);
    cursor.read_batch(&buffer, 2).unwrap();
    let pos = cursor.position();
    cursor.commit(&mut buffer).unwrap();
    assert_eq!(buffer.control_block().read_pos, pos.offset);
    let resumed = Cursor::new(&buffer, None);
    assert_eq!(resumed.position(), pos);
    // committing an older position changes nothing
    let old = Cursor::new(&buffer, Some(Position::begin()));
    old.commit(&mut buffer).unwrap();
    assert_eq!(buffer.control_block().read_pos, pos.offset);
}

#[test]
fn volatile_fifo_order() {
    let mut buffer = VolatileRingBuffer::new(256);
    assert!(buffer.write(Record::new(b"first".to_vec(), 1)));
    assert!(buffer.write(Record::new(b"second".to_vec(), 2)));
    assert!(buffer.write(Record::new(b"third".to_vec(), 3)));
    assert_eq!(buffer.used_bytes(), 3 * RecordHeader::SIZE + 5 + 6 + 5);
    let records = buffer.read();
    assert_eq!(records.len(), 3);
    assert_eq!(records[0].data, b"first");
    assert_eq!(records[1].data, b"second");
    assert_eq!(records[2].data, b"third");
    assert_eq!(buffer.used_bytes(), 0);
    assert_eq!(buffer.read().len(), 0);
}

#[test]
fn volatile_too_large_record_is_dropped() {
    let mut buffer = VolatileRingBuffer::new(64);
    assert!(!buffer.write(Record::new(vec![0u8; 33], 1)));
    assert_eq!(buffer.overflow_len(), 0);
    assert_eq!(buffer.used_bytes(), 0);
}

#[test]
fn volatile_overflow_moves_in_order() {
    let mut buffer = VolatileRingBuffer::new(64);
    assert!(buffer.write(Record::new(b"aaaaaaaa".to_vec(), 1)));
    assert!(!buffer.write(Record::new(b"bbbbbbbb".to_vec(), 2)));
    assert!(!buffer.write(Record::new(b"cccccccc".to_vec(), 3)));
    assert_eq!(buffer.overflow_len(), 2);
    let first = buffer.read();
    assert_eq!(first.len(), 1);
    assert_eq!(first[0].header.tag, 1);
    // one waiting record moved into the freed room
    assert_eq!(buffer.overflow_len(), 1);
    let second = buffer.read();
    assert_eq!(second.len(), 1);
    assert_eq!(second[0].header.tag, 2);
    let third = buffer.read();
    assert_eq!(third.len(), 1);
    assert_eq!(third[0].data, b"cccccccc");
    assert_eq!(buffer.overflow_len(), 0);
}

#[test]
fn volatile_overflow_drops_oldest_when_full() {
    let mut buffer = VolatileRingBuffer::new(64);
    assert!(buffer.write(Record::new(vec![0u8; 16], 0)));
    for i in 0..1001u32 {
        assert!(!buffer.write(Record::new(vec![1u8; 16], i + 1)));
    }
    assert_eq!(buffer.overflow_len(), 1000);
    buffer.read();
    let next = buffer.read();
    // the record tagged 1 made way for the last one
    assert_eq!(next[0].header.tag, 2);
}

#[test]
fn volatile_uncommitted_reservation_is_not_read() {
    let mut buffer = VolatileRingBuffer::new(256);
    let mut res = buffer.reserve(4).unwrap();
    let h = RecordHeader::new(4, 5);
    res.write(&mut buffer, h, b"wxyz");
    assert_eq!(buffer.read().len(), 0);
    res.commit(&mut buffer);
    let records = buffer.read();
    assert_eq!(records.len(), 1);
    assert_eq!(records[0].data, b"wxyz");
    assert_eq!(records[0].header.tag, 5);
}

#[test]
fn volatile_reserve_needs_free_room() {
    let mut buffer = VolatileRingBuffer::new(64);
    // 24 + 16 = 40 bytes: 64 - 0 > 40
    assert!(buffer.reserve(16).is_some());
    // 64 - 40 = 24 free, not more than 24 + 0
    assert!(buffer.reserve(0).is_none());
}

#[test]
fn slot_transitions() {
    let mut slot = Slot::new();
    assert_eq!(slot.state(), SlotState::Empty);
    assert_eq!(slot.seq(), 0);
    slot.set_seq(42);
    assert_eq!(slot.seq(), 42);
    assert!(!slot.try_transition(SlotState::Reserved, SlotState::Ready));
    assert_eq!(slot.state(), SlotState::Empty);
    slot.set_state(SlotState::Reserved);
    assert!(slot.try_transition(SlotState::Reserved, SlotState::Ready));
    assert_eq!(slot.state(), SlotState::Ready);
    slot.set_state(SlotState::Consumed);
    assert_eq!(slot.state(), SlotState::Consumed);
    assert_eq!(slot.seq(), 42);
}

#[test]
fn flush_batch_limits_and_stops() {
    let mut disk = fresh(200);
    let records = vec![
        Record::new(vec![1u8; 10], 1),
        Record::new(vec![2u8; 10], 2),
        Record::new(vec![3u8; 500], 3),
        Record::new(vec![4u8; 10], 4),
    ];
    // a batch size of zero still writes one record
    let (written, last) = flush_batch(&mut disk, &records, 0);
    assert_eq!(written, 1);
    assert!(last.is_ok());
    // the oversized third record stops the batch
    let (written, last) = flush_batch(&mut disk, &records[1..], 10);
    assert_eq!(written, 1);
    assert!(matches!(last, Err(PersistentError::InvalidRecord)));
    let all = disk.read_all().unwrap();
    assert_eq!(all.len(), 2);
    assert_eq!(all[0].header.tag, 1);
    assert_eq!(all[1].header.tag, 2);
}

#[test]
fn swift_bindings_flow() {
    let mut memory = VolatileRingBuffer::new(1024);
    assert!(swift_write(&mut memory, b"from swift", 8));
    let mut disk = fresh(1024);
    for r in memory.read() {
        disk.write(&r).unwrap();
    }
    disk.write(&Record::new(b"second".to_vec(), 9)).unwrap();
    let mut cursor = swift_create_cursor(&disk);
    let first = swift_read_next(&mut cursor, &disk).unwrap();
    assert_eq!(first.data, b"from swift");
    assert_eq!(first.tag, 8);
    assert_eq!(first.crc32, crc32fast::hash(b"from swift"));
    assert!(swift_commit_cursor(&cursor, &mut disk));
    assert_eq!(disk.control_block().read_pos, cursor.0.position().offset);
    let rest = swift_read_batch(&mut cursor, &disk, 10);
    assert_eq!(rest.len(), 1);
    assert_eq!(rest[0].data, b"second");
    assert!(swift_read_next(&mut cursor, &disk).is_none());
    let mut fresh_cursor = swift_create_cursor(&disk);
    swift_reset_cursor(&mut fresh_cursor, &disk);
    assert!(fresh_cursor.0.at_end());
    assert!(swift_read_batch(&mut fresh_cursor, &disk, 5).is_empty());
}

#[test]
fn interface_texts() {
    let swift = generate_swift_interface();
    assert!(swift.contains("public class SherlongLogger"));
    assert!(swift.starts_with("import Foundation"));
    let kotlin = generate_kotlin_interface();
    assert!(kotlin.contains("object Sherlog"));
    assert!(kotlin.contains("external fun readBatch"));
}

#[test]
fn flush_step_keeps_unwritten_records() {
    let mut memory = VolatileRingBuffer::new(1024);
    let mut disk = fresh(4096);
    for i in 0..3u32 {
        assert!(memory.write(Record::new(format!("record {}", i).into_bytes(), i)));
    }
    let mut backlog = Vec::new();
    let (written, last) = flush_step(&mut memory, &mut disk, &mut backlog, 1);
    assert_eq!(written, 1);
    assert!(last.is_ok());
    assert_eq!(backlog.len(), 2);
    assert_eq!(flush_step(&mut memory, &mut disk, &mut backlog, 1).0, 1);
    // a batch larger than what waits writes all of it
    let (written, last) = flush_step(&mut memory, &mut disk, &mut backlog, 5);
    assert_eq!(written, 1);
    assert!(last.is_ok());
    assert!(backlog.is_empty());
    let all = disk.read_all().unwrap();
    let tags: Vec<u32> = all.iter().map(|r| r.header.tag).collect();
    assert_eq!(tags, vec![0, 1, 2]);
    // a second read finds nothing
    assert!(disk.read_all().unwrap().is_empty());
}

#[test]
fn flush_step_drops_a_record_too_large_for_disk() {
    let mut memory = VolatileRingBuffer::new(4096);
    let mut disk = fresh(100);
    assert!(memory.write(Record::new(vec![1u8; 10], 1)));
    assert!(memory.write(Record::new(vec![2u8; 200], 2)));
    assert!(memory.write(Record::new(vec![3u8; 10], 3)));
    let mut backlog = Vec::new();
    let (written, last) = flush_step(&mut memory, &mut disk, &mut backlog, 10);
    assert_eq!(written, 1);
    assert!(matches!(last, Err(PersistentError::InvalidRecord)));
    // the oversized record left the backlog, the one after it waits
    assert_eq!(backlog.len(), 1);
    assert_eq!(backlog[0].header.tag, 3);
    assert_eq!(flush_step(&mut memory, &mut disk, &mut backlog, 10).0, 1);
    let tags: Vec<u32> = disk.read_all().unwrap().iter().map(|r| r.header.tag).collect();
    assert_eq!(tags, vec![1, 3]);
}

#[test]
fn volatile_out_of_order_commit_waits_for_the_earlier_reservation() {
    let mut buffer = VolatileRingBuffer::new(1024);
    let mut a = buffer.reserve(4).unwrap();
    let mut b = buffer.reserve(4).unwrap();
    let mut ha = RecordHeader::new(4, 1);
    ha.update_crc(b"aaaa");
    let mut hb = RecordHeader::new(4, 2);
    hb.update_crc(b"bbbb");
    a.write(&mut buffer, ha, b"aaaa");
    b.write(&mut buffer, hb, b"bbbb");
    b.commit(&mut buffer);
    // the first reservation is not committed: nothing is visible yet
    assert!(buffer.read().is_empty());
    a.commit(&mut buffer);
    let records = buffer.read();
    assert_eq!(records.len(), 2);
    assert_eq!(records[0].data, b"aaaa");
    assert_eq!(records[1].data, b"bbbb");
    assert_eq!(buffer.used_bytes(), 0);
}

#[test]
fn open_keeps_a_write_position_past_the_data_area() {
    let size = 100usize;
    let mut region = MmapMut::map_anon(size + ControlBlock::SIZE).unwrap();
    let mut control = ControlBlock::new(size as u64);
    control.write_pos = 500;
    control.update_crc();
    region[..ControlBlock::SIZE].copy_from_slice(&control.to_bytes());
    let mut disk = PersistentRingBuffer::new(region, false, 0).unwrap();
    assert_eq!(disk.control_block().write_pos, 500);
    assert_eq!(disk.size(), size);
    // the next write wraps to the start of the data area
    disk.write(&Record::new(b"wrapped".to_vec(), 4)).unwrap();
    let c = disk.control_block();
    assert_eq!(c.write_pos, (Header::SIZE + 7) as u64);
    assert_eq!(c.wrap_count, 1);
    let (rec, n) = disk.read_at(0).unwrap().unwrap();
    assert_eq!(rec.data, b"wrapped");
    assert_eq!(n, Header::SIZE + 7);
}

#[test]
fn open_keeps_a_data_area_larger_than_the_region() {
    let mut region = MmapMut::map_anon(100 + ControlBlock::SIZE).unwrap();
    let control = ControlBlock::new(1000);
    region[..ControlBlock::SIZE].copy_from_slice(&control.to_bytes());
    let mut disk = PersistentRingBuffer::new(region, false, 0).unwrap();
    assert_eq!(disk.size(), 1000);
    // a record that ends within the region is stored
    disk.write(&Record::new(vec![5u8; 40], 1)).unwrap();
    assert_eq!(disk.control_block().write_pos, 64);
    // one that would pass the end of the region is refused, changing nothing
    assert!(matches!(
        disk.write(&Record::new(vec![6u8; 40], 2)),
        Err(PersistentError::InvalidBuffer)
    ));
    assert_eq!(disk.control_block().write_pos, 64);
    // reading beyond the region finds nothing
    assert!(disk.read_at(90).unwrap().is_none());
    let all = disk.read_all().unwrap();
    assert_eq!(all.len(), 1);
    assert_eq!(all[0].header.tag, 1);
}

#[test]
fn read_all_past_the_data_area_steps_by_headers() {
    let size = 100usize;
    let mut region = MmapMut::map_anon(size + ControlBlock::SIZE).unwrap();
    let mut control = ControlBlock::new(size as u64);
    control.read_pos = 96;
    control.write_pos = 500;
    control.update_crc();
    region[..ControlBlock::SIZE].copy_from_slice(&control.to_bytes());
    let mut disk = PersistentRingBuffer::new(region, false, 0).unwrap();
    assert!(disk.read_all().unwrap().is_empty());
    // steps of 24 from 96 first reach 500 at 96 + 17 * 24
    assert_eq!(disk.control_block().read_pos, 96 + 17 * 24);
}

#[test]
fn swift_read_next_on_a_corrupt_record_ends_the_cursor() {
    let mut disk = fresh(1024);
    disk.write(&Record::new(b"intact".to_vec(), 1)).unwrap();
    let mut region = disk.into_region();
    // damage the data of the stored record
    region[ControlBlock::SIZE + Header::SIZE] ^= 0xff;
    let disk = PersistentRingBuffer::new(region, false, 0).unwrap();
    let mut cursor = swift_create_cursor(&disk);
    assert!(!cursor.0.at_end());
    assert!(swift_read_next(&mut cursor, &disk).is_none());
    assert!(cursor.0.at_end());
    assert_eq!(cursor.0.position().offset, disk.control_block().write_pos);
}

#[test]
fn stale_cursor_past_the_data_area_is_at_end() {
    let disk = fresh(100);
    // a position of an older wrap, beyond the data area
    let mut cursor = Cursor::new(&disk, Some(Position::new(200, 0)));
    let mut disk2 = disk;
    disk2.write(&Record::new(vec![0u8; 60], 1)).unwrap();
    disk2.write(&Record::new(vec![0u8; 60], 2)).unwrap();
    assert_eq!(disk2.control_block().wrap_count, 1);
    assert!(cursor.next(&disk2).unwrap().is_none());
    assert!(cursor.at_end());
    let mut batch_cursor = Cursor::new(&disk2, Some(Position::new(200, 0)));
    assert!(batch_cursor.read_batch(&disk2, 5).unwrap().is_empty());
    assert!(batch_cursor.at_end());
}

#[test]
fn timestamp_from_clock_readings() {
    assert_eq!(timestamp_from(Some(1_700_000_000_000_000)), 1_700_000_000_000_000);
    assert_eq!(timestamp_from(None), 0);
    assert_eq!(timestamp_from(Some(u64::MAX as u128 + 2)), 1);
}

#[test]
fn slot_stores_state_codes() {
    let mut slot = Slot::new();
    assert!(!slot.try_transition(SlotState::Reserved, SlotState::Ready));
    assert_eq!(slot.state(), SlotState::Empty);
    slot.set_state(SlotState::Reserved);
    assert!(slot.try_transition(SlotState::Reserved, SlotState::Ready));
    assert_eq!(slot.state(), SlotState::Ready);
}
