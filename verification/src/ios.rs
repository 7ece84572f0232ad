//! Logic behind the Swift bindings.
//!
//! The bridge itself (exported functions, the global buffers, the flush
//! daemon) lives outside the library; these functions do the work on the
//! buffers they are handed.
use vstd::prelude::*;
use crate::checksum::crc32;
use crate::disk::cursor::{batch_outcome, commit_moves, next_outcome, Cursor, Position, Step};
use crate::disk::control_block_bytes;
use crate::disk::persistent::{control_with_read_pos, PersistentRingBuffer};
use crate::region::splice;
use crate::memory::{Record, RecordHeader, RecordView};
use crate::memory::volatile::{write_effect, VolatileRingBuffer};

verus! {

/// The Swift interface that goes with these bindings.
pub const SWIFT_INTERFACE: &'static str = r#"import Foundation

/**
 * LogRecord represents a single entry in the log buffer
 */
public struct LogRecord {
    /// Raw binary data for the log record
    public let data: Data
    
    /// CRC32 checksum of the data
    public let crc32: UInt32
    
    /// Timestamp in microseconds since epoch
    public let timestampUs: UInt64
    
    /// Tag value for categorizing records
    public let tag: UInt32
    
    /// Convenience property to access the data as a UTF8 string
    public var message: String? {
        return String(data: data, encoding: .utf8)
    }
}

/**
 * SherlongLogger provides access to the Rust-based ring buffer logging system
 */
public class SherlongLogger {
    
    /// Singleton instance
    public static let shared = SherlongLogger()
    
    private init() {}
    
    /**
     * Initialize the logging system
     *
     * - Parameters:
     *   - diskPath: Path to store the persistent log file
     *   - volatileBufferSize: Size of the in-memory buffer in bytes
     *   - persistentBufferSize: Size of the persistent buffer in bytes
     *   - flushIntervalMs: How often to flush from memory to disk (milliseconds)
     *   - highWatermarkPercent: Buffer usage percentage to trigger immediate flush
     * - Returns: True if initialization was successful
     */
    public func initialize(
        diskPath: String,
        volatileBufferSize: UInt32 = 1_048_576, // 1MB
        persistentBufferSize: UInt32 = 10_485_760, // 10MB
        flushIntervalMs: UInt32 = 1000,
        highWatermarkPercent: Float = 75.0
    ) -> Bool {
        return SherlongBindings.initialize(
            diskPath,
            volatileBufferSize: volatileBufferSize,
            persistentBufferSize: persistentBufferSize,
            flushIntervalMs: flushIntervalMs,
            highWatermarkPercent: highWatermarkPercent
        )
    }
    
    /**
     * Shutdown the logging system
     */
    public func shutdown() {
        SherlongBindings.shutdown()
    }
    
    /**
     * Write a string message to the log
     *
     * - Parameters:
     *   - message: The message to log
     *   - tag: A tag value for filtering/identifying log records
     * - Returns: True if the write was successful
     */
    public func write(message: String, tag: UInt32) -> Bool {
        guard let data = message.data(using: .utf8) else {
            return false
        }
        return SherlongBindings.writeLogData(data, tag: tag)
    }
    
    /**
     * Write raw data to the log
     *
     * - Parameters:
     *   - data: The binary data to write
     *   - tag: A tag value for filtering/identifying log records
     * - Returns: True if the write was successful
     */
    public func write(data: Data, tag: UInt32) -> Bool {
        return SherlongBindings.writeLogData(data, tag: tag)
    }
    
    /**
     * Read all available logs
     *
     * - Returns: Array of LogRecord objects
     */
    public func readAllLogs() -> [LogRecord] {
        var cursor = SherlongBindings.createCursor()
        var records = [LogRecord]()
        
        while let record = SherlongBindings.readNextRecord(&cursor) {
            records.append(record)
        }
        
        _ = SherlongBindings.commitCursor(cursor)
        return records
    }
    
    /**
     * Read logs with a cursor, allowing for batched reading
     *
     * - Parameter block: Closure that receives a LogCursor to read with
     */
    public func withCursor(_ block: (LogCursor) -> Void) {
        let rustCursor = SherlongBindings.createCursor()
        let cursor = LogCursor(rustCursor: rustCursor)
        block(cursor)
    }
}

/**
 * LogCursor provides a way to read logs incrementally
 */
public class LogCursor {
    private var rustCursor: SherlongCursor
    
    internal init(rustCursor: SherlongCursor) {
        self.rustCursor = rustCursor
    }
    
    deinit {
        commit()
    }
    
    /**
     * Read the next record from the cursor
     *
     * - Returns: The next LogRecord, or nil if at the end
     */
    public func next() -> LogRecord? {
        return SherlongBindings.readNextRecord(&rustCursor)
    }
    
    /**
     * Read a batch of records from the cursor
     *
     * - Parameter maxCount: Maximum number of records to read
     * - Returns: Array of LogRecord objects
     */
    public func readBatch(maxCount: UInt32) -> [LogRecord] {
        return SherlongBindings.readBatch(&rustCursor, maxCount: maxCount)
    }
    
    /**
     * Reset the cursor to the end of the buffer
     */
    public func reset() {
        SherlongBindings.resetCursor(&rustCursor)
    }
    
    /**
     * Commit the cursor position to the buffer
     *
     * - Returns: True if the commit was successful
     */
    @discardableResult
    public func commit() -> Bool {
        return SherlongBindings.commitCursor(rustCursor)
    }
}
"#;

/// Opaque cursor handed to Swift
pub struct RustCursor(pub Cursor);

/// Swift-representable log record
pub struct SwiftLogRecord {
    pub data: Vec<u8>,
    pub crc32: u32,
    pub timestamp_us: u64,
    pub tag: u32,
}

/// The Swift record carries the record's data, checksum, timestamp and tag.
pub open spec fn swift_record_of(s: &SwiftLogRecord, r: RecordView) -> bool {
    &&& s.data@ == r.data
    &&& s.crc32 == r.header.crc32
    &&& s.timestamp_us == r.header.timestamp_us
    &&& s.tag == r.header.tag
}

/// A record made from `data` and `tag` at time `ts`.
pub open spec fn log_record(data: Seq<u8>, tag: u32, ts: u64) -> RecordView {
    RecordView {
        header: RecordHeader { size: data.len() as u32, crc32: crc32(data), timestamp_us: ts, tag },
        data,
    }
}

fn to_swift(record: Record) -> (s: SwiftLogRecord)
    ensures
        swift_record_of(&s, record@),
{
    SwiftLogRecord {
        data: record.data,
        crc32: record.header.crc32,
        timestamp_us: record.header.timestamp_us,
        tag: record.header.tag,
    }
}

/// Write data to the log buffer
///
/// The record is stamped with the current time and then written exactly as
/// `VolatileRingBuffer::write` writes it.
pub fn swift_write(buffer: &mut VolatileRingBuffer, data: &[u8], tag: u32) -> (stored: bool)
    requires
        old(buffer).wf(),
    ensures
        exists|ts: u64|
            write_effect(*old(buffer), *final(buffer), #[trigger] log_record(data@, tag, ts), stored),
{
    let data_vec = vstd::slice::slice_to_vec(data);
    let record = Record::new(data_vec, tag);
    proof {
        assert(record@ == log_record(data@, tag, record.header.timestamp_us));
    }
    buffer.write(record)
}

/// Create a new cursor for reading from the persistent buffer, at its read
/// position
pub fn swift_create_cursor(buffer: &PersistentRingBuffer) -> (c: RustCursor)
    ensures
        c.0.pos().offset == buffer.control().read_pos,
        c.0.pos().wrap_count == buffer.control().wrap_count,
        c.0.ended() == (buffer.control().read_pos == buffer.control().write_pos),
{
    let cursor = Cursor::new(buffer, None);
    RustCursor(cursor)
}

/// Read the next record from the cursor; `None` at the end.  A corrupt
/// record cannot be stepped over (its length is not known), so on one the
/// cursor moves to the end of the written data.
pub fn swift_read_next(cursor: &mut RustCursor, buffer: &PersistentRingBuffer) -> (r: Option<
    SwiftLogRecord,
>)
    requires
        buffer.wf(),
    ensures
        ({
            let (st, p2, e2) = next_outcome(
                buffer.region(),
                buffer.size_spec(),
                buffer.control(),
                old(cursor).0.pos(),
                old(cursor).0.ended(),
            );
            match st {
                Step::Found(v) => {
                    &&& r matches Some(s) && swift_record_of(&s, v)
                    &&& final(cursor).0.pos() == p2
                    &&& final(cursor).0.ended() == e2
                },
                Step::End => {
                    &&& r is None
                    &&& final(cursor).0.pos() == p2
                    &&& final(cursor).0.ended() == e2
                },
                Step::Corrupt => {
                    &&& r is None
                    &&& final(cursor).0.pos() == (Position {
                        offset: buffer.control().write_pos,
                        wrap_count: buffer.control().wrap_count,
                    })
                    &&& final(cursor).0.ended()
                },
            }
        }),
        r is None ==> final(cursor).0.ended(),
{
    match cursor.0.next(buffer) {
        Ok(Some(record)) => Some(to_swift(record)),
        Ok(None) => None,
        Err(_) => {
            let _ = cursor.0.seek_to_end(buffer);
            None
        },
    }
}

/// Read a batch of records from the cursor; empty on a corrupt record
pub fn swift_read_batch(
    cursor: &mut RustCursor,
    buffer: &PersistentRingBuffer,
    max_count: u32,
) -> (out: Vec<SwiftLogRecord>)
    requires
        buffer.wf(),
    ensures
        ({
            let (res, p2, e2) = batch_outcome(
                buffer.region(),
                buffer.size_spec(),
                buffer.control(),
                old(cursor).0.pos(),
                old(cursor).0.ended(),
                max_count as nat,
            );
            &&& final(cursor).0.pos() == p2
            &&& final(cursor).0.ended() == e2
            &&& match res {
                Some(rs) => out@.len() == rs.len() && forall|i: int|
                    0 <= i < rs.len() ==> swift_record_of(&#[trigger] out@[i], rs[i]),
                None => out@.len() == 0,
            }
        }),
{
    match cursor.0.read_batch(buffer, max_count as usize) {
        Ok(records) => {
            let ghost views = records@.map_values(|r: Record| r@);
            let mut out: Vec<SwiftLogRecord> = Vec::new();
            let mut records = records;
            let mut i: usize = 0;
            let n = records.len();
            // take the records out front to back
            while records.len() > 0
                invariant
                    views.len() == n,
                    i + records@.len() == n,
                    records@.map_values(|r: Record| r@) == views.subrange(i as int, n as int),
                    out@.len() == i,
                    forall|j: int| 0 <= j < i ==> swift_record_of(&#[trigger] out@[j], views[j]),
                decreases records@.len(),
            {
                let ghost before = records@;
                let record = records.remove(0);
                proof {
                    assert(before.map_values(|r: Record| r@)[0] == views.subrange(
                        i as int,
                        n as int,
                    )[0]);
                    assert(record@ == views[i as int]);
                    assert(records@ =~= before.subrange(1, before.len() as int));
                    assert forall|j: int| 0 <= j < records@.len() implies #[trigger] records@[j]@
                        == views[i + 1 + j] by {
                        assert(records@[j] == before[j + 1]);
                        assert(before.map_values(|r: Record| r@)[j + 1] == views.subrange(
                            i as int,
                            n as int,
                        )[j + 1]);
                    }
                    assert(records@.map_values(|r: Record| r@) =~= views.subrange(
                        i as int + 1,
                        n as int,
                    ));
                }
                out.push(to_swift(record));
                i = i + 1;
            }
            out
        },
        Err(_) => Vec::new(),
    }
}

/// Move the cursor to the end of the buffer
pub fn swift_reset_cursor(cursor: &mut RustCursor, buffer: &PersistentRingBuffer)
    ensures
        final(cursor).0.pos().offset == buffer.control().write_pos,
        final(cursor).0.pos().wrap_count == buffer.control().wrap_count,
        final(cursor).0.ended(),
{
    let _ = cursor.0.seek_to_end(buffer);
}

/// Commit the cursor position to the buffer; false when storing the read
/// position failed
pub fn swift_commit_cursor(cursor: &RustCursor, buffer: &mut PersistentRingBuffer) -> (ok: bool)
    requires
        old(buffer).wf(),
    ensures
        final(buffer).wf(),
        final(buffer).size_spec() == old(buffer).size_spec(),
        if commit_moves(old(buffer).control(), cursor.0.pos()) {
            &&& final(buffer).control() == control_with_read_pos(
                old(buffer).control(),
                cursor.0.pos().offset,
            )
            &&& final(buffer).region() == splice(
                old(buffer).region(),
                0,
                control_block_bytes(final(buffer).control()),
            )
        } else {
            &&& ok
            &&& final(buffer).control() == old(buffer).control()
            &&& final(buffer).region() == old(buffer).region()
        },
{
    match cursor.0.commit(buffer) {
        Ok(()) => true,
        Err(_) => false,
    }
}

/// The Swift interface to use with these bindings
pub fn generate_swift_interface() -> (s: String)
    ensures
        s@ == SWIFT_INTERFACE@,
{
    SWIFT_INTERFACE.to_owned()
}

} // verus!
