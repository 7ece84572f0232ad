//! Persistent ring buffer over a memory-mapped region.
//!
//! The region holds the control block followed by a data area of `size`
//! bytes.  Records are appended at the write position; a record that would
//! run past the end of the data area is written at offset 0 instead and the
//! wrap count goes up.  Reading walks the data area from the read position
//! towards the write position, skipping header-sized steps where no valid
//! record marker is found, and rejecting a record whose checksum does not
//! match its data.
use vstd::prelude::*;
use crate::checksum::crc32;
use crate::disk::{
    control_block_bytes, control_crc_valid, decode_control_block, decode_header, header_bytes,
    lemma_control_block_roundtrip, lemma_header_roundtrip, new_control_block, with_crc, ControlBlock, Header,
};
use crate::memory::{Record, RecordHeader, RecordView};
use crate::region::{lemma_splice, region_bytes, region_flush, region_view, region_write, splice};

verus! {

/// Error types for the persistent ring buffer
#[derive(Debug)]
pub enum PersistentError {
    /// An IO error occurred
    Io(std::io::Error),
    /// The buffer file is invalid or corrupted
    InvalidBuffer,
    /// A record is invalid or corrupted
    InvalidRecord,
}

impl From<std::io::Error> for PersistentError {
    fn from(error: std::io::Error) -> (r: Self) {
        PersistentError::Io(error)
    }
}

impl vstd::std_specs::convert::FromSpecImpl<std::io::Error> for PersistentError {
    open spec fn obeys_from_spec() -> bool {
        true
    }

    open spec fn from_spec(v: std::io::Error) -> Self {
        PersistentError::Io(v)
    }
}

/// Result type for persistent buffer operations
pub type Result<T> = std::result::Result<T, PersistentError>;

/// The operation completed, or only the final flush of the region failed.
pub open spec fn ok_or_io<T>(r: Result<T>) -> bool {
    match r {
        Ok(_) => true,
        Err(PersistentError::Io(_)) => true,
        _ => false,
    }
}

/// What the data area holds at a position.
pub enum ReadOutcome {
    /// No record can be read there.
    Nothing,
    /// A record with a valid marker whose data does not match its checksum.
    Corrupt,
    /// A record: its header and its data.
    Found(Header, Seq<u8>),
}

/// The record found at `position` of the data area (region offset
/// `ControlBlock::SIZE + position`).
pub open spec fn read_at_spec(region: Seq<u8>, size: nat, position: int) -> ReadOutcome {
    let abs = ControlBlock::SIZE + position;
    if position >= size || abs + Header::SIZE > region.len() {
        ReadOutcome::Nothing
    } else {
        let h = decode_header(region.subrange(abs, abs + Header::SIZE));
        let start = abs + Header::SIZE;
        if h.marker != Header::MARKER || start + h.size > region.len() {
            ReadOutcome::Nothing
        } else {
            let d = region.subrange(start, start + h.size);
            if h.crc32 != crc32(d) {
                ReadOutcome::Corrupt
            } else {
                ReadOutcome::Found(h, d)
            }
        }
    }
}

/// The record that a stored header and its data stand for.
pub open spec fn record_view_of(h: Header, d: Seq<u8>) -> RecordView {
    RecordView {
        header: RecordHeader {
            size: h.size,
            crc32: h.crc32,
            timestamp_us: h.timestamp_us,
            tag: h.tag,
        },
        data: d,
    }
}

/// Where steps of a header's size from `from` first reach or pass `to`; `to`
/// itself when that position is beyond `u64::MAX`.
pub open spec fn skip_end(from: int, to: int) -> int {
    let e = from + Header::SIZE * ((to - from + Header::SIZE - 1) / (Header::SIZE as int));
    if e > u64::MAX {
        to
    } else {
        e
    }
}

/// Where a walk that meets nothing lands: `skip_end`, computed without
/// overflow.
fn skip_past(current: u64, target: u64) -> (e: u64)
    requires
        current < target,
    ensures
        e == skip_end(current as int, target as int),
        e >= target,
{
    let d: u64 = target - current;
    let k: u64 = d / 24 + if d % 24 == 0 {
        0
    } else {
        1
    };
    assert(k == (d + 23) / 24) by (nonlinear_arith)
        requires
            k == d / 24 + if d % 24 == 0 {
                0int
            } else {
                1int
            },
    ;
    assert(current + 24 * k >= target) by (nonlinear_arith)
        requires
            k == (d + 23) / 24,
            d == target - current,
    ;
    let m: u64 = (u64::MAX - current) / 24;
    if k > m {
        assert(current + 24 * k > u64::MAX) by (nonlinear_arith)
            requires
                k > m,
                m == (u64::MAX - current) / 24,
                current <= u64::MAX,
        ;
        target
    } else {
        assert(24 * k <= u64::MAX - current) by (nonlinear_arith)
            requires
                k <= m,
                m == (u64::MAX - current) / 24,
                current <= u64::MAX,
        ;
        current + 24 * k
    }
}

/// The records met when walking the data area from `from` until a position
/// at or beyond `to`, and that position; `None` when a corrupt record is met.
/// Where no record is found the walk moves on by a header's size; once it is
/// past the data area nothing more can be found, and it ends where those
/// steps first reach `to` (see `skip_end`).
pub open spec fn scan(region: Seq<u8>, size: nat, from: int, to: int) -> Option<
    (Seq<RecordView>, int),
>
    decreases (if to > from {
        to - from
    } else {
        0
    }),
{
    if from >= to {
        Some((Seq::empty(), from))
    } else {
        match read_at_spec(region, size, from) {
            ReadOutcome::Corrupt => None,
            ReadOutcome::Found(h, d) => match scan(
                region,
                size,
                from + Header::SIZE + d.len(),
                to,
            ) {
                Some((rs, end)) => Some((seq![record_view_of(h, d)] + rs, end)),
                None => None,
            },
            ReadOutcome::Nothing => if from >= size {
                Some((Seq::empty(), skip_end(from, to)))
            } else {
                scan(region, size, from + Header::SIZE, to)
            },
        }
    }
}

/// The header written to disk for a record.
pub open spec fn disk_header_for(rec: RecordView) -> Header {
    Header {
        size: rec.data.len() as u32,
        crc32: crc32(rec.data),
        timestamp_us: rec.header.timestamp_us,
        tag: rec.header.tag,
        marker: Header::MARKER,
        reserved: 0,
    }
}

/// Whether a record of `total` bytes must go to the start of the data area.
pub open spec fn write_wraps(c: ControlBlock, size: nat, total: int) -> bool {
    c.write_pos + total > size
}

/// The data-area offset at which a record of `total` bytes is written.
pub open spec fn write_offset(c: ControlBlock, size: nat, total: int) -> int {
    if write_wraps(c, size, total) {
        0
    } else {
        c.write_pos as int
    }
}

/// Whether a record of `total` bytes, written where `write_offset` puts it,
/// ends within a region of `region_len` bytes.
pub open spec fn write_in_region(region_len: nat, c: ControlBlock, size: nat, total: int) -> bool {
    ControlBlock::SIZE + write_offset(c, size, total) + total <= region_len
}

/// The control block after writing a record of `total` bytes.
pub open spec fn control_after_write(c: ControlBlock, size: nat, total: int) -> ControlBlock {
    let wraps = write_wraps(c, size, total);
    with_crc(
        ControlBlock {
            write_pos: (write_offset(c, size, total) + total) as u64,
            wrap_count: if !wraps {
                c.wrap_count
            } else if c.wrap_count == u64::MAX {
                0
            } else {
                (c.wrap_count + 1) as u64
            },
            ..c
        },
    )
}

/// The region after writing a record: its header and data at the write
/// offset, then the updated control block at the start.
pub open spec fn region_after_write(
    region: Seq<u8>,
    c: ControlBlock,
    size: nat,
    rec: RecordView,
) -> Seq<u8> {
    let total = Header::SIZE + rec.data.len();
    let at = ControlBlock::SIZE + write_offset(c, size, total);
    let r1 = splice(region, at, header_bytes(disk_header_for(rec)));
    let r2 = splice(r1, at + Header::SIZE, rec.data);
    splice(r2, 0, control_block_bytes(control_after_write(c, size, total)))
}

/// The control block after moving the read position to `pos`.
pub open spec fn control_with_read_pos(c: ControlBlock, pos: u64) -> ControlBlock {
    with_crc(ControlBlock { read_pos: pos, ..c })
}

/// What opening a region finds: the control block in use and the size of the
/// data area, or `None` when the region is not a valid buffer.
///
/// A fresh region gets a new control block for `size` bytes and must have
/// room for it and the data area.  An existing region must start with a
/// control block with the right magic number and a matching checksum; the
/// stored size, write and read positions are taken as they are.  A stored
/// size larger than the region is kept: reads find nothing beyond the region
/// and writes that would pass its end are refused.  A write position past
/// the data area makes the next write wrap to its start.  The one machine
/// limit: the stored size plus the control block must be addressable.
pub open spec fn open_outcome(region: Seq<u8>, fresh: bool, size: nat) -> Option<ControlBlock> {
    if fresh {
        if region.len() < ControlBlock::SIZE + size {
            None
        } else {
            Some(new_control_block(size as u64))
        }
    } else if region.len() < ControlBlock::SIZE {
        None
    } else {
        let c = decode_control_block(region.subrange(0, ControlBlock::SIZE as int));
        if c.magic != ControlBlock::MAGIC || !control_crc_valid(c) || c.buffer_size
            + ControlBlock::SIZE > usize::MAX {
            None
        } else {
            Some(c)
        }
    }
}

/// Persistent ring buffer for disk storage
pub struct PersistentRingBuffer {
    /// Memory-mapped region: control block, then the data area
    mmap: memmap2::MmapMut,
    /// Control block for buffer management
    control: ControlBlock,
    /// Size of the data area in bytes
    size: usize,
}

impl PersistentRingBuffer {
    /// The bytes of the mapped region.
    pub closed spec fn region(&self) -> Seq<u8> {
        region_bytes(self.mmap)
    }

    /// The control block in use.
    pub closed spec fn control(&self) -> ControlBlock {
        self.control
    }

    /// The size of the data area.
    pub closed spec fn size_spec(&self) -> nat {
        self.size as nat
    }

    /// The region starts with the control block in use, whose checksum holds.
    pub closed spec fn wf(&self) -> bool {
        let region = region_bytes(self.mmap);
        &&& region.len() <= usize::MAX
        &&& region.len() >= ControlBlock::SIZE
        &&& self.size + ControlBlock::SIZE <= usize::MAX
        &&& decode_control_block(region.subrange(0, ControlBlock::SIZE as int)) == self.control
        &&& control_crc_valid(self.control)
        &&& self.control.magic == ControlBlock::MAGIC
        &&& self.control.buffer_size == self.size
    }

    /// Write `c` to the start of the region and make it the control block.
    fn store_control(&mut self, c: ControlBlock)
        requires
            region_bytes(old(self).mmap).len() >= ControlBlock::SIZE,
        ensures
            final(self).control == c,
            final(self).size == old(self).size,
            region_bytes(final(self).mmap) == splice(
                region_bytes(old(self).mmap),
                0,
                control_block_bytes(c),
            ),
            region_bytes(final(self).mmap).len() == region_bytes(old(self).mmap).len(),
            decode_control_block(
                region_bytes(final(self).mmap).subrange(0, ControlBlock::SIZE as int),
            ) == c,
    {
        let bytes = c.to_bytes();
        region_write(&mut self.mmap, 0, bytes.as_slice());
        self.control = c;
        proof {
            lemma_control_block_roundtrip(c);
            lemma_splice(region_bytes(old(self).mmap), 0, control_block_bytes(c));
            let r = region_bytes(self.mmap);
            assert(r.subrange(0, ControlBlock::SIZE as int) =~= control_block_bytes(c));
        }
    }

    /// Flush the region and map the outcome to this module's error type.
    fn flush_region(&self) -> (r: Result<()>)
        ensures
            ok_or_io(r),
    {
        match region_flush(&self.mmap) {
            Ok(()) => Ok(()),
            Err(e) => Err(PersistentError::from(e)),
        }
    }

    /// Open a ring buffer over a mapped region.
    ///
    /// `fresh` tells that the region's file was just created: a new control
    /// block for a data area of `size` bytes is written.  Otherwise `size` is
    /// ignored and the control block stored in the region is used.
    pub fn new(region: memmap2::MmapMut, fresh: bool, size: usize) -> (r: Result<Self>)
        ensures
            match open_outcome(region_bytes(region), fresh, size as nat) {
                None => r matches Err(PersistentError::InvalidBuffer),
                Some(c) => r matches Ok(b) && {
                    &&& b.wf()
                    &&& b.control() == c
                    &&& b.size_spec() == c.buffer_size
                    &&& b.region() == if fresh {
                        splice(region_bytes(region), 0, control_block_bytes(c))
                    } else {
                        region_bytes(region)
                    }
                },
            },
    {
        let mut mmap = region;
        let len = region_view(&mmap).len();
        if fresh {
            if size > len || len - size < ControlBlock::SIZE {
                return Err(PersistentError::InvalidBuffer);
            }
            let control = ControlBlock::new(size as u64);
            let mut b = PersistentRingBuffer { mmap, control, size };
            b.store_control(control);
            assert(b.wf());
            Ok(b)
        } else {
            if len < ControlBlock::SIZE {
                return Err(PersistentError::InvalidBuffer);
            }
            let control = ControlBlock::from_bytes(
                vstd::slice::slice_subrange(region_view(&mmap), 0, ControlBlock::SIZE),
            );
            if control.magic != ControlBlock::MAGIC || !control.verify_crc() {
                return Err(PersistentError::InvalidBuffer);
            }
            if control.buffer_size > (usize::MAX - ControlBlock::SIZE) as u64 {
                return Err(PersistentError::InvalidBuffer);
            }
            let size = control.buffer_size as usize;
            let b = PersistentRingBuffer { mmap, control, size };
            assert(b.wf());
            Ok(b)
        }
    }

    /// The bounds that a well-formed buffer keeps.
    pub proof fn lemma_wf_bounds(&self)
        requires
            self.wf(),
        ensures
            ControlBlock::SIZE <= self.region().len() <= usize::MAX,
            self.size_spec() + ControlBlock::SIZE <= usize::MAX,
            self.control().buffer_size == self.size_spec(),
            self.control().magic == ControlBlock::MAGIC,
            control_crc_valid(self.control()),
    {
    }

    /// Get the buffer size
    pub fn size(&self) -> (n: usize)
        ensures
            n == self.size_spec(),
    {
        self.size
    }

    /// Get a copy of the control block
    pub fn control_block(&self) -> (c: ControlBlock)
        ensures
            c == self.control(),
    {
        self.control
    }

    /// Give back the mapped region, e.g. to open it again.
    pub fn into_region(self) -> (m: memmap2::MmapMut)
        ensures
            region_bytes(m) == self.region(),
    {
        self.mmap
    }

    /// Write a record to the buffer, then flush the region.
    ///
    /// A record whose header and data exceed the data area is refused with
    /// `InvalidRecord`, and one that would pass the end of the mapped region
    /// (whose stored size exceeds it) with `InvalidBuffer`; both change
    /// nothing.  Otherwise the record is stored even if the flush reports an
    /// error.
    pub fn write(&mut self, record: &Record) -> (r: Result<()>)
        requires
            old(self).wf(),
        ensures
            final(self).wf(),
            final(self).size_spec() == old(self).size_spec(),
            ({
                let total = Header::SIZE + record.data@.len();
                if total > old(self).size_spec() {
                    &&& r matches Err(PersistentError::InvalidRecord)
                    &&& final(self).region() == old(self).region()
                    &&& final(self).control() == old(self).control()
                } else if !write_in_region(
                    old(self).region().len(),
                    old(self).control(),
                    old(self).size_spec(),
                    total,
                ) {
                    &&& r matches Err(PersistentError::InvalidBuffer)
                    &&& final(self).region() == old(self).region()
                    &&& final(self).control() == old(self).control()
                } else {
                    &&& ok_or_io(r)
                    &&& final(self).control().read_pos == old(self).control().read_pos
                    &&& final(self).control().buffer_size == old(self).control().buffer_size
                    &&& if old(self).control().write_pos + total > old(self).size_spec() {
                        &&& final(self).control().write_pos == total
                        &&& (old(self).control().wrap_count < u64::MAX
                            ==> final(self).control().wrap_count == old(self).control().wrap_count + 1)
                    } else {
                        &&& final(self).control().write_pos == old(self).control().write_pos
                            + total
                        &&& final(self).control().wrap_count == old(self).control().wrap_count
                    }
                    &&& final(self).control() == control_after_write(
                        old(self).control(),
                        old(self).size_spec(),
                        total,
                    )
                    &&& final(self).region() == region_after_write(
                        old(self).region(),
                        old(self).control(),
                        old(self).size_spec(),
                        record@,
                    )
                }
            }),
    {
        let len = record.data.len();
        if len > self.size || self.size - len < Header::SIZE {
            return Err(PersistentError::InvalidRecord);
        }
        let total = Header::SIZE + len;
        #[verifier::truncate]
        let size32: u32 = len as u32;
        let mut header = Header::new(size32, record.header.timestamp_us, record.header.tag);
        header.update_crc(record.data.as_slice());
        let mut control = self.control;
        if control.write_pos > (self.size - total) as u64 {
            control.write_pos = 0;
            control.wrap_count = if control.wrap_count == u64::MAX {
                0
            } else {
                control.wrap_count + 1
            };
        }
        let len_region = region_view(&self.mmap).len();
        if len_region - ControlBlock::SIZE < total || control.write_pos > (len_region
            - ControlBlock::SIZE - total) as u64 {
            return Err(PersistentError::InvalidBuffer);
        }
        let at = ControlBlock::SIZE + control.write_pos as usize;
        let hb = header.to_bytes();
        proof {
            lemma_splice(region_bytes(self.mmap), at as int, hb@);
        }
        region_write(&mut self.mmap, at, hb.as_slice());
        proof {
            lemma_splice(region_bytes(self.mmap), at + Header::SIZE, record.data@);
        }
        region_write(&mut self.mmap, at + Header::SIZE, record.data.as_slice());
        control.write_pos = control.write_pos + total as u64;
        control.update_crc();
        self.store_control(control);
        proof {
            assert(header == disk_header_for(record@));
            assert(control.write_pos <= self.size);
            assert(region_bytes(self.mmap).len() == region_bytes(old(self).mmap).len());
        }
        self.flush_region()
    }

    /// Read a record at the given position of the data area.
    ///
    /// Returns the record and the number of bytes it occupies (header and
    /// data), `None` when no record with a valid marker fits there, and
    /// `InvalidRecord` when the record's data does not match its checksum.
    pub fn read_at(&self, position: u64) -> (r: Result<Option<(Record, usize)>>)
        requires
            self.wf(),
        ensures
            match read_at_spec(self.region(), self.size_spec(), position as int) {
                ReadOutcome::Nothing => r matches Ok(None),
                ReadOutcome::Corrupt => r matches Err(PersistentError::InvalidRecord),
                ReadOutcome::Found(h, d) => r matches Ok(Some((rec, n))) && rec@ == record_view_of(
                    h,
                    d,
                ) && n == Header::SIZE + d.len(),
            },
    {
        if position >= self.size as u64 {
            return Ok(None);
        }
        let view = region_view(&self.mmap);
        let len = view.len();
        let abs = ControlBlock::SIZE + position as usize;
        if abs > len - Header::SIZE {
            return Ok(None);
        }
        let header = Header::from_bytes(vstd::slice::slice_subrange(view, abs, abs + Header::SIZE));
        if !header.is_valid() {
            return Ok(None);
        }
        let data_size = header.size as usize;
        let data_pos = abs + Header::SIZE;
        if data_size > len - data_pos {
            return Ok(None);
        }
        let data = vstd::slice::slice_to_vec(
            vstd::slice::slice_subrange(view, data_pos, data_pos + data_size),
        );
        if !header.verify_crc(data.as_slice()) {
            return Err(PersistentError::InvalidRecord);
        }
        let mem_header = RecordHeader {
            size: header.size,
            crc32: header.crc32,
            timestamp_us: header.timestamp_us,
            tag: header.tag,
        };
        let record = Record { header: mem_header, data };
        Ok(Some((record, Header::SIZE + data_size)))
    }

    /// Read all available records from the current read position up to the
    /// write position, and move the read position past them.
    ///
    /// A corrupt record fails the whole read and leaves the buffer unchanged.
    pub fn read_all(&mut self) -> (r: Result<Vec<Record>>)
        requires
            old(self).wf(),
        ensures
            final(self).wf(),
            final(self).size_spec() == old(self).size_spec(),
            ({
                let c = old(self).control();
                if c.read_pos == c.write_pos {
                    &&& r matches Ok(v) && v@.len() == 0
                    &&& final(self).region() == old(self).region()
                    &&& final(self).control() == c
                } else {
                    match scan(
                        old(self).region(),
                        old(self).size_spec(),
                        c.read_pos as int,
                        c.write_pos as int,
                    ) {
                        None => {
                            &&& r matches Err(PersistentError::InvalidRecord)
                            &&& final(self).region() == old(self).region()
                            &&& final(self).control() == c
                        },
                        Some((recs, end)) => {
                            &&& ok_or_io(r)
                            &&& (r matches Ok(v) ==> v@.map_values(|x: Record| x@) == recs)
                            &&& final(self).control() == control_with_read_pos(c, end as u64)
                            &&& end >= c.write_pos
                            &&& final(self).region() == splice(
                                old(self).region(),
                                0,
                                control_block_bytes(final(self).control()),
                            )
                        },
                    }
                }
            }),
    {
        let c = self.control;
        if c.read_pos == c.write_pos {
            return Ok(Vec::new());
        }
        let ghost region = self.region();
        let ghost size = self.size_spec();
        let mut records: Vec<Record> = Vec::new();
        let mut current = c.read_pos;
        while current < c.write_pos
            invariant
                self.wf(),
                self.region() == region,
                self.size_spec() == size,
                self.control == c,
                size + ControlBlock::SIZE <= usize::MAX,
                scan(region, size, c.read_pos as int, c.write_pos as int) == match scan(
                    region,
                    size,
                    current as int,
                    c.write_pos as int,
                ) {
                    Some((rs, end)) => Some((records@.map_values(|x: Record| x@) + rs, end)),
                    None => None,
                },
            decreases (if current < c.write_pos {
                c.write_pos - current
            } else {
                0
            }),
        {
            if current >= self.size as u64 {
                // past the data area nothing more can be found
                current = skip_past(current, c.write_pos);
            } else {
                match self.read_at(current) {
                    Err(e) => {
                        return Err(e);
                    },
                    Ok(Some((record, n))) => {
                        proof {
                            assert(records@.push(record).map_values(|x: Record| x@)
                                =~= records@.map_values(|x: Record| x@).push(record@));
                        }
                        records.push(record);
                        current = current + n as u64;
                    },
                    Ok(None) => {
                        current = current + Header::SIZE as u64;
                    },
                }
            }
        }
        proof {
            lemma_scan_end(region, size, c.read_pos as int, c.write_pos as int);
        }
        let mut control = c;
        control.read_pos = current;
        control.update_crc();
        self.store_control(control);
        match self.flush_region() {
            Ok(()) => Ok(records),
            Err(e) => Err(e),
        }
    }

    /// Set the read position to `pos` and store the control block.
    pub(crate) fn set_read_position(&mut self, pos: u64) -> (r: Result<()>)
        requires
            old(self).wf(),
        ensures
            final(self).wf(),
            final(self).size_spec() == old(self).size_spec(),
            ok_or_io(r),
            final(self).control() == control_with_read_pos(old(self).control(), pos),
            final(self).region() == splice(
                old(self).region(),
                0,
                control_block_bytes(final(self).control()),
            ),
    {
        let mut control = self.control;
        control.read_pos = pos;
        control.update_crc();
        self.store_control(control);
        self.flush_region()
    }

    /// Reset the read position to skip old records
    pub fn reset_read_position(&mut self) -> (r: Result<()>)
        requires
            old(self).wf(),
        ensures
            final(self).wf(),
            final(self).size_spec() == old(self).size_spec(),
            ok_or_io(r),
            final(self).control() == control_with_read_pos(
                old(self).control(),
                old(self).control().write_pos,
            ),
            final(self).region() == splice(
                old(self).region(),
                0,
                control_block_bytes(final(self).control()),
            ),
    {
        let wp = self.control.write_pos;
        self.set_read_position(wp)
    }

    /// Flush all pending writes to disk
    pub fn flush(&self) -> (r: Result<()>)
        ensures
            ok_or_io(r),
    {
        self.flush_region()
    }
}

/// A walk ends at or past its target position.
pub proof fn lemma_scan_end(region: Seq<u8>, size: nat, from: int, to: int)
    requires
        scan(region, size, from, to) is Some,
    ensures
        scan(region, size, from, to).unwrap().1 >= to,
        from >= to ==> scan(region, size, from, to) == Some((Seq::<RecordView>::empty(), from)),
    decreases (if to > from {
        to - from
    } else {
        0
    }),
{
    if from < to {
        match read_at_spec(region, size, from) {
            ReadOutcome::Found(h, d) => {
                lemma_scan_end(region, size, from + Header::SIZE + d.len(), to);
            },
            ReadOutcome::Nothing => {
                if from < size {
                    lemma_scan_end(region, size, from + Header::SIZE, to);
                }
            },
            ReadOutcome::Corrupt => {},
        }
    }
}

/// What is read at a position depends only on the region's length and on the
/// bytes of the record found there.
proof fn lemma_read_at_stable(r1: Seq<u8>, r2: Seq<u8>, size: nat, pos: int, hi: int)
    requires
        r1.len() == r2.len(),
        0 <= pos,
        pos + Header::SIZE <= hi,
        ControlBlock::SIZE + hi <= r1.len(),
        forall|i: int| ControlBlock::SIZE + pos <= i < ControlBlock::SIZE + hi ==> r1[i] == r2[i],
        !(read_at_spec(r1, size, pos) is Corrupt),
        read_at_spec(r1, size, pos) matches ReadOutcome::Found(h, d) ==> pos + Header::SIZE
            + d.len() <= hi,
    ensures
        read_at_spec(r2, size, pos) == read_at_spec(r1, size, pos),
{
    let abs = ControlBlock::SIZE + pos;
    assert(r1.subrange(abs, abs + Header::SIZE) =~= r2.subrange(abs, abs + Header::SIZE));
    let h = decode_header(r1.subrange(abs, abs + Header::SIZE));
    let start = abs + Header::SIZE;
    if pos < size && h.marker == Header::MARKER && start + h.size <= r1.len() {
        assert(r1.subrange(start, start + h.size) =~= r2.subrange(start, start + h.size));
    }
}

/// A walk that stays below `hi` reads the same in two regions that agree
/// on the data area from its start up to `hi`.
proof fn lemma_scan_stable(r1: Seq<u8>, r2: Seq<u8>, size: nat, from: int, to: int, hi: int)
    requires
        r1.len() == r2.len(),
        0 <= from,
        ControlBlock::SIZE + hi <= r1.len(),
        forall|i: int| ControlBlock::SIZE + from <= i < ControlBlock::SIZE + hi ==> r1[i] == r2[i],
        scan(r1, size, from, to) is Some,
        scan(r1, size, from, to).unwrap().1 <= hi,
    ensures
        scan(r2, size, from, to) == scan(r1, size, from, to),
    decreases (if to > from {
        to - from
    } else {
        0
    }),
{
    if from < to {
        let o = read_at_spec(r1, size, from);
        match o {
            ReadOutcome::Found(h, d) => {
                let next = from + Header::SIZE + d.len();
                lemma_scan_end(r1, size, next, to);
                lemma_read_at_stable(r1, r2, size, from, hi);
                lemma_scan_stable(r1, r2, size, next, to, hi);
            },
            ReadOutcome::Nothing => {
                if from < size {
                    let next = from + Header::SIZE;
                    lemma_scan_end(r1, size, next, to);
                    lemma_read_at_stable(r1, r2, size, from, hi);
                    lemma_scan_stable(r1, r2, size, next, to, hi);
                }
            },
            ReadOutcome::Corrupt => {},
        }
    }
}

/// A walk that ends exactly at `mid` continues from `mid` when the target
/// lies further on.
proof fn lemma_scan_split(region: Seq<u8>, size: nat, from: int, mid: int, to: int)
    requires
        scan(region, size, from, mid) matches Some((_, e)) && e == mid,
        mid <= to,
        mid <= size,
    ensures
        scan(region, size, from, to) == match scan(region, size, mid, to) {
            Some((rs2, e)) => Some((scan(region, size, from, mid).unwrap().0 + rs2, e)),
            None => None,
        },
    decreases (if mid > from {
        mid - from
    } else {
        0
    }),
{
    if from >= mid {
        assert(from == mid);
        assert(Seq::<RecordView>::empty() + scan(region, size, mid, to).unwrap().0 =~= scan(
            region,
            size,
            mid,
            to,
        ).unwrap().0);
    } else {
        match read_at_spec(region, size, from) {
            ReadOutcome::Found(h, d) => {
                let next = from + Header::SIZE + d.len();
                lemma_scan_split(region, size, next, mid, to);
                let head = seq![record_view_of(h, d)];
                match scan(region, size, mid, to) {
                    Some((rs2, e)) => {
                        assert(head + (scan(region, size, next, mid).unwrap().0 + rs2) =~= (head
                            + scan(region, size, next, mid).unwrap().0) + rs2);
                    },
                    None => {},
                }
            },
            ReadOutcome::Nothing => {
                lemma_scan_split(region, size, from + Header::SIZE, mid, to);
            },
            ReadOutcome::Corrupt => {},
        }
    }
}

/// `lemma_write_then_read_at` for any region with room for the data area.
pub(crate) proof fn lemma_write_then_read_at_raw(region: Seq<u8>, c: ControlBlock, size: nat, rec: RecordView)
    requires
        write_in_region(region.len(), c, size, Header::SIZE + rec.data.len()),
        rec.data.len() <= u32::MAX,
        Header::SIZE + rec.data.len() <= size,
    ensures
        ({
            let total = Header::SIZE + rec.data.len();
            let after = region_after_write(region, c, size, rec);
            let at = write_offset(c, size, total);
            &&& after.len() == region.len()
            &&& read_at_spec(after, size, at) == ReadOutcome::Found(
                disk_header_for(rec),
                rec.data,
            )
        }),
{
    let total = Header::SIZE + rec.data.len();
    let p = write_offset(c, size, total);
    let at = ControlBlock::SIZE + p;
    let h = disk_header_for(rec);
    let hb = header_bytes(h);
    lemma_header_roundtrip(h);
    let r1 = splice(region, at, hb);
    lemma_splice(region, at, hb);
    let r2 = splice(r1, at + Header::SIZE, rec.data);
    lemma_splice(r1, at + Header::SIZE, rec.data);
    let cb = control_block_bytes(control_after_write(c, size, total));
    lemma_control_block_roundtrip(control_after_write(c, size, total));
    let r3 = splice(r2, 0, cb);
    lemma_splice(r2, 0, cb);
    assert(r3.subrange(at, at + Header::SIZE) =~= hb);
    assert(r3.subrange(at + Header::SIZE, at + Header::SIZE + rec.data.len()) =~= rec.data);
}

/// Reading at the offset where a record was just written gives back that
/// record: its header as written and its data.
pub proof fn lemma_write_then_read_at(b: PersistentRingBuffer, rec: RecordView)
    requires
        b.wf(),
        rec.data.len() <= u32::MAX,
        Header::SIZE + rec.data.len() <= b.size_spec(),
        write_in_region(b.region().len(), b.control(), b.size_spec(), Header::SIZE + rec.data.len()),
    ensures
        ({
            let total = Header::SIZE + rec.data.len();
            let after = region_after_write(b.region(), b.control(), b.size_spec(), rec);
            let at = write_offset(b.control(), b.size_spec(), total);
            &&& after.len() == b.region().len()
            &&& read_at_spec(after, b.size_spec(), at) == ReadOutcome::Found(
                disk_header_for(rec),
                rec.data,
            )
        }),
{
    lemma_write_then_read_at_raw(b.region(), b.control(), b.size_spec(), rec);
}

/// A buffer's region opens again as the same buffer: same control block,
/// same data area.
pub proof fn lemma_reopen(b: PersistentRingBuffer, size: nat)
    requires
        b.wf(),
    ensures
        open_outcome(b.region(), false, size) == Some(b.control()),
        b.control().buffer_size == b.size_spec(),
{
}

/// `lemma_write_extends_scan` for any region with room for the data area.
pub(crate) proof fn lemma_write_extends_scan_raw(
    region: Seq<u8>,
    c: ControlBlock,
    size: nat,
    rec: RecordView,
    from: int,
)
    requires
        ControlBlock::SIZE + c.write_pos + Header::SIZE + rec.data.len() <= region.len(),
        region.len() <= usize::MAX,
        rec.data.len() <= u32::MAX,
        0 <= from <= c.write_pos,
        c.write_pos + Header::SIZE + rec.data.len() <= size,
        scan(region, size, from, c.write_pos as int) matches Some((_, e))
            && e == c.write_pos,
    ensures
        ({
            let total = Header::SIZE + rec.data.len();
            let c2 = control_after_write(c, size, total);
            let after = region_after_write(region, c, size, rec);
            let before = scan(region, size, from, c.write_pos as int);
            scan(after, size, from, c2.write_pos as int) == Some(
                (
                    before.unwrap().0.push(record_view_of(disk_header_for(rec), rec.data)),
                    c2.write_pos as int,
                ),
            )
        }),
{
    let wp = c.write_pos as int;
    let total = Header::SIZE + rec.data.len();
    let c2 = control_after_write(c, size, total);
    let after = region_after_write(region, c, size, rec);
    lemma_write_then_read_at_raw(region, c, size, rec);
    // the write leaves the data area below the old write position alone
    let at = ControlBlock::SIZE + wp;
    let h = disk_header_for(rec);
    let hb = header_bytes(h);
    lemma_header_roundtrip(h);
    let r1 = splice(region, at, hb);
    lemma_splice(region, at, hb);
    let r2 = splice(r1, at + Header::SIZE, rec.data);
    lemma_splice(r1, at + Header::SIZE, rec.data);
    let cb = control_block_bytes(c2);
    lemma_control_block_roundtrip(c2);
    lemma_splice(r2, 0, cb);
    assert forall|i: int| ControlBlock::SIZE + from <= i < ControlBlock::SIZE + wp implies region[i]
        == after[i] by {}
    lemma_scan_stable(region, after, size, from, wp, wp);
    let next = wp + total;
    assert(c2.write_pos == next);
    assert(scan(after, size, next, next) == Some((Seq::<RecordView>::empty(), next)));
    assert(scan(after, size, wp, next) == Some((seq![record_view_of(h, rec.data)], next))) by {
        assert(seq![record_view_of(h, rec.data)] + Seq::<RecordView>::empty() =~= seq![
            record_view_of(h, rec.data),
        ]);
    }
    lemma_scan_split(after, size, from, wp, next);
    assert(scan(region, size, from, wp).unwrap().0 + seq![record_view_of(h, rec.data)] =~= scan(
        region,
        size,
        from,
        wp,
    ).unwrap().0.push(record_view_of(h, rec.data)));
}

/// Records come back in the order they were written: when the walk from
/// `from` reaches exactly the write position, writing one more record
/// (without wrapping) makes the walk to the new write position yield the same
/// records followed by the new one.
pub proof fn lemma_write_extends_scan(b: PersistentRingBuffer, rec: RecordView, from: int)
    requires
        b.wf(),
        rec.data.len() <= u32::MAX,
        0 <= from <= b.control().write_pos,
        b.control().write_pos + Header::SIZE + rec.data.len() <= b.size_spec(),
        ControlBlock::SIZE + b.control().write_pos + Header::SIZE + rec.data.len()
            <= b.region().len(),
        scan(b.region(), b.size_spec(), from, b.control().write_pos as int) matches Some((_, e))
            && e == b.control().write_pos,
    ensures
        ({
            let total = Header::SIZE + rec.data.len();
            let c2 = control_after_write(b.control(), b.size_spec(), total);
            let after = region_after_write(b.region(), b.control(), b.size_spec(), rec);
            let before = scan(b.region(), b.size_spec(), from, b.control().write_pos as int);
            scan(after, b.size_spec(), from, c2.write_pos as int) == Some(
                (
                    before.unwrap().0.push(record_view_of(disk_header_for(rec), rec.data)),
                    c2.write_pos as int,
                ),
            )
        }),
{
    lemma_write_extends_scan_raw(b.region(), b.control(), b.size_spec(), rec, from);
}

/// The stored form of a record whose header describes its data reads back as
/// the record itself.
pub proof fn lemma_disk_header_keeps_record(rec: RecordView)
    requires
        rec.header.size == rec.data.len(),
        rec.header.crc32 == crc32(rec.data),
    ensures
        record_view_of(disk_header_for(rec), rec.data) == rec,
{
}

/// Once the read position is at or past the write position, reading all
/// records yields none.
pub proof fn lemma_caught_up_reads_nothing(region: Seq<u8>, size: nat, c: ControlBlock)
    requires
        c.read_pos >= c.write_pos,
    ensures
        c.read_pos == c.write_pos || scan(region, size, c.read_pos as int, c.write_pos as int)
            == Some((Seq::<RecordView>::empty(), c.read_pos as int)),
{
}

/// The wrap count counts the wraps: a write that does not fit after the
/// write position goes to the start of the data area and raises the wrap
/// count by one; any other write leaves it alone.  So two writes in a row
/// that both wrap raise it by two.
pub proof fn lemma_wrap_count_counts_wraps(c: ControlBlock, size: nat, t1: int, t2: int)
    requires
        0 < t1 <= size,
        0 < t2 <= size,
        size <= u64::MAX,
        c.wrap_count + 2 <= u64::MAX,
    ensures
        c.write_pos + t1 > size ==> control_after_write(c, size, t1).wrap_count == c.wrap_count
            + 1 && control_after_write(c, size, t1).write_pos == t1,
        c.write_pos + t1 <= size ==> control_after_write(c, size, t1).wrap_count == c.wrap_count
            && control_after_write(c, size, t1).write_pos == c.write_pos + t1,
        ({
            let c1 = control_after_write(c, size, t1);
            let c2 = control_after_write(c1, size, t2);
            c.write_pos + t1 > size && t1 + t2 > size ==> c2.wrap_count == c.wrap_count + 2
                && c2.write_pos == t2
        }),
{
}

} // verus!
