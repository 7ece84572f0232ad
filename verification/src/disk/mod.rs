//! On-disk layout of the persistent ring: the control block that opens the
//! region and the header that precedes each record.
//!
//! The region starts with the control block (`ControlBlock::SIZE` bytes):
//! magic, version, buffer size, write position, read position and wrap count
//! (little-endian), then the CRC32 of those first 40 bytes, then four bytes of
//! padding.  The data area of `buffer_size` bytes follows.  Each record in the
//! data area is a `Header` (`Header::SIZE` bytes) followed by its data.

pub mod persistent;
pub mod cursor;

use vstd::prelude::*;
use vstd::bytes::*;
use crate::checksum::{crc32, crc32_of};

verus! {

/// Buffer control block for persistent storage
#[derive(Debug, Clone, Copy)]
pub struct ControlBlock {
    /// Magic number to identify the buffer format (0x5348524C = "SHRL")
    pub magic: u32,
    /// Version of the buffer format
    pub version: u32,
    /// Total size of the buffer in bytes
    pub buffer_size: u64,
    /// Current write position
    pub write_pos: u64,
    /// Current read position
    pub read_pos: u64,
    /// Number of wraps around the buffer
    pub wrap_count: u64,
    /// CRC32 of the control block (excluding this field)
    pub crc32: u32,
}

/// The 40 bytes that the control block's CRC covers: every field but the CRC.
pub open spec fn control_prefix_bytes(c: ControlBlock) -> Seq<u8> {
    spec_u32_to_le_bytes(c.magic) + spec_u32_to_le_bytes(c.version) + spec_u64_to_le_bytes(
        c.buffer_size,
    ) + spec_u64_to_le_bytes(c.write_pos) + spec_u64_to_le_bytes(c.read_pos)
        + spec_u64_to_le_bytes(c.wrap_count)
}

/// The bytes that encode a control block at the start of the region.
pub open spec fn control_block_bytes(c: ControlBlock) -> Seq<u8> {
    control_prefix_bytes(c) + spec_u32_to_le_bytes(c.crc32) + seq![0u8, 0u8, 0u8, 0u8]
}

/// The control block that the first 48 bytes of a region encode.
pub open spec fn decode_control_block(b: Seq<u8>) -> ControlBlock {
    ControlBlock {
        magic: spec_u32_from_le_bytes(b.subrange(0, 4)),
        version: spec_u32_from_le_bytes(b.subrange(4, 8)),
        buffer_size: spec_u64_from_le_bytes(b.subrange(8, 16)),
        write_pos: spec_u64_from_le_bytes(b.subrange(16, 24)),
        read_pos: spec_u64_from_le_bytes(b.subrange(24, 32)),
        wrap_count: spec_u64_from_le_bytes(b.subrange(32, 40)),
        crc32: spec_u32_from_le_bytes(b.subrange(40, 44)),
    }
}

/// The stored CRC is the checksum of the other fields.
pub open spec fn control_crc_valid(c: ControlBlock) -> bool {
    c.crc32 == crc32(control_prefix_bytes(c))
}

/// The control block with its CRC recomputed.
pub open spec fn with_crc(c: ControlBlock) -> ControlBlock {
    ControlBlock { crc32: crc32(control_prefix_bytes(c)), ..c }
}

/// A fresh control block for a data area of `buffer_size` bytes.
pub open spec fn new_control_block(buffer_size: u64) -> ControlBlock {
    with_crc(
        ControlBlock {
            magic: ControlBlock::MAGIC,
            version: ControlBlock::VERSION,
            buffer_size,
            write_pos: 0,
            read_pos: 0,
            wrap_count: 0,
            crc32: 0,
        },
    )
}

/// Decoding an encoded control block gives it back.
pub proof fn lemma_control_block_roundtrip(c: ControlBlock)
    ensures
        control_prefix_bytes(c).len() == 40,
        control_block_bytes(c).len() == 48,
        decode_control_block(control_block_bytes(c)) == c,
{
    lemma_auto_spec_u32_to_from_le_bytes();
    lemma_auto_spec_u64_to_from_le_bytes();
    let b = control_block_bytes(c);
    assert(b.subrange(0, 4) =~= spec_u32_to_le_bytes(c.magic));
    assert(b.subrange(4, 8) =~= spec_u32_to_le_bytes(c.version));
    assert(b.subrange(8, 16) =~= spec_u64_to_le_bytes(c.buffer_size));
    assert(b.subrange(16, 24) =~= spec_u64_to_le_bytes(c.write_pos));
    assert(b.subrange(24, 32) =~= spec_u64_to_le_bytes(c.read_pos));
    assert(b.subrange(32, 40) =~= spec_u64_to_le_bytes(c.wrap_count));
    assert(b.subrange(40, 44) =~= spec_u32_to_le_bytes(c.crc32));
}

/// Recomputing the CRC yields a block whose CRC checks, whatever it held.
pub proof fn lemma_with_crc_valid(c: ControlBlock)
    ensures
        control_crc_valid(with_crc(c)),
        control_prefix_bytes(with_crc(c)) == control_prefix_bytes(c),
{
}

impl ControlBlock {
    /// Size of the control block in bytes
    pub const SIZE: usize = 48;

    /// Magic number for buffer format identification ("SHRL")
    pub const MAGIC: u32 = 0x5348524C;

    /// Current buffer format version
    pub const VERSION: u32 = 1;

    /// Create a new control block for a new buffer
    pub fn new(buffer_size: u64) -> (c: Self)
        ensures
            c == new_control_block(buffer_size),
            control_crc_valid(c),
    {
        let mut block = Self {
            magic: Self::MAGIC,
            version: Self::VERSION,
            buffer_size,
            write_pos: 0,
            read_pos: 0,
            wrap_count: 0,
            crc32: 0,
        };
        block.update_crc();
        block
    }

    /// The bytes that the CRC covers: all fields except the CRC itself.
    fn prefix_bytes(&self) -> (b: Vec<u8>)
        ensures
            b@ == control_prefix_bytes(*self),
    {
        let mut b = u32_to_le_bytes(self.magic);
        let mut v = u32_to_le_bytes(self.version);
        b.append(&mut v);
        let mut s = u64_to_le_bytes(self.buffer_size);
        b.append(&mut s);
        let mut w = u64_to_le_bytes(self.write_pos);
        b.append(&mut w);
        let mut r = u64_to_le_bytes(self.read_pos);
        b.append(&mut r);
        let mut k = u64_to_le_bytes(self.wrap_count);
        b.append(&mut k);
        b
    }

    /// Calculate CRC32 for the control block and update the field
    pub fn update_crc(&mut self)
        ensures
            *final(self) == with_crc(*old(self)),
            control_crc_valid(*final(self)),
    {
        let bytes = self.prefix_bytes();
        self.crc32 = crc32_of(bytes.as_slice());
    }

    /// Verify the CRC32 of the control block
    pub fn verify_crc(&self) -> (ok: bool)
        ensures
            ok == control_crc_valid(*self),
    {
        let bytes = self.prefix_bytes();
        self.crc32 == crc32_of(bytes.as_slice())
    }

    /// The encoding of this control block.
    pub fn to_bytes(&self) -> (b: Vec<u8>)
        ensures
            b@ == control_block_bytes(*self),
            b@.len() == Self::SIZE,
    {
        proof {
            lemma_control_block_roundtrip(*self);
        }
        let mut b = self.prefix_bytes();
        let mut c = u32_to_le_bytes(self.crc32);
        b.append(&mut c);
        b.push(0u8);
        b.push(0u8);
        b.push(0u8);
        b.push(0u8);
        assert(b@ =~= control_block_bytes(*self));
        b
    }

    /// Decode a control block from its encoding.
    pub fn from_bytes(b: &[u8]) -> (c: Self)
        requires
            b@.len() >= 44,
        ensures
            c == decode_control_block(b@),
    {
        Self {
            magic: u32_from_le_bytes(vstd::slice::slice_subrange(b, 0, 4)),
            version: u32_from_le_bytes(vstd::slice::slice_subrange(b, 4, 8)),
            buffer_size: u64_from_le_bytes(vstd::slice::slice_subrange(b, 8, 16)),
            write_pos: u64_from_le_bytes(vstd::slice::slice_subrange(b, 16, 24)),
            read_pos: u64_from_le_bytes(vstd::slice::slice_subrange(b, 24, 32)),
            wrap_count: u64_from_le_bytes(vstd::slice::slice_subrange(b, 32, 40)),
            crc32: u32_from_le_bytes(vstd::slice::slice_subrange(b, 40, 44)),
        }
    }
}

/// Record header for disk storage
#[derive(Debug, Clone, Copy)]
pub struct Header {
    /// Size of the record data in bytes
    pub size: u32,
    /// CRC32 of the record data
    pub crc32: u32,
    /// Timestamp in microseconds since epoch
    pub timestamp_us: u64,
    /// Record type/tag
    pub tag: u32,
    /// A marker indicating a valid record (0xAA55)
    pub marker: u16,
    /// Reserved for future use
    pub reserved: u16,
}

/// The bytes that encode a record header in the data area.
pub open spec fn header_bytes(h: Header) -> Seq<u8> {
    spec_u32_to_le_bytes(h.size) + spec_u32_to_le_bytes(h.crc32) + spec_u64_to_le_bytes(
        h.timestamp_us,
    ) + spec_u32_to_le_bytes(h.tag) + spec_u16_to_le_bytes(h.marker) + spec_u16_to_le_bytes(
        h.reserved,
    )
}

/// The header that 24 bytes of the data area encode.
pub open spec fn decode_header(b: Seq<u8>) -> Header {
    Header {
        size: spec_u32_from_le_bytes(b.subrange(0, 4)),
        crc32: spec_u32_from_le_bytes(b.subrange(4, 8)),
        timestamp_us: spec_u64_from_le_bytes(b.subrange(8, 16)),
        tag: spec_u32_from_le_bytes(b.subrange(16, 20)),
        marker: spec_u16_from_le_bytes(b.subrange(20, 22)),
        reserved: spec_u16_from_le_bytes(b.subrange(22, 24)),
    }
}

/// Decoding an encoded record header gives it back.
pub proof fn lemma_header_roundtrip(h: Header)
    ensures
        header_bytes(h).len() == 24,
        decode_header(header_bytes(h)) == h,
{
    lemma_auto_spec_u16_to_from_le_bytes();
    lemma_auto_spec_u32_to_from_le_bytes();
    lemma_auto_spec_u64_to_from_le_bytes();
    let b = header_bytes(h);
    assert(b.subrange(0, 4) =~= spec_u32_to_le_bytes(h.size));
    assert(b.subrange(4, 8) =~= spec_u32_to_le_bytes(h.crc32));
    assert(b.subrange(8, 16) =~= spec_u64_to_le_bytes(h.timestamp_us));
    assert(b.subrange(16, 20) =~= spec_u32_to_le_bytes(h.tag));
    assert(b.subrange(20, 22) =~= spec_u16_to_le_bytes(h.marker));
    assert(b.subrange(22, 24) =~= spec_u16_to_le_bytes(h.reserved));
}

impl Header {
    /// Size of the header in bytes
    pub const SIZE: usize = 24;

    /// Marker value for valid records
    pub const MARKER: u16 = 0xAA55;

    /// Create a new record header
    pub fn new(size: u32, timestamp_us: u64, tag: u32) -> (h: Self)
        ensures
            h == (Header {
                size,
                crc32: 0,
                timestamp_us,
                tag,
                marker: Header::MARKER,
                reserved: 0,
            }),
    {
        Self { size, crc32: 0, timestamp_us, tag, marker: Self::MARKER, reserved: 0 }
    }

    /// Calculate CRC32 for the given data and update the header
    pub fn update_crc(&mut self, data: &[u8])
        ensures
            *final(self) == (Header { crc32: crc32(data@), ..*old(self) }),
    {
        self.crc32 = crc32_of(data);
    }

    /// Verify the CRC32 of the given data against the stored CRC
    pub fn verify_crc(&self, data: &[u8]) -> (ok: bool)
        ensures
            ok == (self.crc32 == crc32(data@)),
    {
        self.crc32 == crc32_of(data)
    }

    /// Check if this header represents a valid record
    pub fn is_valid(&self) -> (ok: bool)
        ensures
            ok == (self.marker == Header::MARKER),
    {
        self.marker == Self::MARKER
    }

    /// The encoding of this header.
    pub fn to_bytes(&self) -> (b: Vec<u8>)
        ensures
            b@ == header_bytes(*self),
            b@.len() == Self::SIZE,
    {
        proof {
            lemma_header_roundtrip(*self);
        }
        let mut b = u32_to_le_bytes(self.size);
        let mut c = u32_to_le_bytes(self.crc32);
        b.append(&mut c);
        let mut t = u64_to_le_bytes(self.timestamp_us);
        b.append(&mut t);
        let mut g = u32_to_le_bytes(self.tag);
        b.append(&mut g);
        let mut m = u16_to_le_bytes(self.marker);
        b.append(&mut m);
        let mut r = u16_to_le_bytes(self.reserved);
        b.append(&mut r);
        assert(b@ =~= header_bytes(*self));
        b
    }

    /// Decode a header from its encoding.
    pub fn from_bytes(b: &[u8]) -> (h: Self)
        requires
            b@.len() == 24,
        ensures
            h == decode_header(b@),
    {
        Self {
            size: u32_from_le_bytes(vstd::slice::slice_subrange(b, 0, 4)),
            crc32: u32_from_le_bytes(vstd::slice::slice_subrange(b, 4, 8)),
            timestamp_us: u64_from_le_bytes(vstd::slice::slice_subrange(b, 8, 16)),
            tag: u32_from_le_bytes(vstd::slice::slice_subrange(b, 16, 20)),
            marker: u16_from_le_bytes(vstd::slice::slice_subrange(b, 20, 22)),
            reserved: u16_from_le_bytes(vstd::slice::slice_subrange(b, 22, 24)),
        }
    }
}

} // verus!
