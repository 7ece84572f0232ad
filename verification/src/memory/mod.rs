//! Records, their headers, and slot bookkeeping for the in-memory ring.
//!
//! A record is a header (size, CRC32 of the data, timestamp, tag) followed by
//! its data.  In the in-memory ring a header occupies `RecordHeader::SIZE`
//! bytes: the four little-endian fields followed by four zero bytes of padding.

pub mod layout;
pub mod volatile;

use vstd::prelude::*;
use vstd::bytes::*;
use crate::checksum::{crc32, crc32_of};
use crate::clock::now_micros;

verus! {

/// Record header information.
#[derive(Debug, Clone, Copy)]
pub struct RecordHeader {
    /// Size of the record in bytes (not including header)
    pub size: u32,
    /// CRC32 checksum of the record data
    pub crc32: u32,
    /// Timestamp of the record (microseconds since epoch)
    pub timestamp_us: u64,
    /// Record type/tag for filtering
    pub tag: u32,
}

/// The bytes that encode a record header in the in-memory ring.
pub open spec fn record_header_bytes(h: RecordHeader) -> Seq<u8> {
    spec_u32_to_le_bytes(h.size) + spec_u32_to_le_bytes(h.crc32) + spec_u64_to_le_bytes(
        h.timestamp_us,
    ) + spec_u32_to_le_bytes(h.tag) + seq![0u8, 0u8, 0u8, 0u8]
}

/// The header that a 24-byte sequence encodes.
pub open spec fn decode_record_header(b: Seq<u8>) -> RecordHeader {
    RecordHeader {
        size: spec_u32_from_le_bytes(b.subrange(0, 4)),
        crc32: spec_u32_from_le_bytes(b.subrange(4, 8)),
        timestamp_us: spec_u64_from_le_bytes(b.subrange(8, 16)),
        tag: spec_u32_from_le_bytes(b.subrange(16, 20)),
    }
}

/// Decoding an encoded header gives the header back.
pub proof fn lemma_record_header_roundtrip(h: RecordHeader)
    ensures
        record_header_bytes(h).len() == 24,
        decode_record_header(record_header_bytes(h)) == h,
{
    lemma_auto_spec_u32_to_from_le_bytes();
    lemma_auto_spec_u64_to_from_le_bytes();
    let b = record_header_bytes(h);
    assert(b.subrange(0, 4) =~= spec_u32_to_le_bytes(h.size));
    assert(b.subrange(4, 8) =~= spec_u32_to_le_bytes(h.crc32));
    assert(b.subrange(8, 16) =~= spec_u64_to_le_bytes(h.timestamp_us));
    assert(b.subrange(16, 20) =~= spec_u32_to_le_bytes(h.tag));
}

impl RecordHeader {
    /// Size of the record header in bytes
    pub const SIZE: usize = 24;

    /// Create a new record header, stamped with the current time and a zero CRC.
    pub fn new(size: u32, tag: u32) -> (h: Self)
        ensures
            h.size == size,
            h.tag == tag,
            h.crc32 == 0,
    {
        Self { size, crc32: 0, timestamp_us: now_micros(), tag }
    }

    /// Calculate CRC32 for the given data and update the header
    pub fn update_crc(&mut self, data: &[u8])
        ensures
            final(self).crc32 == crc32(data@),
            final(self).size == old(self).size,
            final(self).timestamp_us == old(self).timestamp_us,
            final(self).tag == old(self).tag,
    {
        self.crc32 = crc32_of(data);
    }

    /// Verify the CRC of the given data against the stored CRC
    pub fn verify_crc(&self, data: &[u8]) -> (ok: bool)
        ensures
            ok == (self.crc32 == crc32(data@)),
    {
        self.crc32 == crc32_of(data)
    }

    /// The in-memory encoding of this header.
    pub fn to_bytes(&self) -> (b: Vec<u8>)
        ensures
            b@ == record_header_bytes(*self),
    {
        let mut b = u32_to_le_bytes(self.size);
        let mut c = u32_to_le_bytes(self.crc32);
        b.append(&mut c);
        let mut t = u64_to_le_bytes(self.timestamp_us);
        b.append(&mut t);
        let mut g = u32_to_le_bytes(self.tag);
        b.append(&mut g);
        b.push(0u8);
        b.push(0u8);
        b.push(0u8);
        b.push(0u8);
        assert(b@ =~= record_header_bytes(*self));
        b
    }

    /// Decode a header from its in-memory encoding.
    pub fn from_bytes(b: &[u8]) -> (h: Self)
        requires
            b@.len() == 24,
        ensures
            h == decode_record_header(b@),
    {
        Self {
            size: u32_from_le_bytes(vstd::slice::slice_subrange(b, 0, 4)),
            crc32: u32_from_le_bytes(vstd::slice::slice_subrange(b, 4, 8)),
            timestamp_us: u64_from_le_bytes(vstd::slice::slice_subrange(b, 8, 16)),
            tag: u32_from_le_bytes(vstd::slice::slice_subrange(b, 16, 20)),
        }
    }
}

/// The mathematical content of a record: its header and its data bytes.
pub struct RecordView {
    pub header: RecordHeader,
    pub data: Seq<u8>,
}

/// A record in the ring buffer, containing header and data
#[derive(Debug)]
pub struct Record {
    /// Record metadata
    pub header: RecordHeader,
    /// Actual record data
    pub data: Vec<u8>,
}

impl View for Record {
    type V = RecordView;

    open spec fn view(&self) -> RecordView {
        RecordView { header: self.header, data: self.data@ }
    }
}

impl Record {
    /// A record whose header describes its data: the size field is the data
    /// length and the CRC is the checksum of the data.
    pub open spec fn consistent(&self) -> bool {
        &&& self.header.size == self.data@.len()
        &&& self.header.crc32 == crc32(self.data@)
    }

    /// Create a new record with the given data and tag
    pub fn new(data: Vec<u8>, tag: u32) -> (r: Self)
        ensures
            r.data@ == data@,
            r.header.size == data@.len() as u32,
            r.header.tag == tag,
            r.header.crc32 == crc32(data@),
            data@.len() <= u32::MAX ==> r.consistent(),
    {
        #[verifier::truncate]
        let size: u32 = data.len() as u32;
        let mut header = RecordHeader::new(size, tag);
        header.update_crc(data.as_slice());
        Self { header, data }
    }

    /// Total size of the record including header
    pub fn total_size(&self) -> (n: usize)
        requires
            self.data@.len() + RecordHeader::SIZE <= usize::MAX,
        ensures
            n == RecordHeader::SIZE + self.data@.len(),
    {
        RecordHeader::SIZE + self.data.len()
    }
}

/// Slot state for buffer entries
#[derive(Debug, Clone, Copy, PartialEq, Eq, Structural)]
pub enum SlotState {
    /// Slot is empty and available
    Empty,
    /// Slot is reserved but not written yet
    Reserved,
    /// Slot contains valid data
    Ready,
    /// Slot has been read and can be recycled
    Consumed,
}

/// The byte that stores a slot state.
pub open spec fn slot_state_code(s: SlotState) -> u8 {
    match s {
        SlotState::Empty => 0,
        SlotState::Reserved => 1,
        SlotState::Ready => 2,
        SlotState::Consumed => 3,
    }
}

/// The state a stored byte stands for; unknown bytes read as `Empty`.
pub open spec fn slot_state_of(b: u8) -> SlotState {
    if b == 1 {
        SlotState::Reserved
    } else if b == 2 {
        SlotState::Ready
    } else if b == 3 {
        SlotState::Consumed
    } else {
        SlotState::Empty
    }
}

fn state_code(s: SlotState) -> (b: u8)
    ensures
        b == slot_state_code(s),
{
    match s {
        SlotState::Empty => 0,
        SlotState::Reserved => 1,
        SlotState::Ready => 2,
        SlotState::Consumed => 3,
    }
}

/// A slot in the buffer that is transitioned through states
#[derive(Clone, Copy)]
pub struct Slot {
    /// Current state of the slot, stored as its code
    state: u8,
    /// Sequence number for this slot
    seq: usize,
}

impl Slot {
    /// The state the slot is in.
    pub open spec fn state_spec(&self) -> SlotState {
        slot_state_of(self.state_byte())
    }

    /// The byte that stores the state.
    pub closed spec fn state_byte(&self) -> u8 {
        self.state
    }

    /// The sequence number held by the slot.
    pub closed spec fn seq_spec(&self) -> usize {
        self.seq
    }

    /// Create a new empty slot
    pub fn new() -> (s: Self)
        ensures
            s.state_spec() == SlotState::Empty,
            s.seq_spec() == 0,
    {
        Self { state: 0, seq: 0 }
    }

    /// Set the state of this slot
    pub fn set_state(&mut self, state: SlotState)
        ensures
            final(self).state_byte() == slot_state_code(state),
            final(self).state_spec() == state,
            final(self).seq_spec() == old(self).seq_spec(),
    {
        self.state = state_code(state);
    }

    /// Get the current state
    pub fn state(&self) -> (s: SlotState)
        ensures
            s == self.state_spec(),
    {
        match self.state {
            0 => SlotState::Empty,
            1 => SlotState::Reserved,
            2 => SlotState::Ready,
            3 => SlotState::Consumed,
            _ => SlotState::Empty,
        }
    }

    /// Try to transition from one state to another; succeeds exactly when the
    /// slot is in state `from`.
    pub fn try_transition(&mut self, from: SlotState, to: SlotState) -> (ok: bool)
        ensures
            ok == (old(self).state_byte() == slot_state_code(from)),
            ok ==> final(self).state_byte() == slot_state_code(to),
            ok ==> final(self).state_spec() == to,
            !ok ==> final(self).state_byte() == old(self).state_byte(),
            final(self).seq_spec() == old(self).seq_spec(),
    {
        let from_val = state_code(from);
        if self.state == from_val {
            self.state = state_code(to);
            true
        } else {
            false
        }
    }

    /// Set the sequence number for this slot
    pub fn set_seq(&mut self, seq: usize)
        ensures
            final(self).seq_spec() == seq,
            final(self).state_byte() == old(self).state_byte(),
    {
        self.seq = seq;
    }

    /// Get the sequence number for this slot
    pub fn seq(&self) -> (s: usize)
        ensures
            s == self.seq_spec(),
    {
        self.seq
    }
}

} // verus!
