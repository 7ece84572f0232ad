//! Sherlog ring buffer: a volatile in-memory log ring and a persistent,
//! region-backed log ring with cursor-based consumption.
//!
//! The volatile ring (`VolatileRingBuffer`) takes records through the
//! reserve-write-commit pattern, with an overflow queue for when it is full.
//! The persistent ring (`PersistentRingBuffer`) stores records behind a
//! checksummed control block in a memory-mapped region; `Cursor` reads them
//! back.  `flush` moves records from the first to the second.

pub mod checksum;
pub mod clock;
pub mod memory;
pub mod region;
pub mod disk;
pub mod flush;
pub mod ios;
pub mod jni;
pub mod types;

pub use memory::volatile::VolatileRingBuffer;
pub use disk::persistent::PersistentRingBuffer;
pub use disk::cursor::Cursor;
