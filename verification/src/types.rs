//! Re-exported data types used in the API

pub use crate::memory::Record;
pub use crate::memory::RecordHeader;
pub use crate::disk::Header;
pub use crate::disk::ControlBlock;
pub use crate::disk::cursor::Position;
pub use crate::disk::persistent::PersistentError;
