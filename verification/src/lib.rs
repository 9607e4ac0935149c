//! A small file store for NOR flash partitions.

pub mod crc;
pub mod flash;
pub mod format;
pub mod recovery;
pub mod store;
pub mod text;
pub mod v1;

pub use flash::{Flash, RamFlash};
pub use format::MAX_NAME_LEN;
pub use store::{Store, StoreError};
