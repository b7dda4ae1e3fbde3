//! A single-node, disk-backed record store: slotted pages in per-table heap
//! files, an in-memory buffer pool, and transactional concurrency control
//! with shared/exclusive page locks under the WAIT-DIE protocol.
//!
//! The backing file of each table is modelled as an explicit sequence of
//! fixed-size page images owned by the [`heap_file::HeapFile`]; an embedding
//! process persists those images and hands them back on startup.

pub mod buffer_pool;
pub mod catalog;
pub mod database;
pub mod errors;
pub mod fields;
pub mod heap_file;
pub mod heap_page;
pub mod lock_manager;
pub mod table;
pub mod transaction;
pub mod tuple;
pub mod types;

pub use types::Type;
pub use types::STRING_SIZE;
