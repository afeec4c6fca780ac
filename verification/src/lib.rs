//! A log-structured key-value store over a single append-only log, together
//! with a few small self-contained models: an in-memory file, a message
//! relay between a ground station and its satellites, a tiny CPU, and a
//! search with context.
//!
//! The store is made of four parts. [`codec`] frames one key-value pair as
//! a record with a checksum. [`log`] packs records end to end and scans them.
//! [`index`] maps each key to the offset of its latest record. [`store`] puts
//! them together: [`ActionKV`] appends a record for every write and answers
//! reads through the index.
//!
//! The library does no input or output. It works on the image of the log in
//! memory; whoever owns the file reads it into the image and writes behind
//! the file what the image gained.

pub mod codec;
pub mod cpu;
pub mod cubesats;
pub mod file_api;
pub mod grep_lite;
pub mod index;
pub mod log;
pub mod store;

pub use codec::KeyValuePair;
pub use store::{ActionKV, StoreError};
