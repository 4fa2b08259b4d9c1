//! A persistent, append-only recency cache for short byte strings, backed by
//! a single flat log file.
//!
//! The log is a concatenation of records, oldest first; each record is a
//! payload of at most 65,535 bytes followed by its length as a little-endian
//! `u16` trailer.  Storing the length *behind* the payload lets a cursor walk
//! the log backward, newest record first, in O(1) seeks per record.
//!
//! The crate verifies the storage engine itself: the record codec, the log
//! engine operating on the file image, the reverse cursor, and the
//! deduplicating compaction policy.  An I/O layer drives the same walk over a
//! real file through [`cursor::plan_step`] and [`recent::Collector`], so that
//! every offset, length and retention decision it uses is computed by
//! verified code.

pub mod codec;
pub mod cursor;
pub mod entry_type;
pub mod laws;
pub mod log;
pub mod recent;
