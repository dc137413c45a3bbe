//! Incremental mailbox mirror: a verified synchronization, storage and
//! filter-matching engine.
//!
//! The library mirrors a remote mailbox into a local store in bounded
//! batches, keeps resumable cursors, and maintains a derived index of
//! which user-defined filter rules match which stored messages.  The
//! storage engine, the filter engine, the chunked fetch planner and the
//! sync coordinator are all verified; network and file I/O live outside
//! the library and hand it plain values.

pub mod filters;
pub mod folds;
pub mod gmail;
pub mod laws;
pub mod mail;
pub mod mime;
pub mod storage;
pub mod sync;
