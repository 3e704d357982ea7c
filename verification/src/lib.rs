//! Catalog and reconstruction core for fragmented game-recording clips.
//!
//! The library discovers the active recording root from a textual
//! key/value configuration, decodes per-clip binary metadata, orders and
//! selects clips, and plans the byte-level reassembly of each clip's
//! segmented media streams.  All decisions are made here over plain
//! values; the thin binary around the library performs the actual
//! filesystem reads, writes and subprocess calls.

pub mod catalog;
pub mod config;
pub mod errors;
pub mod meta;
pub mod pipeline;
pub mod profile;
pub mod strutil;
