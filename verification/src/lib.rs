//! A per-room message store: clients post opaque chat entries into named
//! rooms and read them back filtered, sorted and paginated. The store
//! assigns each entry an id and a creation timestamp, keeps one record
//! per entry under its room, and expires records past a retention window.

pub mod codec;
pub mod numfmt;
pub mod query;
pub mod repo;
pub mod room;
pub mod strutil;
pub mod sweep;
pub mod time;
pub mod types;
