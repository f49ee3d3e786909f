//! Command-log codec and snapshot-reconstruction engine for replicating
//! entity state between a simulation authority and its observers.
//!
//! The crate has five parts: the wire codec for the outbound command log
//! (`codec`), the in-memory command buffer with its per-entity snapshot
//! cache (`mem`), the decoder for the inbound event stream (`dispatch`),
//! the sorted association container backing the cache (`kv`), and the
//! capability traits that tie host-side types to registered kind
//! identifiers (`traits`).

pub mod codec;
pub mod kv;
pub mod mem;
pub mod dispatch;
pub mod traits;
