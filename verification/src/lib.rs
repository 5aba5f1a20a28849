//! A log-structured key-value store with a binary wire protocol.
//!
//! The crate has three verified layers:
//!
//! - [`protocol`]: a stateless codec that frames a tagged [`protocol::Command`]
//!   as a length-prefixed byte sequence and parses it back.
//! - [`engine`]: the storage engine. A [`engine::KvStore`] owns an in-memory
//!   index and an in-memory image of the append-only segment log; replaying
//!   the segments always reproduces the index.
//! - [`server`]: the request dispatcher that maps one decoded request to one
//!   response and the matching store mutation.
//!
//! All file and socket handling stays outside this crate; callers pass
//! directory listings in as [`engine::SegmentFile`] values and persist the
//! record bytes that the mutating operations return.

pub mod engine;
pub mod error;
pub mod flags;
pub mod index;
pub mod protocol;
pub mod segment;
pub mod server;

pub use error::KvsError;
