//! An ephemeral, in-memory, multi-stream byte-buffer broker.
//!
//! Clients create numbered streams, append bytes to one, many, or all
//! streams (optionally with exclusions), and fetch accumulated contents,
//! destructively or not.  The crate provides the binary framing codec with
//! incremental partial-frame decoding, the stream store with idle-based
//! eviction, the request dispatcher, and the per-connection step function
//! that ties decoding, dispatch and encoding together.  Transport I/O,
//! timers and configuration live outside the library.

pub mod connection;
pub mod dispatch;
pub mod serialisation;
pub mod settings;
pub mod store;
