//! A read-optimized key-value store over immutable on-disk blobs: the index,
//! the wire protocol, the sector geometry of direct reads, the per-connection
//! request handling and the bookkeeping of the asynchronous I/O engine.
pub mod aio;
pub mod dispatch;
pub mod geometry;
pub mod protocol;
pub mod server;
pub mod toc;
pub mod wire;

pub use toc::TableOfContents;
