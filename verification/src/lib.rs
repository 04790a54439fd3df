//! Line-oriented output buffering: framing of a byte stream into
//! newline-terminated records and sinks that store them plainly or as gzip.

pub mod codec;
pub mod config;
pub mod control;
pub mod error;
pub mod framing;
pub mod pipeline;
pub mod sink;
