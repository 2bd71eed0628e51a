//! A verified client-side implementation of the statsd wire protocol:
//! encoding and decoding of metric lines, and packing of encoded lines
//! into size-bounded packets.

pub mod client;
pub mod metric;
pub mod sampling;
pub mod text;
