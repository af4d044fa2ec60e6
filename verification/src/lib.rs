//! Length-prefixed message framing over a byte stream.
//!
//! A message is sent as a frame: a four-byte big-endian length followed by
//! the payload bytes. `codec` holds the encoder and the stateful framer that
//! reassembles messages from arbitrarily chunked input; `wire` holds the
//! byte-level model of the format; `laws` proves the protocol's guarantees
//! (round-trip, fragmentation invariance, pipelining).

pub mod codec;
pub mod laws;
pub mod wire;
