//! A verified codec for the RESP wire protocol: a frame model, an encoder
//! that maps every frame to its exact byte sequence, a decoder that reads a
//! frame back out of a growable byte buffer while tolerating partial input,
//! and the per-connection framing state that ties the two together.

pub mod builders;
pub mod decode;
pub mod digits;
pub mod encode;
pub mod frame;
pub mod framing;
pub mod roundtrip;
