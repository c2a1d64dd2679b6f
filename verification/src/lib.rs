//! Length-prefixed codec for fixed-size byte buffers.
//!
//! The wire form of a buffer of `N` bytes is an 8-byte little-endian length
//! prefix holding `N`, followed by the `N` content bytes. Decoding validates
//! that the declared length equals the expected fixed size and that enough
//! bytes are present, and fails with a typed error otherwise.

pub mod codec;
pub mod packet;
