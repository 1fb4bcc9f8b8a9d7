//! Client-side codec for a STOMP-style text messaging protocol.
//!
//! The library turns outbound commands into framed wire bytes and
//! incrementally decodes inbound byte streams into discrete frames,
//! tolerating arbitrarily chunked delivery.  Everything here is verified;
//! the socket plumbing that feeds the decoder lives outside the library.

pub mod compress;
pub mod frame;
pub mod header;
pub mod laws;
pub mod session;
pub mod text;
pub mod wire;
