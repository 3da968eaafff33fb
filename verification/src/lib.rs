//! Verified core of a chat relay: splitting an outbound reply into chunks
//! that respect a hard per-message length cap while keeping code spans
//! intact where possible, together with the small decision and formatting
//! helpers that surround that algorithm.

pub mod chars;
pub mod laws;
pub mod relay;
pub mod segment;
