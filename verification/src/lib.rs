//! A minimal responder for a single fixed kind of name-resolution query
//! carried over a datagram transport.
//!
//! The heart of the crate is the wire codec: a decoder that turns one inbound
//! datagram into a structured [`codec::Question`], and an encoder that turns a
//! `Question` into the bytes of exactly one outbound datagram, either an
//! authoritative answer for the single accepted name or a refusal. Both
//! directions are pure byte transformations; the datagram socket itself lives
//! outside this crate.

pub mod bits;
pub mod codec;
