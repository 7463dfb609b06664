//! Framed-record decoding for a byte-oriented log transport.
//!
//! A record travels on the wire as a frame: a start marker, a big-endian
//! 16-bit payload length, a kind/version marker, a severity byte, and a
//! UTF-8 payload. This crate provides the pure codec between records and
//! frames ([`record`]), a stateful reassembler that recovers frames from an
//! arbitrarily chunked byte stream ([`reassembly`]), and the per-read-cycle
//! decision logic of an ingestion session ([`session`]). Around them sit a
//! delimiter-based line splitter for the unframed logging mode ([`lines`])
//! and pure text helpers for configuration strings and timestamps
//! ([`text`]).

pub mod lines;
pub mod reassembly;
pub mod record;
pub mod session;
pub mod text;
