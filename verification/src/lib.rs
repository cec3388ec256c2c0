//! noisescope: a structural analyzer for handshake transcripts.
//!
//! A protocol specification is a finite state machine over roles and message
//! types; a transcript is an ordered list of observed events. The library parses
//! both from JSON, replays transcripts against specifications, mutates
//! transcripts deterministically, shrinks failing mutation plans to 1-minimal
//! ones, and renders the results as JSON and text reports.
//!
//! It reasons about the shape of a handshake only (message order, roles,
//! nonce freshness, sequence numbers); it makes no cryptographic claim.

pub mod text;
pub mod model;
pub mod mutate;
pub mod minimize;
pub mod json;
pub mod roundtrip;
pub mod parser;
pub mod engine;
pub mod divergence;
pub mod report;

use vstd::prelude::*;

verus! {

/// Semantic version of the library and its command-line tool.
pub const VERSION: &'static str = "1.0.0";

} // verus!
