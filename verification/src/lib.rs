//! Selective-disclosure proof construction for notarized TLS transcripts.
//!
//! Given the plaintext transcripts of a notarized session (sent and
//! received) and a set of byte patterns that must stay secret, the
//! library computes the exact disclosable byte ranges, drives the
//! commit / finalize / reveal protocol over them, and assembles the
//! final proof object.

pub mod errors;
pub mod orchestrator;
pub mod ranges;
pub mod session;
