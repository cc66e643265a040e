//! Exchanging files over sound waves: the verified core of the `echolot` tool.
//!
//! Bytes become packets (compressed, then protected by a Reed-Solomon
//! erasure code), packets become sequences of tones (16-MFSK, one tone per
//! nibble) framed by start and end tones, and the receiving side turns
//! detected tones back into packets. Everything that touches an audio
//! device, the file system or the terminal lives outside this crate.
use vstd::prelude::*;

pub mod frequency;
pub mod modulation;
pub mod reed_solomon;
pub mod combinations;
pub mod error_correction;
pub mod packets;
pub mod quantise;
pub mod coding;
pub mod protocol;
pub mod audio;
pub mod cli;

verus! {

/// Duration of one transmitted symbol, in milliseconds.
pub const SYMBOL_DURATION_MS: u64 = 120;

/// Tolerance, in Hz, within which a detected tone counts as a control tone.
pub const STD_TOLERANCE: u32 = 20;

/// Frequency, in Hz, of the tone that carries nibble 0.
pub const MOD_OFFSET: u32 = 1024;

/// Distance, in Hz, between the tones of two consecutive nibbles.
pub const MOD_STEP_SIZE: u32 = 256;

/// Start-of-transmission tone, in Hz.
pub const SOT_FREQ: u32 = 8192;

/// End-of-transmission tone, in Hz.
pub const EOT_FREQ: u32 = 8704;

/// Tone, in Hz, with which the receiver accepts a file.
pub const CONFIRMATION_ACCEPT_FREQ: u32 = 3100;

/// Tone, in Hz, with which the receiver declines a file.
pub const CONFIRMATION_DENY_FREQ: u32 = 4100;

/// Tone, in Hz, with which the receiver asks a waiting sender to begin.
pub const INITIATION_FREQ: u32 = 7168;

} // verus!
