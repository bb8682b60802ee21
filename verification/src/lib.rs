//! A live-codable modular software synthesizer engine.
//!
//! A textual description of a signal graph (constants, oscillators,
//! amplifiers, stereo spreaders, note sequencers) is compiled into an
//! in-memory block graph that is stepped once per audio sample. The graph
//! can be recompiled while audio plays; a synchronizer carries the running
//! state (oscillator phase, sequencer progress) from the old graph to the
//! new one so playback continues without an audible restart.
//!
//! Signal values are Q32.32 fixed-point numbers stored in `i64` (see
//! [`fixed`]); the real value is the integer divided by 2^32.
use vstd::prelude::*;

pub mod blocks;
pub mod driver;
pub mod error;
pub mod fixed;
pub mod note;
pub mod parse;

verus! {

/// Audio sample rate of the whole engine, in samples per second.
pub const SAMPLE_RATE: u32 = 44100;

/// One, in the Q32.32 fixed-point encoding used for every signal value.
pub const SCALE: i64 = 4294967296;

/// One half in Q32.32.
pub const HALF_SCALE: i64 = 2147483648;

/// Samples per beat-minute: the sample rate times sixty. A sequencer
/// advances by `bpm / BEAT_RATE` beats every sample.
pub const BEAT_RATE: i64 = 44100 * 60;

} // verus!
