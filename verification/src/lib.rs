//! A glide engine for MIDI: chords played on one input are re-voiced as a set
//! of monophonic output channels whose pitch bends glide from note to note.
//!
//! Everything is computed on integers. Times and durations are nanoseconds,
//! bends are 14-bit wire values, pitches are counted in 1/8192 of a semitone
//! and curve parameters in thousandths.
pub mod midi;
pub mod state;

