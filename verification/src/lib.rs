//! The engine of a step-sequencing drum machine.
//!
//! A *pattern* says on which of the sixteen steps of a measure each
//! instrument plays, and how loud. An *instrumentation* binds instruments
//! to audio sample files. Binding the two gives one track for each sample
//! file, and the timing functions say when each step of a track is due at a
//! tempo, and how a measure is padded so that it can be repeated without a
//! seam.
//!
//! The library reads texts and computes; it opens no file and plays no
//! sound. Every function is verified against its contract, but for the few
//! in [`bits`] and [`number`] that hand a call to the `bitvec` and `nom`
//! crates.
//!
//! - [`pattern`]: instruments, step sequences, amplitudes, and the parser
//!   of pattern files.
//! - [`instrumentation`]: sample files and the parser of instrumentation
//!   files.
//! - [`audio`]: the binding of tracks, and the timing of playback.
//! - [`error`]: what parsing and resolving files fail with.
//! - [`text`]: runs of bytes and the lines of a text.
//! - [`table`]: maps made of a list of keys and a list of values.
//! - [`number`]: single-precision numbers by their encoding.
//! - [`bits`]: the bit vector that stores a step sequence.

pub mod audio;
pub mod bits;
pub mod error;
pub mod instrumentation;
pub mod number;
pub mod pattern;
pub mod table;
pub mod text;
