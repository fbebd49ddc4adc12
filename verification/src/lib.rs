//! A verified decoder for the chunked container structure of MIDI files.
//!
//! The library reads a complete in-memory byte buffer, splits it into
//! tagged, length-prefixed chunks, and interprets the header chunk:
//! the file format variant, the declared track count (checked against
//! the track chunks actually present), and the timing division field.

pub mod chunker;
pub mod error;
pub mod midi;
