use vstd::prelude::*;

verus! {

/// Everything that can go wrong while decoding a MIDI file buffer.
///
/// Every failure aborts the whole parse; there is no partial result.
#[derive(Clone, Copy, Debug, PartialEq, Eq, Structural)]
pub enum Error {
    /// A read was attempted past the end of the buffer: the input is
    /// structurally truncated or corrupt.
    ChunkerDone,
    /// Zero complete chunks could be parsed from the buffer.
    EmptyFile,
    /// The header format code lies outside the valid set {0, 1, 2}.
    InvalidFormat(u16),
    /// The SMPTE code of a negative division field lies outside the
    /// valid set {-24, -25, -29, -30}.
    InvalidSmpteFormat(i16),
    /// The declared track count disagrees with the number of chunks
    /// whose tag classifies as a track chunk.
    TrackCountMismatch,
    /// A chunk tag names neither recognized chunk kind. This never
    /// fails a parse: such chunks are skipped and merely excluded
    /// from the track count.
    UnrecognizedChunkType(u32),
}

} // verus!
