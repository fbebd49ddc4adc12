//! The data model of a MIDI file header and its decoder.

use vstd::prelude::*;

use crate::chunker::be_fold;
use crate::chunker::lemma_be_fold_fits;
use crate::chunker::spec_claim_end;
use crate::chunker::Chunker;
use crate::error::Error;

verus! {

/// The tag of a header chunk: the four ASCII characters "MThd" read
/// big-endian.
pub const MTHD_TAG: u32 = 0x4D54_6864;

/// The tag of a track chunk: the four ASCII characters "MTrk" read
/// big-endian.
pub const MTRK_TAG: u32 = 0x4D54_726B;

/// The recognized chunk kinds of a MIDI file.
#[derive(Clone, Copy, Debug, PartialEq, Eq, Structural)]
pub enum ChunkType {
    Header,
    Track,
}

/// Maps a 4-byte tag to its recognized kind, or `None` for any tag
/// outside the closed set. Total: defined for every 32-bit tag.
pub open spec fn spec_classify(tag: u32) -> Option<ChunkType> {
    if tag == MTHD_TAG {
        Some(ChunkType::Header)
    } else if tag == MTRK_TAG {
        Some(ChunkType::Track)
    } else {
        None
    }
}

/// Format of a MIDI file, as declared in the file header chunk.
#[derive(Clone, Copy, Debug, PartialEq, Eq, Structural)]
pub enum Format {
    /// The file contains a single, multi channel track.
    MultiChannel,
    /// The file contains one or more simultaneous tracks of a sequence.
    Simultaneous,
    /// The file contains one or more sequentially independent
    /// single-track patterns.
    Independent,
}

impl Format {
    /// The numeric header code of each format variant.
    pub open spec fn spec_code(self) -> u16 {
        match self {
            Format::MultiChannel => 0,
            Format::Simultaneous => 1,
            Format::Independent => 2,
        }
    }

    /// Which format a header code decodes to: exactly the codes 0, 1
    /// and 2 are valid.
    pub open spec fn spec_try_from(value: u16) -> Result<Format, Error> {
        if value == 0 {
            Ok(Format::MultiChannel)
        } else if value == 1 {
            Ok(Format::Simultaneous)
        } else if value == 2 {
            Ok(Format::Independent)
        } else {
            Err(Error::InvalidFormat(value))
        }
    }

    /// Decodes a header format code.
    pub fn try_from(value: u16) -> (r: Result<Format, Error>)
        ensures
            r == Format::spec_try_from(value),
    {
        match value {
            0 => Ok(Format::MultiChannel),
            1 => Ok(Format::Simultaneous),
            2 => Ok(Format::Independent),
            _ => Err(Error::InvalidFormat(value)),
        }
    }

    /// Encodes a format back to its numeric header code.
    pub fn code(self) -> (r: u16)
        ensures
            r == self.spec_code(),
    {
        match self {
            Format::MultiChannel => 0,
            Format::Simultaneous => 1,
            Format::Independent => 2,
        }
    }
}

/// Law: decoding the numeric code of a format yields that format back,
/// for each of the three valid codes.
pub proof fn lemma_format_code_round_trip(f: Format)
    ensures
        Format::spec_try_from(f.spec_code()) == Ok::<Format, Error>(f),
{
}

/// Law: each valid format code decodes to a format that encodes back
/// to the same code.
pub proof fn lemma_format_decode_encode(value: u16)
    requires
        value <= 2,
    ensures
        Format::spec_try_from(value) matches Ok(f) && f.spec_code() == value,
{
}

/// Standardized SMPTE frame rates.
#[derive(Clone, Copy, Debug, PartialEq, Eq, Structural)]
pub enum SmpteFormat {
    Fps24,
    Fps25,
    Fps30Drop,
    Fps30,
}

impl SmpteFormat {
    /// Which frame rate a signed byte code decodes to: exactly the
    /// codes -24, -25, -29 and -30 are valid.
    pub open spec fn spec_try_from(value: i16) -> Result<SmpteFormat, Error> {
        if value == -24 {
            Ok(SmpteFormat::Fps24)
        } else if value == -25 {
            Ok(SmpteFormat::Fps25)
        } else if value == -29 {
            Ok(SmpteFormat::Fps30Drop)
        } else if value == -30 {
            Ok(SmpteFormat::Fps30)
        } else {
            Err(Error::InvalidSmpteFormat(value))
        }
    }

    /// Decodes the sign-extended high byte of a negative division
    /// field.
    pub fn try_from(value: i16) -> (r: Result<SmpteFormat, Error>)
        ensures
            r == SmpteFormat::spec_try_from(value),
    {
        match value {
            -24 => Ok(SmpteFormat::Fps24),
            -25 => Ok(SmpteFormat::Fps25),
            -29 => Ok(SmpteFormat::Fps30Drop),
            -30 => Ok(SmpteFormat::Fps30),
            _ => Err(Error::InvalidSmpteFormat(value)),
        }
    }
}

/// Specifies the meaning of the delta times in the MIDI file.
#[derive(Clone, Copy, Debug, PartialEq, Eq, Structural)]
pub enum Division {
    /// A non-negative division field: ticks per quarter note.
    Metrical { ticks_per_quarter_note: u16 },
    /// A negative division field: an SMPTE frame rate in the
    /// sign-extended high byte, ticks per frame in the low byte.
    TimeCode { smpte_format: SmpteFormat, ticks_per_frame: u8 },
}

impl Division {
    /// Which division a signed 16-bit field decodes to. A non-negative
    /// value is a metrical division as it stands. A negative value
    /// splits into bytes: the high byte, arithmetically shifted so it
    /// keeps its sign, selects the SMPTE frame rate; the low byte is
    /// the tick count per frame.
    pub open spec fn spec_try_from(value: i16) -> Result<Division, Error> {
        if value >= 0 {
            Ok(Division::Metrical { ticks_per_quarter_note: value as u16 })
        } else {
            let bits = value + 0x10000;
            let high = (bits / 256 - 256) as i16;
            let low = (bits % 256) as u8;
            match SmpteFormat::spec_try_from(high) {
                Ok(f) => Ok(Division::TimeCode { smpte_format: f, ticks_per_frame: low }),
                Err(e) => Err(e),
            }
        }
    }

    /// Decodes the 16-bit signed division field of the header.
    pub fn try_from(value: i16) -> (r: Result<Division, Error>)
        ensures
            r == Division::spec_try_from(value),
    {
        if value >= 0 {
            Ok(Division::Metrical { ticks_per_quarter_note: value as u16 })
        } else {
            let bits: u16 = ((value as i32) + 0x10000) as u16;
            let high: i16 = (bits / 256) as i16 - 256;
            let low: u8 = (bits % 256) as u8;
            match SmpteFormat::try_from(high) {
                Ok(f) => Ok(Division::TimeCode { smpte_format: f, ticks_per_frame: low }),
                Err(e) => Err(e),
            }
        }
    }
}

/// Law: division decoding is total by case on the signed 16-bit
/// domain, split at zero. Every non-negative value is a metrical
/// division holding that value; every negative value whose high byte
/// is a valid SMPTE code is a time code pairing that rate with the low
/// byte; every other negative value is rejected with the offending
/// high byte.
pub proof fn lemma_division_total(value: i16)
    ensures
        value >= 0 ==> Division::spec_try_from(value) == Ok::<Division, Error>(
            (Division::Metrical { ticks_per_quarter_note: value as u16 }),
        ),
        value < 0 ==> {
            let high = ((value + 0x10000) / 256 - 256) as i16;
            let low = ((value + 0x10000) % 256) as u8;
            &&& SmpteFormat::spec_try_from(high) matches Ok(f)
                ==> Division::spec_try_from(value) == Ok::<Division, Error>(
                (Division::TimeCode { smpte_format: f, ticks_per_frame: low }),
            )
            &&& SmpteFormat::spec_try_from(high) is Err ==> Division::spec_try_from(value)
                == Err::<Division, Error>(Error::InvalidSmpteFormat(high))
        },
{
}

/// The 4-character name of a tag: each byte read as the character
/// with that code point.
pub open spec fn spec_tag_chars(tag: u32) -> Seq<char> {
    seq![
        ((tag / 0x100_0000) as u8) as char,
        (((tag / 0x1_0000) % 256) as u8) as char,
        (((tag / 0x100) % 256) as u8) as char,
        ((tag % 256) as u8) as char,
    ]
}

/// Relies on `String::push`: appends exactly the given character.
#[verifier::external_body]
fn push_char(s: &mut String, c: char)
    ensures
        final(s)@ == old(s)@.push(c),
{
    s.push(c)
}

/// A raw chunk sliced out of a MIDI file buffer: its 4-byte tag, read
/// big-endian, and its payload.
#[derive(Clone, Copy, Debug)]
pub struct Chunk<'a> {
    pub tag: u32,
    pub data: &'a [u8],
}

/// The mathematical shape of a raw chunk.
pub ghost struct SpecChunk {
    pub tag: u32,
    pub data: Seq<u8>,
}

impl<'a> View for Chunk<'a> {
    type V = SpecChunk;

    open spec fn view(&self) -> SpecChunk {
        SpecChunk { tag: self.tag, data: self.data@ }
    }
}

impl<'a> Chunk<'a> {
    /// Returns the type of the chunk in its 4 character string
    /// representation.
    pub fn type_str(&self) -> (r: String)
        ensures
            r@ == spec_tag_chars(self.tag),
    {
        let b0: u8 = (self.tag / 0x100_0000) as u8;
        let b1: u8 = ((self.tag / 0x1_0000) % 256) as u8;
        let b2: u8 = ((self.tag / 0x100) % 256) as u8;
        let b3: u8 = (self.tag % 256) as u8;
        let mut r = String::new();
        push_char(&mut r, b0 as char);
        push_char(&mut r, b1 as char);
        push_char(&mut r, b2 as char);
        push_char(&mut r, b3 as char);
        proof {
            assert(r@ =~= spec_tag_chars(self.tag));
        }
        r
    }

    /// Returns the recognized kind of the chunk, or reports the tag as
    /// unrecognized. Total over all tags: an unrecognized tag is not a
    /// parse failure, the chunk is merely excluded from the track
    /// count.
    pub fn type_variant(&self) -> (r: Result<ChunkType, Error>)
        ensures
            r == match spec_classify(self.tag) {
                Some(t) => Ok::<ChunkType, Error>(t),
                None => Err::<ChunkType, Error>(Error::UnrecognizedChunkType(self.tag)),
            },
    {
        if self.tag == MTHD_TAG {
            Ok(ChunkType::Header)
        } else if self.tag == MTRK_TAG {
            Ok(ChunkType::Track)
        } else {
            Err(Error::UnrecognizedChunkType(self.tag))
        }
    }
}

/// Law: a tag classifies as a header or track chunk exactly when its
/// 4-character name is "MThd" or "MTrk" respectively.
pub proof fn lemma_classify_matches_name(tag: u32)
    ensures
        (spec_classify(tag) == Some(ChunkType::Header)) <==> (spec_tag_chars(tag) == "MThd"@),
        (spec_classify(tag) == Some(ChunkType::Track)) <==> (spec_tag_chars(tag) == "MTrk"@),
{
    reveal_strlit("MThd");
    reveal_strlit("MTrk");
    if spec_classify(tag) == Some(ChunkType::Header) {
        assert(spec_tag_chars(tag) =~= "MThd"@);
    }
    if spec_classify(tag) == Some(ChunkType::Track) {
        assert(spec_tag_chars(tag) =~= "MTrk"@);
    }
    if spec_tag_chars(tag) == "MThd"@ {
        assert(tag / 0x100_0000 == 0x4D && (tag / 0x1_0000) % 256 == 0x54 && (tag / 0x100) % 256
            == 0x68 && tag % 256 == 0x64 ==> tag == MTHD_TAG) by (bit_vector);
        assert(tag == MTHD_TAG);
    }
    if spec_tag_chars(tag) == "MTrk"@ {
        assert(tag / 0x100_0000 == 0x4D && (tag / 0x1_0000) % 256 == 0x54 && (tag / 0x100) % 256
            == 0x72 && tag % 256 == 0x6B ==> tag == MTRK_TAG) by (bit_vector);
        assert(tag == MTRK_TAG);
    }
}

/// Law: division decoding tells distinct inputs apart: no two
/// different field values decode successfully to the same division.
pub proof fn lemma_division_injective(a: i16, b: i16)
    requires
        Division::spec_try_from(a) is Ok,
        Division::spec_try_from(a) == Division::spec_try_from(b),
    ensures
        a == b,
{
    if a < 0 && b < 0 {
        let bits_a = a + 0x10000;
        let bits_b = b + 0x10000;
        assert(bits_a == (bits_a / 256) * 256 + bits_a % 256);
        assert(bits_b == (bits_b / 256) * 256 + bits_b % 256);
    }
}

/// The signed 16-bit reinterpretation of a raw 2-byte field value.
pub open spec fn spec_to_i16(v: nat) -> i16
    recommends
        v < 0x10000,
{
    if v < 0x8000 {
        v as i16
    } else {
        (v - 0x10000) as i16
    }
}

/// In-memory representation of the contents of a MIDI file.
#[derive(Clone, Copy, Debug, PartialEq, Eq, Structural)]
pub struct MidiFile {
    pub format: Format,
    pub division: Division,
}

/// What decoding a header payload yields, given the number of track
/// chunks present in the file. Three 2-byte big-endian fields are read
/// in a fixed order over one cursor: the format code, the declared
/// track count (which must equal `track_count`), and the signed
/// division field. A field that starts past the end of the payload
/// fails the decode; one that merely runs over its end is clamped.
pub open spec fn spec_decode_header(payload: Seq<u8>, track_count: nat) -> Result<
    MidiFile,
    Error,
> {
    if payload.len() == 0 {
        Err(Error::ChunkerDone)
    } else {
        let p1 = spec_claim_end(payload, 0, 2);
        let fmt_raw = be_fold(payload.subrange(0, p1));
        match Format::spec_try_from(fmt_raw as u16) {
            Err(e) => Err(e),
            Ok(format) => if p1 >= payload.len() {
                Err(Error::ChunkerDone)
            } else {
                let p2 = spec_claim_end(payload, p1, 2);
                let ntrks = be_fold(payload.subrange(p1, p2));
                if ntrks != track_count {
                    Err(Error::TrackCountMismatch)
                } else if p2 >= payload.len() {
                    Err(Error::ChunkerDone)
                } else {
                    let p3 = spec_claim_end(payload, p2, 2);
                    let div_raw = be_fold(payload.subrange(p2, p3));
                    match Division::spec_try_from(spec_to_i16(div_raw)) {
                        Err(e) => Err(e),
                        Ok(division) => Ok(MidiFile { format, division }),
                    }
                }
            },
        }
    }
}

/// The chunks a buffer splits into, starting at `pos`: repeatedly a
/// 4-byte tag, a 4-byte length and a payload of that length, until the
/// buffer is exhausted. `None` when the buffer ends in the middle of a
/// chunk, that is, when a read starts at the very end of the buffer.
pub open spec fn spec_chunks(buffer: Seq<u8>, pos: int) -> Option<Seq<SpecChunk>>
    recommends
        0 <= pos <= buffer.len(),
    decreases buffer.len() - pos,
{
    if pos >= buffer.len() {
        Some(Seq::empty())
    } else {
        let tag_end = spec_claim_end(buffer, pos, 4);
        let tag = be_fold(buffer.subrange(pos, tag_end));
        if tag_end >= buffer.len() {
            None
        } else {
            let len_end = spec_claim_end(buffer, tag_end, 4);
            let length = be_fold(buffer.subrange(tag_end, len_end));
            if len_end >= buffer.len() {
                None
            } else {
                let data_end = spec_claim_end(buffer, len_end, length as int);
                let data = buffer.subrange(len_end, data_end);
                match spec_chunks(buffer, data_end) {
                    None => None,
                    Some(rest) => Some(seq![SpecChunk { tag: tag as u32, data }] + rest),
                }
            }
        }
    }
}

/// How many chunks of a sequence classify as track chunks.
pub open spec fn spec_track_count(chunks: Seq<SpecChunk>) -> nat
    decreases chunks.len(),
{
    if chunks.len() == 0 {
        0
    } else {
        spec_track_count(chunks.drop_last()) + (if spec_classify(chunks.last().tag)
            == Some(ChunkType::Track) {
            1nat
        } else {
            0nat
        })
    }
}

/// Chunks already consumed, joined with what the rest of the buffer
/// holds.
pub open spec fn spec_chunks_join(acc: Seq<SpecChunk>, rest: Option<Seq<SpecChunk>>) -> Option<
    Seq<SpecChunk>,
> {
    match rest {
        None => None,
        Some(r) => Some(acc + r),
    }
}

/// What parsing a whole buffer yields: the buffer splits into chunks,
/// at least one chunk must be present, and the first chunk's payload
/// decodes as the header against the file's track chunk count.
pub open spec fn spec_parse(buffer: Seq<u8>) -> Result<MidiFile, Error> {
    match spec_chunks(buffer, 0) {
        None => Err(Error::ChunkerDone),
        Some(cs) => if cs.len() == 0 {
            Err(Error::EmptyFile)
        } else {
            spec_decode_header(cs[0].data, spec_track_count(cs))
        },
    }
}

impl MidiFile {
    /// Decodes the payload of the header chunk, checking the declared
    /// track count against the track chunks actually present.
    pub fn decode_header(payload: &[u8], track_count: u64) -> (r: Result<MidiFile, Error>)
        ensures
            r == spec_decode_header(payload@, track_count as nat),
    {
        let mut chunker = Chunker::new(payload);
        let fmt_raw: u64 = match chunker.claim_as(2) {
            Ok(v) => v,
            Err(e) => {
                return Err(e);
            },
        };
        proof {
            lemma_be_fold_fits(payload@.subrange(0, spec_claim_end(payload@, 0, 2)));
        }
        let format = match Format::try_from(fmt_raw as u16) {
            Ok(f) => f,
            Err(e) => {
                return Err(e);
            },
        };
        let ntrks: u64 = match chunker.claim_as(2) {
            Ok(v) => v,
            Err(e) => {
                return Err(e);
            },
        };
        if ntrks != track_count {
            return Err(Error::TrackCountMismatch);
        }
        let ghost p2 = chunker.spec_position();
        let div_raw: u64 = match chunker.claim_as(2) {
            Ok(v) => v,
            Err(e) => {
                return Err(e);
            },
        };
        proof {
            lemma_be_fold_fits(payload@.subrange(p2, spec_claim_end(payload@, p2, 2)));
        }
        let div_u16: u16 = div_raw as u16;
        let div_signed: i16 = if div_u16 < 0x8000 {
            div_u16 as i16
        } else {
            ((div_u16 as i32) - 0x10000) as i16
        };
        match Division::try_from(div_signed) {
            Ok(division) => Ok(MidiFile { format, division }),
            Err(e) => Err(e),
        }
    }

    /// Parses an in-memory MIDI file buffer into its validated header
    /// representation, or reports the first failure.
    pub fn parse(buffer: &[u8]) -> (r: Result<MidiFile, Error>)
        ensures
            r == spec_parse(buffer@),
    {
        let mut chunker = Chunker::new(buffer);
        let mut chunks: Vec<Chunk> = Vec::new();
        let ghost mut acc: Seq<SpecChunk> = Seq::empty();
        while !chunker.done()
            invariant
                chunker.wf(),
                chunker.spec_buffer() == buffer@,
                chunks@.len() == acc.len(),
                forall|i: int| 0 <= i < acc.len() ==> chunks@[i]@ == acc[i],
                spec_chunks(buffer@, 0) == spec_chunks_join(
                    acc,
                    spec_chunks(buffer@, chunker.spec_position()),
                ),
            decreases buffer@.len() - chunker.spec_position(),
        {
            let ghost pos0 = chunker.spec_position();
            let tag64: u64 = match chunker.claim_as(4) {
                Ok(v) => v,
                Err(e) => {
                    return Err(e);
                },
            };
            proof {
                lemma_be_fold_fits(buffer@.subrange(pos0, spec_claim_end(buffer@, pos0, 4)));
            }
            let tag: u32 = tag64 as u32;
            let ghost tag_end = chunker.spec_position();
            let length64: u64 = match chunker.claim_as(4) {
                Ok(v) => v,
                Err(e) => {
                    proof {
                        assert(spec_chunks(buffer@, pos0) is None);
                    }
                    return Err(e);
                },
            };
            proof {
                lemma_be_fold_fits(buffer@.subrange(tag_end, spec_claim_end(buffer@, tag_end, 4)));
            }
            let length: u32 = length64 as u32;
            let ghost len_end = chunker.spec_position();
            let data: &[u8] = match chunker.claim(length) {
                Ok(s) => s,
                Err(e) => {
                    proof {
                        assert(spec_chunks(buffer@, pos0) is None);
                    }
                    return Err(e);
                },
            };
            chunks.push(Chunk { tag, data });
            proof {
                let c = SpecChunk { tag, data: data@ };
                let pos1 = chunker.spec_position();
                assert(spec_chunks(buffer@, pos0) == match spec_chunks(buffer@, pos1) {
                    None => None::<Seq<SpecChunk>>,
                    Some(rest) => Some(seq![c] + rest),
                });
                match spec_chunks(buffer@, pos1) {
                    None => {
                    },
                    Some(rest) => {
                        assert(acc + (seq![c] + rest) =~= acc.push(c) + rest);
                    },
                }
                acc = acc.push(c);
            }
        }
        proof {
            assert(spec_chunks(buffer@, chunker.spec_position()) == Some(Seq::<SpecChunk>::empty()));
            assert(acc + Seq::<SpecChunk>::empty() =~= acc);
        }
        if chunks.is_empty() {
            return Err(Error::EmptyFile);
        }
        let mut track_count: u64 = 0;
        let mut i: usize = 0;
        while i < chunks.len()
            invariant
                i <= chunks@.len() == acc.len(),
                forall|j: int| 0 <= j < acc.len() ==> chunks@[j]@ == acc[j],
                track_count == spec_track_count(acc.take(i as int)),
                track_count <= i,
            decreases chunks@.len() - i,
        {
            let is_track = match chunks[i].type_variant() {
                Ok(t) => t == ChunkType::Track,
                Err(_) => false,
            };
            if is_track {
                track_count = track_count + 1;
            }
            proof {
                assert(acc.take(i + 1).drop_last() =~= acc.take(i as int));
                assert(acc.take(i + 1).last() == acc[i as int]);
            }
            i = i + 1;
        }
        proof {
            assert(acc.take(acc.len() as int) =~= acc);
        }
        let first: Chunk = chunks[0];
        Self::decode_header(first.data, track_count)
    }
}

/// Law: a parse reports that the file is empty exactly when the buffer
/// splits into zero complete chunks; in particular an empty buffer
/// does.
pub proof fn lemma_empty_file(buffer: Seq<u8>)
    ensures
        (spec_parse(buffer) == Err::<MidiFile, Error>(Error::EmptyFile)) <==> (spec_chunks(
            buffer,
            0,
        ) == Some(Seq::<SpecChunk>::empty())),
        buffer.len() == 0 ==> spec_parse(buffer) == Err::<MidiFile, Error>(Error::EmptyFile),
{
    match spec_chunks(buffer, 0) {
        None => {
        },
        Some(cs) => {
            if cs.len() != 0 {
                assert(spec_decode_header(cs[0].data, spec_track_count(cs)) != Err::<
                    MidiFile,
                    Error,
                >(Error::EmptyFile));
                assert(cs != Seq::<SpecChunk>::empty());
            } else {
                assert(cs =~= Seq::<SpecChunk>::empty());
            }
        },
    }
}

/// Law: a parse reports a track count mismatch exactly when the buffer
/// splits into at least one chunk, the header's format code is valid,
/// the declared track count field can be read, and that field differs
/// from the number of chunks whose tag classifies as a track chunk;
/// chunks with an unrecognized tag never enter that count.
pub proof fn lemma_track_count_mismatch(buffer: Seq<u8>)
    ensures
        (spec_parse(buffer) == Err::<MidiFile, Error>(Error::TrackCountMismatch)) <==> (match
            spec_chunks(buffer, 0) {
            None => false,
            Some(cs) => {
                let header = cs[0].data;
                let p1 = spec_claim_end(header, 0, 2);
                &&& cs.len() > 0
                &&& header.len() > 0
                &&& Format::spec_try_from(be_fold(header.subrange(0, p1)) as u16) is Ok
                &&& p1 < header.len()
                &&& be_fold(header.subrange(p1, spec_claim_end(header, p1, 2)))
                    != spec_track_count(cs)
            },
        }),
{
}

} // verus!

