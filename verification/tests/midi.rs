use midi::error::Error;
use midi::midi::Chunk;
use midi::midi::ChunkType;
use midi::midi::Division;
use midi::midi::Format;
use midi::midi::MidiFile;
use midi::midi::SmpteFormat;
use midi::midi::MTHD_TAG;
use midi::midi::MTRK_TAG;

fn chunk_bytes(tag: &[u8; 4], payload: &[u8]) -> Vec<u8> {
    let mut out = Vec::new();
    out.extend_from_slice(tag);
    out.extend_from_slice(&(payload.len() as u32).to_be_bytes());
    out.extend_from_slice(payload);
    out
}

#[test]
fn parses_single_track_header() {
    let mut buffer = chunk_bytes(b"MThd", &[0x00, 0x00, 0x00, 0x01, 0x00, 0x60]);
    buffer.extend_from_slice(&chunk_bytes(b"MTrk", &[0x00]));
    assert_eq!(
        MidiFile::parse(&buffer),
        Ok(MidiFile {
            format: Format::MultiChannel,
            division: Division::Metrical { ticks_per_quarter_note: 96 },
        })
    );
}

#[test]
fn parses_smpte_division() {
    let mut buffer = chunk_bytes(b"MThd", &[0x00, 0x01, 0x00, 0x01, 0xE2, 0x28]);
    buffer.extend_from_slice(&chunk_bytes(b"MTrk", &[0x00]));
    assert_eq!(
        MidiFile::parse(&buffer),
        Ok(MidiFile {
            format: Format::Simultaneous,
            division: Division::TimeCode {
                smpte_format: SmpteFormat::Fps30,
                ticks_per_frame: 40,
            },
        })
    );
}

#[test]
fn track_count_mismatch_when_a_track_is_missing() {
    let mut buffer = chunk_bytes(b"MThd", &[0x00, 0x00, 0x00, 0x02, 0x00, 0x60]);
    buffer.extend_from_slice(&chunk_bytes(b"MTrk", &[0x00]));
    assert_eq!(MidiFile::parse(&buffer), Err(Error::TrackCountMismatch));
}

#[test]
fn unrecognized_chunks_do_not_count_as_tracks() {
    let mut buffer = chunk_bytes(b"MThd", &[0x00, 0x00, 0x00, 0x01, 0x00, 0x60]);
    buffer.extend_from_slice(&chunk_bytes(b"MTrk", &[0x00]));
    buffer.extend_from_slice(&chunk_bytes(b"XXXX", &[0xAB, 0xCD]));
    assert_eq!(
        MidiFile::parse(&buffer),
        Ok(MidiFile {
            format: Format::MultiChannel,
            division: Division::Metrical { ticks_per_quarter_note: 96 },
        })
    );
}

#[test]
fn counting_an_unrecognized_chunk_would_be_a_mismatch() {
    let mut buffer = chunk_bytes(b"MThd", &[0x00, 0x00, 0x00, 0x02, 0x00, 0x60]);
    buffer.extend_from_slice(&chunk_bytes(b"MTrk", &[0x00]));
    buffer.extend_from_slice(&chunk_bytes(b"XXXX", &[0xAB, 0xCD]));
    assert_eq!(MidiFile::parse(&buffer), Err(Error::TrackCountMismatch));
}

#[test]
fn invalid_format_code_is_rejected() {
    let mut buffer = chunk_bytes(b"MThd", &[0x00, 0x03, 0x00, 0x01, 0x00, 0x60]);
    buffer.extend_from_slice(&chunk_bytes(b"MTrk", &[0x00]));
    assert_eq!(MidiFile::parse(&buffer), Err(Error::InvalidFormat(3)));
}

#[test]
fn invalid_smpte_code_is_rejected() {
    let mut buffer = chunk_bytes(b"MThd", &[0x00, 0x00, 0x00, 0x01, 0xE6, 0x28]);
    buffer.extend_from_slice(&chunk_bytes(b"MTrk", &[0x00]));
    assert_eq!(MidiFile::parse(&buffer), Err(Error::InvalidSmpteFormat(-26)));
}

#[test]
fn empty_buffer_is_an_empty_file() {
    assert_eq!(MidiFile::parse(&[]), Err(Error::EmptyFile));
}

#[test]
fn buffer_truncated_after_a_tag_fails() {
    assert_eq!(MidiFile::parse(b"MThd"), Err(Error::ChunkerDone));
}

#[test]
fn buffer_truncated_after_a_length_fails() {
    let buffer = chunk_bytes(b"MThd", &[]);
    assert_eq!(MidiFile::parse(&buffer), Err(Error::ChunkerDone));
}

#[test]
fn header_payload_too_short_for_division_fails() {
    let mut buffer = chunk_bytes(b"MThd", &[0x00, 0x01, 0x00, 0x00]);
    buffer.extend_from_slice(&chunk_bytes(b"XXXX", &[0x00]));
    assert_eq!(MidiFile::parse(&buffer), Err(Error::ChunkerDone));
}

#[test]
fn first_chunk_is_not_checked_for_a_header_tag() {
    // The decoder trusts the first chunk to be the header without
    // checking its tag; a track-tagged first chunk is decoded as a
    // header and also counts toward the declared track count.
    let buffer = chunk_bytes(b"MTrk", &[0x00, 0x00, 0x00, 0x01, 0x00, 0x60]);
    assert_eq!(
        MidiFile::parse(&buffer),
        Ok(MidiFile {
            format: Format::MultiChannel,
            division: Division::Metrical { ticks_per_quarter_note: 96 },
        })
    );
}

#[test]
fn declared_length_overrunning_the_buffer_is_clamped() {
    // A declared chunk length past the end of the buffer yields a
    // shorter payload instead of an error.
    let mut buffer = Vec::new();
    buffer.extend_from_slice(b"MThd");
    buffer.extend_from_slice(&10u32.to_be_bytes());
    buffer.extend_from_slice(&[0x00, 0x00, 0x00, 0x00, 0x00, 0x60]);
    assert_eq!(
        MidiFile::parse(&buffer),
        Ok(MidiFile {
            format: Format::MultiChannel,
            division: Division::Metrical { ticks_per_quarter_note: 96 },
        })
    );
}

#[test]
fn decode_header_checks_the_supplied_track_count() {
    let payload = [0x00u8, 0x02, 0x00, 0x03, 0x00, 0x60];
    assert_eq!(
        MidiFile::decode_header(&payload, 3),
        Ok(MidiFile {
            format: Format::Independent,
            division: Division::Metrical { ticks_per_quarter_note: 96 },
        })
    );
    assert_eq!(
        MidiFile::decode_header(&payload, 2),
        Err(Error::TrackCountMismatch)
    );
}

#[test]
fn classify_recognizes_both_tags_and_no_other() {
    let data: [u8; 0] = [];
    let header = Chunk { tag: MTHD_TAG, data: &data };
    let track = Chunk { tag: MTRK_TAG, data: &data };
    let other = Chunk { tag: 0x5858_5858, data: &data };
    assert_eq!(header.type_variant(), Ok(ChunkType::Header));
    assert_eq!(track.type_variant(), Ok(ChunkType::Track));
    assert_eq!(
        other.type_variant(),
        Err(Error::UnrecognizedChunkType(0x5858_5858))
    );
}

#[test]
fn type_str_spells_out_the_tag() {
    let data: [u8; 0] = [];
    assert_eq!(Chunk { tag: MTHD_TAG, data: &data }.type_str(), "MThd");
    assert_eq!(Chunk { tag: MTRK_TAG, data: &data }.type_str(), "MTrk");
    assert_eq!(Chunk { tag: 0x5858_5858, data: &data }.type_str(), "XXXX");
}

#[test]
fn format_codes_round_trip() {
    for format in [Format::MultiChannel, Format::Simultaneous, Format::Independent] {
        assert_eq!(Format::try_from(format.code()), Ok(format));
    }
    assert_eq!(Format::try_from(0).unwrap().code(), 0);
    assert_eq!(Format::try_from(1).unwrap().code(), 1);
    assert_eq!(Format::try_from(2).unwrap().code(), 2);
    assert_eq!(Format::try_from(3), Err(Error::InvalidFormat(3)));
    assert_eq!(Format::try_from(65535), Err(Error::InvalidFormat(65535)));
}

#[test]
fn nonnegative_division_is_metrical() {
    assert_eq!(
        Division::try_from(0),
        Ok(Division::Metrical { ticks_per_quarter_note: 0 })
    );
    assert_eq!(
        Division::try_from(96),
        Ok(Division::Metrical { ticks_per_quarter_note: 96 })
    );
    assert_eq!(
        Division::try_from(i16::MAX),
        Ok(Division::Metrical { ticks_per_quarter_note: 32767 })
    );
}

#[test]
fn negative_division_selects_an_smpte_format() {
    assert_eq!(
        Division::try_from(-7640),
        Ok(Division::TimeCode { smpte_format: SmpteFormat::Fps30, ticks_per_frame: 40 })
    );
    assert_eq!(
        Division::try_from(-24 * 256 + 80),
        Ok(Division::TimeCode { smpte_format: SmpteFormat::Fps24, ticks_per_frame: 80 })
    );
    assert_eq!(
        Division::try_from(-25 * 256),
        Ok(Division::TimeCode { smpte_format: SmpteFormat::Fps25, ticks_per_frame: 0 })
    );
    assert_eq!(
        Division::try_from(-29 * 256 + 255),
        Ok(Division::TimeCode { smpte_format: SmpteFormat::Fps30Drop, ticks_per_frame: 255 })
    );
    assert_eq!(
        Division::try_from(-30 * 256 + 1),
        Ok(Division::TimeCode { smpte_format: SmpteFormat::Fps30, ticks_per_frame: 1 })
    );
}

#[test]
fn negative_division_with_an_unknown_high_byte_fails() {
    assert_eq!(Division::try_from(-1), Err(Error::InvalidSmpteFormat(-1)));
    assert_eq!(Division::try_from(-26 * 256), Err(Error::InvalidSmpteFormat(-26)));
    assert_eq!(Division::try_from(i16::MIN), Err(Error::InvalidSmpteFormat(-128)));
}

#[test]
fn smpte_codes_decode_one_to_one() {
    assert_eq!(SmpteFormat::try_from(-24), Ok(SmpteFormat::Fps24));
    assert_eq!(SmpteFormat::try_from(-25), Ok(SmpteFormat::Fps25));
    assert_eq!(SmpteFormat::try_from(-29), Ok(SmpteFormat::Fps30Drop));
    assert_eq!(SmpteFormat::try_from(-30), Ok(SmpteFormat::Fps30));
    assert_eq!(SmpteFormat::try_from(-28), Err(Error::InvalidSmpteFormat(-28)));
}
