use midi::chunker::Chunker;
use midi::error::Error;

#[test]
fn new_cursor_starts_unexhausted() {
    let bytes = [1u8, 2, 3];
    let chunker = Chunker::new(&bytes);
    assert!(!chunker.done());
}

#[test]
fn empty_buffer_is_immediately_done() {
    let bytes: [u8; 0] = [];
    let mut chunker = Chunker::new(&bytes);
    assert!(chunker.done());
    assert_eq!(chunker.claim(1), Err(Error::ChunkerDone));
    assert_eq!(chunker.claim_as(2), Err(Error::ChunkerDone));
}

#[test]
fn claim_returns_requested_slice_and_advances() {
    let bytes = [10u8, 20, 30, 40, 50];
    let mut chunker = Chunker::new(&bytes);
    assert_eq!(chunker.claim(2), Ok(&bytes[0..2]));
    assert_eq!(chunker.claim(1), Ok(&bytes[2..3]));
    assert!(!chunker.done());
}

#[test]
fn claim_clamps_a_request_past_the_end() {
    let bytes = [10u8, 20, 30];
    let mut chunker = Chunker::new(&bytes);
    assert_eq!(chunker.claim(2), Ok(&bytes[0..2]));
    assert_eq!(chunker.claim(5), Ok(&bytes[2..3]));
    assert!(chunker.done());
    assert_eq!(chunker.claim(1), Err(Error::ChunkerDone));
}

#[test]
fn claim_of_zero_bytes_returns_an_empty_slice() {
    let bytes = [10u8, 20];
    let mut chunker = Chunker::new(&bytes);
    assert_eq!(chunker.claim(0), Ok(&bytes[0..0]));
    assert_eq!(chunker.claim(2), Ok(&bytes[0..2]));
}

#[test]
fn claim_as_folds_big_endian() {
    let bytes = [0x12u8, 0x34];
    let mut chunker = Chunker::new(&bytes);
    assert_eq!(chunker.claim_as(2), Ok(0x1234));
}

#[test]
fn claim_as_folds_four_bytes() {
    let bytes = [0xDEu8, 0xAD, 0xBE, 0xEF, 0x01];
    let mut chunker = Chunker::new(&bytes);
    assert_eq!(chunker.claim_as(4), Ok(0xDEAD_BEEF));
    assert_eq!(chunker.claim_as(1), Ok(0x01));
    assert!(chunker.done());
}

#[test]
fn claim_as_folds_a_full_eight_byte_field() {
    let bytes = [0xFFu8; 8];
    let mut chunker = Chunker::new(&bytes);
    assert_eq!(chunker.claim_as(8), Ok(u64::MAX));
}

#[test]
fn claim_as_folds_only_the_bytes_that_remain() {
    let bytes = [0x01u8, 0x02, 0x03];
    let mut chunker = Chunker::new(&bytes);
    assert_eq!(chunker.claim(2), Ok(&bytes[0..2]));
    assert_eq!(chunker.claim_as(4), Ok(0x03));
}
