//! A forward-only cursor over a byte buffer.
//!
//! The cursor hands out sub-slices of a fixed width and folds them
//! big-endian into unsigned integers. A request that overruns the
//! buffer is silently clamped to the bytes that remain; only a read
//! attempted when the cursor is already exhausted fails.

use vstd::prelude::*;
use vstd::slice::slice_subrange;

use crate::error::Error;

verus! {

/// The value of a byte sequence read big-endian: the most significant
/// byte comes first.
pub open spec fn be_fold(bytes: Seq<u8>) -> nat
    decreases bytes.len(),
{
    if bytes.len() == 0 {
        0
    } else {
        (be_fold(bytes.drop_last()) * 256 + bytes.last()) as nat
    }
}

/// 256 raised to the power `n`: the number of values of an `n`-byte field.
pub open spec fn p256(n: nat) -> nat
    decreases n,
{
    if n == 0 {
        1
    } else {
        256 * p256((n - 1) as nat)
    }
}

pub proof fn lemma_p256_mono(a: nat, b: nat)
    requires
        a <= b,
    ensures
        p256(a) <= p256(b),
    decreases b,
{
    if a < b {
        lemma_p256_mono(a, (b - 1) as nat);
    }
}

/// An `n`-byte field read big-endian is below `256^n`.
pub proof fn lemma_be_fold_bound(bytes: Seq<u8>)
    ensures
        be_fold(bytes) < p256(bytes.len()),
    decreases bytes.len(),
{
    if bytes.len() > 0 {
        lemma_be_fold_bound(bytes.drop_last());
    }
}

/// Width bounds for the field widths the decoder actually reads.
pub proof fn lemma_be_fold_fits(bytes: Seq<u8>)
    ensures
        bytes.len() <= 2 ==> be_fold(bytes) < 0x10000,
        bytes.len() <= 4 ==> be_fold(bytes) < 0x1_0000_0000,
        bytes.len() <= 8 ==> be_fold(bytes) < 0x1_0000_0000_0000_0000,
{
    lemma_be_fold_bound(bytes);
    reveal_with_fuel(p256, 9);
    assert(p256(2) == 0x10000);
    assert(p256(4) == 0x1_0000_0000);
    assert(p256(8) == 0x1_0000_0000_0000_0000);
    if bytes.len() <= 2 {
        lemma_p256_mono(bytes.len(), 2);
    }
    if bytes.len() <= 4 {
        lemma_p256_mono(bytes.len(), 4);
    }
    if bytes.len() <= 8 {
        lemma_p256_mono(bytes.len(), 8);
    }
}

/// Where a read of `bytes` bytes starting at `pos` ends: the request is
/// clamped to the end of the buffer.
pub open spec fn spec_claim_end(buffer: Seq<u8>, pos: int, bytes: int) -> int {
    if pos + bytes <= buffer.len() {
        pos + bytes
    } else {
        buffer.len() as int
    }
}

/// Tracks a read position while slicing fields off a byte buffer.
pub struct Chunker<'a> {
    position: usize,
    buffer: &'a [u8],
}

impl<'a> Chunker<'a> {
    /// The bytes the cursor ranges over.
    pub closed spec fn spec_buffer(&self) -> Seq<u8> {
        self.buffer@
    }

    /// The current read position.
    pub closed spec fn spec_position(&self) -> int {
        self.position as int
    }

    /// The position never passes the end of the buffer.
    pub open spec fn wf(&self) -> bool {
        0 <= self.spec_position() <= self.spec_buffer().len()
    }

    /// True when every byte of the buffer has been consumed.
    pub open spec fn spec_done(&self) -> bool {
        self.spec_position() >= self.spec_buffer().len()
    }

    /// Creates a cursor at the start of the buffer.
    pub fn new(buffer: &'a [u8]) -> (r: Chunker<'a>)
        ensures
            r.wf(),
            r.spec_buffer() == buffer@,
            r.spec_position() == 0,
    {
        Chunker { position: 0, buffer }
    }

    /// Returns whether the cursor is exhausted.
    pub fn done(&self) -> (r: bool)
        ensures
            r == self.spec_done(),
    {
        self.position >= self.buffer.len()
    }

    /// Advances the cursor by at most `bytes` bytes and returns the
    /// slice passed over. The request is clamped to the end of the
    /// buffer; reading from an exhausted cursor fails.
    pub fn claim(&mut self, bytes: u32) -> (r: Result<&'a [u8], Error>)
        requires
            old(self).wf(),
        ensures
            final(self).wf(),
            final(self).spec_buffer() == old(self).spec_buffer(),
            old(self).spec_done() ==> r == Err::<&[u8], Error>(Error::ChunkerDone)
                && final(self).spec_position() == old(self).spec_position(),
            !old(self).spec_done() ==> {
                let end = spec_claim_end(
                    old(self).spec_buffer(),
                    old(self).spec_position(),
                    bytes as int,
                );
                &&& r matches Ok(s) && s@ == old(self).spec_buffer().subrange(
                    old(self).spec_position(),
                    end,
                )
                &&& final(self).spec_position() == end
            },
    {
        if self.done() {
            return Err(Error::ChunkerDone);
        }
        let remaining: usize = self.buffer.len() - self.position;
        let request: usize = bytes as usize;
        let step: usize = if request < remaining {
            request
        } else {
            remaining
        };
        let next: usize = self.position + step;
        let slice: &'a [u8] = slice_subrange(self.buffer, self.position, next);
        self.position = next;
        Ok(slice)
    }

    /// Advances the cursor by at most `bytes` bytes and folds the bytes
    /// passed over, big-endian, into a single unsigned integer.
    ///
    /// The caller must request a field that fits the accumulator; the
    /// decoder only ever reads 2- and 4-byte fields.
    pub fn claim_as(&mut self, bytes: u32) -> (r: Result<u64, Error>)
        requires
            old(self).wf(),
            bytes <= 8,
        ensures
            final(self).wf(),
            final(self).spec_buffer() == old(self).spec_buffer(),
            old(self).spec_done() ==> r == Err::<u64, Error>(Error::ChunkerDone)
                && final(self).spec_position() == old(self).spec_position(),
            !old(self).spec_done() ==> {
                let end = spec_claim_end(
                    old(self).spec_buffer(),
                    old(self).spec_position(),
                    bytes as int,
                );
                &&& r matches Ok(v) && v == be_fold(old(self).spec_buffer().subrange(
                    old(self).spec_position(),
                    end,
                ))
                &&& final(self).spec_position() == end
            },
    {
        let slice: &[u8] = match self.claim(bytes) {
            Ok(s) => s,
            Err(e) => {
                return Err(e);
            },
        };
        let mut value: u64 = 0;
        let mut i: usize = 0;
        while i < slice.len()
            invariant
                i <= slice@.len() <= 8,
                value == be_fold(slice@.take(i as int)),
                value < p256(i as nat),
            decreases slice@.len() - i,
        {
            proof {
                lemma_p256_mono((i + 1) as nat, 8);
                reveal_with_fuel(p256, 9);
                assert(p256(8) == 0x1_0000_0000_0000_0000);
                assert(p256((i + 1) as nat) == 256 * p256(i as nat));
                assert(slice@.take(i + 1).drop_last() =~= slice@.take(i as int));
                assert(slice@.take(i + 1).last() == slice@[i as int]);
            }
            value = value * 256 + (slice[i] as u64);
            i = i + 1;
        }
        proof {
            assert(slice@.take(slice@.len() as int) =~= slice@);
        }
        Ok(value)
    }
}

} // verus!
