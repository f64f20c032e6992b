//! The DJB2 byte hash: `h = h * 33 + byte`, modulo 2^32, starting from 5381.

use vstd::prelude::*;

verus! {

/// The accumulator value a fresh hasher starts from.
pub const DJB2_SEED: u32 = 5381;

/// One DJB2 step: multiply by 33 and add the byte, wrapping at 2^32.
pub open spec fn djb2_step(h: u32, b: u8) -> u32 {
    (h * 33 + b) as u32
}

/// The accumulator after feeding `bytes`, in order, to an accumulator holding `h`.
pub open spec fn djb2_extend(h: u32, bytes: Seq<u8>) -> u32
    decreases bytes.len(),
{
    if bytes.len() == 0 {
        h
    } else {
        djb2_step(djb2_extend(h, bytes.drop_last()), bytes.last())
    }
}

proof fn lemma_wrapping_add(x: u32, y: u32)
    by (bit_vector)
    ensures
        x.wrapping_add(y) == (x + y) as u32,
{
}

proof fn lemma_shift_add(h: u32, b: u8)
    ensures
        (h << 5u32).wrapping_add(h).wrapping_add(b as u32) == (h * 33 + b) as u32,
{
    let s = h << 5u32;
    lemma_wrapping_add(s, h);
    let t = s.wrapping_add(h);
    lemma_wrapping_add(t, b as u32);
    assert(((h << 5u32) + h) as u32 == (h * 33) as u32) by (bit_vector);
    assert((((h * 33) as u32) + (b as u32)) as u32 == (h * 33 + b) as u32) by (bit_vector);
}

/// Feeding one more byte is one more step.
pub proof fn lemma_extend_push(h: u32, bytes: Seq<u8>, b: u8)
    ensures
        djb2_extend(h, bytes.push(b)) == djb2_step(djb2_extend(h, bytes), b),
{
    assert(bytes.push(b).drop_last() =~= bytes);
}

/// Feeding two byte strings one after the other is feeding their concatenation:
/// the accumulator carries over from one `write` to the next.
pub proof fn lemma_extend_concat(h: u32, a: Seq<u8>, b: Seq<u8>)
    ensures
        djb2_extend(h, a + b) == djb2_extend(djb2_extend(h, a), b),
    decreases b.len(),
{
    if b.len() == 0 {
        assert(a + b =~= a);
    } else {
        lemma_extend_concat(h, a, b.drop_last());
        assert((a + b).drop_last() =~= a + b.drop_last());
        assert((a + b).last() == b.last());
    }
}

/// A DJB2 hasher: a 32-bit accumulator that every written byte updates.
#[derive(Debug, Clone, Copy)]
pub struct DJB2Hasher {
    hash: u32,
}

impl DJB2Hasher {
    /// The current accumulator.
    pub closed spec fn state(&self) -> u32 {
        self.hash
    }

    /// A hasher with the accumulator at the DJB2 seed.
    pub fn new() -> (r: DJB2Hasher)
        ensures
            r.state() == DJB2_SEED,
    {
        DJB2Hasher { hash: DJB2_SEED }
    }

    /// A hasher whose accumulator starts at `seed`.
    pub fn with_seed(seed: u32) -> (r: DJB2Hasher)
        ensures
            r.state() == seed,
    {
        DJB2Hasher { hash: seed }
    }

    /// Feeds one byte.
    pub fn write_u8(&mut self, byte: u8)
        ensures
            final(self).state() == djb2_step(old(self).state(), byte),
    {
        let h = self.hash;
        proof {
            lemma_shift_add(h, byte);
        }
        self.hash = (h << 5).wrapping_add(h).wrapping_add(byte as u32);
    }

    /// Feeds `bytes` in order; the accumulator is not reset, so several writes
    /// hash as their concatenation.
    pub fn write(&mut self, bytes: &[u8])
        ensures
            final(self).state() == djb2_extend(old(self).state(), bytes@),
    {
        let ghost h0 = self.hash;
        let mut i: usize = 0;
        while i < bytes.len()
            invariant
                i <= bytes@.len(),
                self.state() == djb2_extend(h0, bytes@.subrange(0, i as int)),
            decreases bytes@.len() - i,
        {
            self.write_u8(bytes[i]);
            assert(bytes@.subrange(0, i + 1).drop_last() =~= bytes@.subrange(0, i as int));
            i = i + 1;
        }
        assert(bytes@.subrange(0, i as int) =~= bytes@);
    }

    /// The accumulator, widened to 64 bits.
    pub fn finish(&self) -> (r: u64)
        ensures
            r == self.state() as u64,
    {
        self.hash as u64
    }
}

} // verus!
