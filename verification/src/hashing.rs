//! Bulk pixel hashing: one hash byte per pixel, in order. The bulk entry
//! point delegates to a kernel; the verified build carries exactly one,
//! the scalar `V1` that every build falls back on.

use vstd::prelude::*;

use crate::pixel::{hash_rgba, px_hash, Pixel};

verus! {

/// The scalar hashing kernel: the fallback every build carries, and the
/// only kernel of this one.
pub struct V1;

impl V1 {
    /// How many pixels one step of this kernel consumes.
    pub fn hash_chunk_size(&self) -> (r: usize)
        ensures
            r == 1,
    {
        1
    }

    /// Appends the hashes of `pixels[start..start + count]` to `hashes`,
    /// one byte per pixel, in order.
    pub fn hash_chunks(
        &self,
        pixels: &Vec<Pixel>,
        start: usize,
        count: usize,
        hashes: &mut Vec<u8>,
    )
        requires
            start + count <= pixels@.len(),
        ensures
            final(hashes)@.len() == old(hashes)@.len() + count,
            forall|i: int|
                0 <= i < count ==> #[trigger] final(hashes)@[old(hashes)@.len() + i] == px_hash(
                    pixels@[start + i],
                ),
            forall|i: int|
                0 <= i < old(hashes)@.len() ==> final(hashes)@[i] == old(hashes)@[i],
    {
        let n = pixels.len();
        let mut i: usize = 0;
        while i < count
            invariant
                i <= count,
                start + count <= n,
                n == pixels@.len(),
                hashes@.len() == old(hashes)@.len() + i,
                forall|j: int|
                    0 <= j < i ==> #[trigger] hashes@[old(hashes)@.len() + j] == px_hash(
                        pixels@[start + j],
                    ),
                forall|j: int| 0 <= j < old(hashes)@.len() ==> hashes@[j] == old(hashes)@[j],
            decreases count - i,
        {
            hashes.push(hash_rgba(&pixels[start + i]));
            i += 1;
        }
    }
}

/// Hashes a whole pixel array: entry `i` is the hash of pixel `i`. Every
/// bulk variant must agree with the scalar `hash_rgba` entry by entry,
/// and this one visibly does.
pub fn hashes_rgba(pixels: &Vec<Pixel>) -> (hashes: Vec<u8>)
    ensures
        hashes@.len() == pixels@.len(),
        forall|i: int| 0 <= i < pixels@.len() ==> hashes@[i] == px_hash(pixels@[i]),
{
    let mut hashes: Vec<u8> = Vec::new();
    let kernel = V1;
    kernel.hash_chunks(pixels, 0, pixels.len(), &mut hashes);
    proof {
        assert forall|i: int| 0 <= i < pixels@.len() implies hashes@[i] == px_hash(
            pixels@[i],
        ) by {
            assert(hashes@[0 + i] == px_hash(pixels@[0 + i]));
        }
    }
    hashes
}

/// Unsigned quotient and remainder in one step; the divisor must not be
/// zero.
pub fn div_rem(n: usize, d: usize) -> (r: (usize, usize))
    requires
        d != 0,
    ensures
        r.0 == n as int / d as int,
        r.1 == n as int % d as int,
{
    (n / d, n % d)
}

} // verus!
