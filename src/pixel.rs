use vstd::prelude::*;

verus! {

/// One decoded pixel: four 8-bit channels.
#[derive(Clone, Copy, Debug, PartialEq, Eq, Structural)]
pub struct Pixel {
    pub r: u8,
    pub g: u8,
    pub b: u8,
    pub a: u8,
}

/// Slot of the running cache that a pixel is stored in.
pub open spec fn hash_of(p: Pixel) -> int {
    (p.r * 3 + p.g * 5 + p.b * 7 + p.a * 11) % 64
}

/// The cache slot of a pixel lies in `0..64` and depends on its four channels alone.
pub proof fn lemma_hash_in_range(p: Pixel, q: Pixel)
    ensures
        0 <= hash_of(p) < 64,
        p.r == q.r && p.g == q.g && p.b == q.b && p.a == q.a ==> hash_of(p) == hash_of(q),
{
}

/// Computes the running-cache slot of a pixel, without any channel wraparound.
pub fn hash(p: Pixel) -> (r: usize)
    ensures
        r as int == hash_of(p),
        r < 64,
{
    let sum: usize = (p.r as usize) * 3 + (p.g as usize) * 5 + (p.b as usize) * 7 + (p.a as usize) * 11;
    sum % 64
}

} // verus!
