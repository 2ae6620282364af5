//! The pixel model: an RGBA quadruple of bytes, its 6-bit hash, and the
//! wrapping byte arithmetic that the DIFF and LUMA ops are defined over.

use vstd::prelude::*;

verus! {

/// One RGBA pixel. The QOI format treats a pixel as an ordered quadruple
/// of 8-bit channels (red, green, blue, alpha).
#[derive(Clone, Copy, PartialEq, Eq, Structural, Debug, Hash)]
pub struct Pixel {
    pub r: u8,
    pub g: u8,
    pub b: u8,
    pub a: u8,
}

impl Pixel {
    /// The pixel every decode and encode starts from as "previous pixel".
    pub open spec fn initial() -> Pixel {
        Pixel { r: 0, g: 0, b: 0, a: 255 }
    }

    /// The pixel the 64 hash-table slots are initialized to.
    pub open spec fn zero() -> Pixel {
        Pixel { r: 0, g: 0, b: 0, a: 0 }
    }

    pub fn new(r: u8, g: u8, b: u8, a: u8) -> (p: Pixel)
        ensures
            p == (Pixel { r, g, b, a }),
    {
        Pixel { r, g, b, a }
    }
}

/// Byte addition modulo 256, the arithmetic every delta op wraps in.
pub open spec fn wadd(a: int, b: int) -> u8 {
    (((a + b) % 256)) as u8
}

/// Byte subtraction modulo 256.
pub open spec fn wsub(a: int, b: int) -> u8 {
    (((a - b) % 256)) as u8
}

/// The QOI pixel hash: `(3 R + 5 G + 7 B + 11 A) mod 64`.
pub open spec fn px_hash(p: Pixel) -> int {
    (3 * p.r + 5 * p.g + 7 * p.b + 11 * p.a) % 64
}

/// The pixel a run of four raw bytes stands for.
pub open spec fn px_of_bytes(r: u8, g: u8, b: u8, a: u8) -> Pixel {
    Pixel { r, g, b, a }
}

/// The pixel sequence a raw RGBA byte sequence stands for, four bytes to
/// a pixel in r, g, b, a order.
pub open spec fn pixels_of(raw: Seq<u8>) -> Seq<Pixel> {
    Seq::new((raw.len() / 4) as nat, |i: int| px_of_bytes(
        raw[4 * i], raw[4 * i + 1], raw[4 * i + 2], raw[4 * i + 3],
    ))
}

/// The scalar reference hasher every bulk variant must agree with.
pub fn hash_rgba(pixel: &Pixel) -> (h: u8)
    ensures
        h == px_hash(*pixel),
        h < 64,
{
    let sum: u32 = 3 * (pixel.r as u32) + 5 * (pixel.g as u32) + 7 * (pixel.b as u32)
        + 11 * (pixel.a as u32);
    (sum % 64) as u8
}

/// Whether two pixels differ in their alpha byte, under a compile-time
/// switch for images that carry no alpha plane at all. The pixels are
/// given as little-endian RGBA words, whose top byte is the alpha.
pub fn is_alpha_different<const IMAGE_HAS_ALPHA: bool>(a: u32, b: u32) -> (r: bool)
    ensures
        r == (IMAGE_HAS_ALPHA && (a >> 24) != (b >> 24)),
{
    proof {
        assert(((a & 0xff000000) != (b & 0xff000000)) == ((a >> 24) != (b >> 24)))
            by (bit_vector);
    }
    IMAGE_HAS_ALPHA && (a & 0xff000000) != (b & 0xff000000)
}

/// Groups raw RGBA bytes, four to a pixel; bytes past the last full
/// quadruple are ignored.
pub fn bytes_to_pixels(raw: &Vec<u8>) -> (px: Vec<Pixel>)
    ensures
        px@ == pixels_of(raw@),
{
    let len: usize = raw.len();
    let n: usize = len / 4;
    let mut px: Vec<Pixel> = Vec::new();
    let mut i: usize = 0;
    while i < n
        invariant
            i <= n,
            len == raw@.len(),
            n == raw@.len() / 4,
            4 * n <= len,
            px@.len() == i,
            forall|j: int| 0 <= j < i ==> px@[j] == pixels_of(raw@)[j],
        decreases n - i,
    {
        let p = Pixel { r: raw[4 * i], g: raw[4 * i + 1], b: raw[4 * i + 2], a: raw[4 * i + 3] };
        px.push(p);
        i += 1;
    }
    proof {
        assert(px@ =~= pixels_of(raw@));
    }
    px
}

/// The standard wrapping byte addition computes `wadd`.
pub proof fn lemma_wrapping_add_is_wadd(a: u8, b: u8)
    ensures
        vstd::wrapping::u8_specs::wrapping_add(a, b) == wadd(a as int, b as int),
{
}

/// The standard wrapping byte subtraction computes `wsub`.
pub proof fn lemma_wrapping_sub_is_wsub(a: u8, b: u8)
    ensures
        vstd::wrapping::u8_specs::wrapping_sub(a, b) == wsub(a as int, b as int),
{
}


/// A wrapped difference stands, modulo 256, for the plain difference.
pub proof fn lemma_unwrap_wsub(x: int, y: int)
    ensures
        (wsub(x, y) as int) % 256 == (x - y) % 256,
{
    vstd::arithmetic::div_mod::lemma_mod_twice(x - y, 256);
}

/// Adding deltas that agree modulo 256 wraps to the same byte.
pub proof fn lemma_wadd_congruence(a: int, b: int, c: int)
    requires
        b % 256 == c % 256,
    ensures
        wadd(a, b) == wadd(a, c),
{
    vstd::arithmetic::div_mod::lemma_add_mod_noop_right(a, b, 256);
    vstd::arithmetic::div_mod::lemma_add_mod_noop_right(a, c, 256);
}

/// Wrapping the delta first does not change a wrapped sum.
pub proof fn lemma_wadd_of_mod(a: int, b: int)
    ensures
        wadd(a, b % 256) == wadd(a, b),
{
    vstd::arithmetic::div_mod::lemma_mod_twice(b, 256);
    lemma_wadd_congruence(a, b % 256, b);
}

/// Unbiasing after a wrapped biased add recovers the plain wrapped sum.
pub proof fn lemma_wsub_of_wadd(a: int, b: int, c: int)
    ensures
        wsub(wadd(a, b) as int, c) == wadd(a, b - c),
{
    vstd::arithmetic::div_mod::lemma_add_mod_noop_right(-c, a + b, 256);
}


/// Sums of congruent terms are congruent.
pub proof fn lemma_mod_add_congruent(p: int, q: int, p2: int, q2: int)
    requires
        p % 256 == p2 % 256,
        q % 256 == q2 % 256,
    ensures
        (p + q) % 256 == (p2 + q2) % 256,
{
    vstd::arithmetic::div_mod::lemma_add_mod_noop(p, q, 256);
    vstd::arithmetic::div_mod::lemma_add_mod_noop(p2, q2, 256);
}

} // verus!
