//! The 14-byte QOI header: magic, big-endian width and height, a channels
//! byte (3 or 4) and a colorspace byte (0 or 1).

use vstd::prelude::*;

use crate::error::QoiError;

verus! {

/// The parsed form of the header. `has_alpha` stands for a channels byte
/// of 4, `linear_rgb` for a colorspace byte of 1.
#[derive(Clone, Copy, PartialEq, Eq, Structural, Debug)]
pub struct QOIHeader {
    pub width: u32,
    pub height: u32,
    pub has_alpha: bool,
    pub linear_rgb: bool,
}

/// The four magic bytes `"qoif"`.
pub open spec fn magic_seq() -> Seq<u8> {
    seq![0x71u8, 0x6fu8, 0x69u8, 0x66u8]
}

/// The eight bytes every stream ends in.
pub open spec fn end_marker() -> Seq<u8> {
    seq![0u8, 0u8, 0u8, 0u8, 0u8, 0u8, 0u8, 1u8]
}

/// A 32-bit value as its four big-endian bytes.
pub open spec fn u32_be_bytes(w: u32) -> Seq<u8> {
    seq![(w >> 24) as u8, ((w >> 16) & 0xff) as u8, ((w >> 8) & 0xff) as u8, (w & 0xff) as u8]
}

/// The 32-bit value four big-endian bytes stand for.
pub open spec fn u32_of_be(b0: u8, b1: u8, b2: u8, b3: u8) -> u32 {
    ((b0 as u32) << 24) | ((b1 as u32) << 16) | ((b2 as u32) << 8) | (b3 as u32)
}

/// The ten header bytes that follow the magic: width, height, channels,
/// colorspace.
pub open spec fn header_bytes(h: QOIHeader) -> Seq<u8> {
    u32_be_bytes(h.width) + u32_be_bytes(h.height)
        + seq![if h.has_alpha { 4u8 } else { 3u8 }, if h.linear_rgb { 1u8 } else { 0u8 }]
}

/// What parsing the first 14 bytes of a stream yields.
pub open spec fn parse_header_spec(bytes: Seq<u8>) -> Result<QOIHeader, QoiError> {
    if bytes.len() < 14 {
        Err(QoiError::TruncatedInput)
    } else if !(bytes[0] == 0x71u8 && bytes[1] == 0x6fu8 && bytes[2] == 0x69u8 && bytes[3]
        == 0x66u8) {
        Err(QoiError::BadMagic)
    } else if bytes[12] != 3u8 && bytes[12] != 4u8 {
        Err(QoiError::BadChannels)
    } else if bytes[13] > 1u8 {
        Err(QoiError::BadColorspace)
    } else {
        Ok(
            QOIHeader {
                width: u32_of_be(bytes[4], bytes[5], bytes[6], bytes[7]),
                height: u32_of_be(bytes[8], bytes[9], bytes[10], bytes[11]),
                has_alpha: bytes[12] == 4u8,
                linear_rgb: bytes[13] == 1u8,
            },
        )
    }
}

/// Big-endian serialization followed by reassembly gives the word back.
pub proof fn lemma_be_round_trip(w: u32)
    ensures
        u32_of_be(
            (w >> 24) as u8,
            ((w >> 16) & 0xff) as u8,
            ((w >> 8) & 0xff) as u8,
            (w & 0xff) as u8,
        ) == w,
{
    assert(((((w >> 24) as u8) as u32) << 24) | (((((w >> 16) & 0xff) as u8) as u32) << 16) | ((((
    (w >> 8) & 0xff) as u8) as u32) << 8) | (((w & 0xff) as u8) as u32) == w) by (bit_vector);
}

/// Parsing a serialized header gives the header back: the round trip is
/// the identity on every header value.
pub proof fn lemma_header_round_trip(h: QOIHeader)
    ensures
        parse_header_spec(magic_seq() + header_bytes(h)) == Ok::<QOIHeader, QoiError>(h),
{
    let bytes = magic_seq() + header_bytes(h);
    assert(bytes.len() == 14);
    lemma_be_round_trip(h.width);
    lemma_be_round_trip(h.height);
    assert(bytes[4] == (h.width >> 24) as u8);
    assert(bytes[12] == if h.has_alpha { 4u8 } else { 3u8 });
    assert(parse_header_spec(bytes) == Ok::<QOIHeader, QoiError>(h));
}

impl QOIHeader {
    /// The ten bytes that follow the magic on the wire.
    pub fn to_bytes(&self) -> (r: Vec<u8>)
        ensures
            r@ == header_bytes(*self),
    {
        let mut out: Vec<u8> = Vec::new();
        out.push((self.width >> 24) as u8);
        out.push(((self.width >> 16) & 0xff) as u8);
        out.push(((self.width >> 8) & 0xff) as u8);
        out.push((self.width & 0xff) as u8);
        out.push((self.height >> 24) as u8);
        out.push(((self.height >> 16) & 0xff) as u8);
        out.push(((self.height >> 8) & 0xff) as u8);
        out.push((self.height & 0xff) as u8);
        out.push(if self.has_alpha { 4u8 } else { 3u8 });
        out.push(if self.linear_rgb { 1u8 } else { 0u8 });
        proof {
            assert(out@ =~= header_bytes(*self));
        }
        out
    }

    /// How many pixels the image holds.
    pub fn image_size(&self) -> (r: usize)
        requires
            self.width * self.height <= usize::MAX,
        ensures
            r == self.width * self.height,
    {
        (self.width as usize) * (self.height as usize)
    }
}

/// Reads and validates the 14-byte header at the front of a stream.
pub fn parse_header(bytes: &Vec<u8>) -> (r: Result<QOIHeader, QoiError>)
    ensures
        r == parse_header_spec(bytes@),
{
    if bytes.len() < 14 {
        return Err(QoiError::TruncatedInput);
    }
    if !(bytes[0] == 0x71u8 && bytes[1] == 0x6fu8 && bytes[2] == 0x69u8 && bytes[3] == 0x66u8) {
        return Err(QoiError::BadMagic);
    }
    if bytes[12] != 3u8 && bytes[12] != 4u8 {
        return Err(QoiError::BadChannels);
    }
    if bytes[13] > 1u8 {
        return Err(QoiError::BadColorspace);
    }
    let width: u32 = ((bytes[4] as u32) << 24) | ((bytes[5] as u32) << 16) | ((bytes[6] as u32)
        << 8) | (bytes[7] as u32);
    let height: u32 = ((bytes[8] as u32) << 24) | ((bytes[9] as u32) << 16) | ((bytes[10] as u32)
        << 8) | (bytes[11] as u32);
    Ok(
        QOIHeader {
            width,
            height,
            has_alpha: bytes[12] == 4u8,
            linear_rgb: bytes[13] == 1u8,
        },
    )
}

} // verus!
