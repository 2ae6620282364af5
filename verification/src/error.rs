//! The errors a decode can surface. No error is recovered internally;
//! every one is handed to the caller.

use vstd::prelude::*;

verus! {

/// Why a byte stream was rejected.
#[derive(Clone, Copy, PartialEq, Eq, Structural, Debug)]
pub enum QoiError {
    /// The first four bytes are not the magic `"qoif"`.
    BadMagic,
    /// The channels byte of the header is neither 3 nor 4.
    BadChannels,
    /// The colorspace byte of the header is above 1.
    BadColorspace,
    /// The last eight bytes are not the end marker.
    BadEndMarker,
    /// An op, or the header or end marker itself, extends past the input.
    TruncatedInput,
    /// `width * height` does not fit the machine's address space.
    DimensionOverflow,
    /// The stream decoded cleanly but to a pixel count other than
    /// `width * height`.
    SizeMismatch { found: usize, expected: usize },
}

impl QoiError {
    /// A short description, one per variant.
    pub fn describe(&self) -> (s: &'static str)
        ensures
            s@.len() > 0,
    {
        let s = match self {
            QoiError::BadMagic => "magic bytes \"qoif\" not found",
            QoiError::BadChannels => "channels byte is neither 3 nor 4",
            QoiError::BadColorspace => "colorspace byte is above 1",
            QoiError::BadEndMarker => "stream does not end in the end marker",
            QoiError::TruncatedInput => "an op extends past the input",
            QoiError::DimensionOverflow => "width * height overflows the address space",
            QoiError::SizeMismatch { found: _, expected: _ } => {
                "decoded pixel count does not match the header"
            },
        };
        proof {
            reveal_strlit("magic bytes \"qoif\" not found");
            reveal_strlit("channels byte is neither 3 nor 4");
            reveal_strlit("colorspace byte is above 1");
            reveal_strlit("stream does not end in the end marker");
            reveal_strlit("an op extends past the input");
            reveal_strlit("width * height overflows the address space");
            reveal_strlit("decoded pixel count does not match the header");
        }
        s
    }
}

} // verus!
