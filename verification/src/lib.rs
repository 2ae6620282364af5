//! A verified codec for the QOI ("Quite OK Image") lossless image format.
//!
//! The encoder turns raw RGBA pixel data into a QOI byte stream and the
//! decoder reverses it; both are specified against a mathematical model of
//! the wire format and proved to round-trip.

pub mod decode;
pub mod encode;
pub mod error;
pub mod hashing;
pub mod header;
pub mod hia;
pub mod model;
pub mod ops;
pub mod pixel;
pub mod roundtrip;

pub use decode::decode;
pub use encode::encode;
pub use error::QoiError;
pub use header::QOIHeader;
pub use pixel::Pixel;
