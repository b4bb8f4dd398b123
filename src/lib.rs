use vstd::prelude::*;

pub mod chunk;
pub mod decode;
pub mod error;
pub mod header;
pub mod image;
pub mod pixel;

pub use chunk::{read_chunk, Chunk};
pub use decode::{Decoder, TrackedPix};
pub use error::DecodeError;
pub use header::QoiHeader;
pub use image::QOIDecode;
pub use pixel::{hash, Pixel};

verus! {

} // verus!
