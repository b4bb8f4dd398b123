use vstd::prelude::*;

use crate::error::DecodeError;

verus! {

/// Length of the fixed header at the start of an image.
pub const HEADER_LEN: usize = 14;

/// The fixed header of an image. Channels and colorspace are passed through
/// as they stand.
#[derive(Clone, Copy, Debug, PartialEq, Eq, Structural)]
pub struct QoiHeader {
    pub width: u32,
    pub height: u32,
    pub channels: u8,
    pub colorspace: u8,
}

/// The unsigned 32-bit integer that four bytes hold, most significant first.
pub open spec fn be_u32(b0: u8, b1: u8, b2: u8, b3: u8) -> u32 {
    (b0 * 0x100_0000 + b1 * 0x1_0000 + b2 * 0x100 + b3) as u32
}

/// The bytes start with the magic tag "qoif".
pub open spec fn has_magic(bytes: Seq<u8>) -> bool {
    &&& bytes.len() >= 4
    &&& bytes[0] == 113u8
    &&& bytes[1] == 111u8
    &&& bytes[2] == 105u8
    &&& bytes[3] == 102u8
}

/// The header that the bytes start with, or why they hold none.
pub open spec fn header_of(bytes: Seq<u8>) -> Result<QoiHeader, DecodeError> {
    if bytes.len() < HEADER_LEN || !has_magic(bytes) {
        Err(DecodeError::HeaderError)
    } else {
        let width = be_u32(bytes[4], bytes[5], bytes[6], bytes[7]);
        let height = be_u32(bytes[8], bytes[9], bytes[10], bytes[11]);
        if width == 0 || height == 0 {
            Err(DecodeError::HeaderError)
        } else {
            Ok(QoiHeader { width, height, channels: bytes[12], colorspace: bytes[13] })
        }
    }
}

/// Reads four bytes as an unsigned integer, most significant first.
fn read_be_u32(b0: u8, b1: u8, b2: u8, b3: u8) -> (r: u32)
    ensures
        r == be_u32(b0, b1, b2, b3),
        r as int == b0 * 0x100_0000 + b1 * 0x1_0000 + b2 * 0x100 + b3,
{
    (b0 as u32) * 0x100_0000 + (b1 as u32) * 0x1_0000 + (b2 as u32) * 0x100 + (b3 as u32)
}

impl QoiHeader {
    /// Parses the header at the start of the bytes.
    pub fn from_bytes(bytes: &[u8]) -> (r: Result<QoiHeader, DecodeError>)
        ensures
            r == header_of(bytes@),
    {
        if bytes.len() < HEADER_LEN || bytes[0] != 113u8 || bytes[1] != 111u8 || bytes[2] != 105u8
            || bytes[3] != 102u8 {
            return Err(DecodeError::HeaderError);
        }
        let width = read_be_u32(bytes[4], bytes[5], bytes[6], bytes[7]);
        let height = read_be_u32(bytes[8], bytes[9], bytes[10], bytes[11]);
        if width == 0 || height == 0 {
            return Err(DecodeError::HeaderError);
        }
        Ok(QoiHeader { width, height, channels: bytes[12], colorspace: bytes[13] })
    }
}

} // verus!
