use vstd::prelude::*;

use crate::error::DecodeError;

verus! {

pub const QOI_OP_RGB: u8 = 0b11111110;
pub const QOI_OP_RGBA: u8 = 0b11111111;
pub const QOI_OP_INDEX: u8 = 0b00000000;
pub const QOI_OP_DIFF: u8 = 0b01000000;
pub const QOI_OP_LUMA: u8 = 0b10000000;
pub const QOI_OP_RUN: u8 = 0b11000000;

/// One opcode of the chunk stream, with its raw (still biased) fields.
#[derive(Clone, Copy, Debug, PartialEq, Eq, Structural)]
pub enum Chunk {
    /// Explicit red, green and blue; alpha is kept from the previous pixel.
    RGB(u8, u8, u8),
    /// Explicit red, green, blue and alpha.
    RGBA(u8, u8, u8, u8),
    /// Slot of the running cache.
    INDEX(u8),
    /// Per-channel differences, each biased by 2.
    DIFF(u8, u8, u8),
    /// Green difference biased by 32, red and blue relative to it, biased by 8.
    LUMA(u8, u8, u8),
    /// The previous pixel repeated, one more time than the field says.
    RUN(u8),
}

impl Chunk {
    /// The raw fields lie in the ranges that their bit widths allow.
    pub open spec fn wf(self) -> bool {
        match self {
            Chunk::RGB(_, _, _) => true,
            Chunk::RGBA(_, _, _, _) => true,
            Chunk::INDEX(i) => i < 64,
            Chunk::DIFF(dr, dg, db) => dr < 4 && dg < 4 && db < 4,
            Chunk::LUMA(dg, dr_dg, db_dg) => dg < 64 && dr_dg < 16 && db_dg < 16,
            Chunk::RUN(n) => n < 64,
        }
    }

    /// Number of bytes that the chunk occupies in the stream.
    pub open spec fn size(self) -> nat {
        match self {
            Chunk::RGB(_, _, _) => 4,
            Chunk::RGBA(_, _, _, _) => 5,
            Chunk::LUMA(_, _, _) => 2,
            _ => 1,
        }
    }
}

/// The chunk that starts at `pos`, or `None` where the bytes end before it does.
pub open spec fn chunk_at(bytes: Seq<u8>, pos: int) -> Option<Chunk> {
    if pos < 0 || pos >= bytes.len() {
        None
    } else {
        let b0 = bytes[pos];
        if b0 == QOI_OP_RGB {
            if pos + 4 <= bytes.len() {
                Some(Chunk::RGB(bytes[pos + 1], bytes[pos + 2], bytes[pos + 3]))
            } else {
                None
            }
        } else if b0 == QOI_OP_RGBA {
            if pos + 5 <= bytes.len() {
                Some(Chunk::RGBA(bytes[pos + 1], bytes[pos + 2], bytes[pos + 3], bytes[pos + 4]))
            } else {
                None
            }
        } else if b0 & 0xC0 == QOI_OP_INDEX {
            Some(Chunk::INDEX(b0 & 0x3F))
        } else if b0 & 0xC0 == QOI_OP_DIFF {
            Some(Chunk::DIFF((b0 >> 4) & 0x3, (b0 >> 2) & 0x3, b0 & 0x3))
        } else if b0 & 0xC0 == QOI_OP_LUMA {
            if pos + 2 <= bytes.len() {
                let b1 = bytes[pos + 1];
                Some(Chunk::LUMA(b0 & 0x3F, (b1 >> 4) & 0xF, b1 & 0xF))
            } else {
                None
            }
        } else {
            Some(Chunk::RUN(b0 & 0x3F))
        }
    }
}

/// A chunk that is read lies inside the bytes and is well formed.
pub proof fn lemma_chunk_at_wf(bytes: Seq<u8>, pos: int)
    requires
        chunk_at(bytes, pos) is Some,
    ensures
        chunk_at(bytes, pos)->0.wf(),
        0 <= pos < pos + chunk_at(bytes, pos)->0.size() <= bytes.len(),
{
    let b0 = bytes[pos];
    assert(b0 & 0x3F < 64 && (b0 >> 4) & 0x3 < 4 && (b0 >> 2) & 0x3 < 4 && b0 & 0x3 < 4)
        by (bit_vector);
    if pos + 1 < bytes.len() {
        let b1 = bytes[pos + 1];
        assert((b1 >> 4) & 0xF < 16 && b1 & 0xF < 16) by (bit_vector);
    }
}

/// Reading a chunk looks at no byte past its end.
pub proof fn lemma_chunk_at_prefix(bytes: Seq<u8>, n: int, pos: int)
    requires
        chunk_at(bytes, pos) is Some,
        pos + chunk_at(bytes, pos)->0.size() <= n <= bytes.len(),
    ensures
        chunk_at(bytes.take(n), pos) == chunk_at(bytes, pos),
{
}

/// Reads the chunk that starts at `pos` and the position just after it,
/// failing where the bytes end inside it.
pub fn read_chunk(bytes: &[u8], pos: usize) -> (r: Result<(Chunk, usize), DecodeError>)
    ensures
        match chunk_at(bytes@, pos as int) {
            Some(c) => {
                &&& r is Ok
                &&& r->Ok_0.0 == c
                &&& r->Ok_0.1 == pos + c.size()
                &&& pos + c.size() <= bytes@.len()
            },
            None => r == Err::<(Chunk, usize), DecodeError>(DecodeError::TruncatedStreamError),
        },
{
    if pos >= bytes.len() {
        return Err(DecodeError::TruncatedStreamError);
    }
    let b0 = bytes[pos];
    let left = bytes.len() - pos;
    if b0 == QOI_OP_RGB {
        if left >= 4 {
            Ok((Chunk::RGB(bytes[pos + 1], bytes[pos + 2], bytes[pos + 3]), pos + 4))
        } else {
            Err(DecodeError::TruncatedStreamError)
        }
    } else if b0 == QOI_OP_RGBA {
        if left >= 5 {
            Ok((Chunk::RGBA(bytes[pos + 1], bytes[pos + 2], bytes[pos + 3], bytes[pos + 4]), pos + 5))
        } else {
            Err(DecodeError::TruncatedStreamError)
        }
    } else if b0 & 0xC0 == QOI_OP_INDEX {
        Ok((Chunk::INDEX(b0 & 0x3F), pos + 1))
    } else if b0 & 0xC0 == QOI_OP_DIFF {
        Ok((Chunk::DIFF((b0 >> 4) & 0x3, (b0 >> 2) & 0x3, b0 & 0x3), pos + 1))
    } else if b0 & 0xC0 == QOI_OP_LUMA {
        if left >= 2 {
            let b1 = bytes[pos + 1];
            Ok((Chunk::LUMA(b0 & 0x3F, (b1 >> 4) & 0xF, b1 & 0xF), pos + 2))
        } else {
            Err(DecodeError::TruncatedStreamError)
        }
    } else {
        Ok((Chunk::RUN(b0 & 0x3F), pos + 1))
    }
}

} // verus!
