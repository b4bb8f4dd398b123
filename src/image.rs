use vstd::prelude::*;

use crate::chunk::{chunk_at, lemma_chunk_at_prefix, lemma_chunk_at_wf, read_chunk, Chunk, QOI_OP_RGBA};
use crate::decode::{
    apply_chunk, emitted, initial_state, pixel_count, push_copies, step, PixelState,
};
use crate::error::DecodeError;
use crate::header::{has_magic, header_of, QoiHeader, HEADER_LEN};
use crate::pixel::Pixel;

verus! {

/// The fixed marker that ends an image.
pub open spec fn trailer() -> Seq<u8> {
    seq![0u8, 0u8, 0u8, 0u8, 0u8, 0u8, 0u8, 1u8]
}

/// The pixels of the chunk stream from `pos`, appended to `out`, until
/// `total` pixels stand there, with the position after the last chunk read.
/// A run that would go past `total` is cut short; nothing after that chunk
/// is read.
#[verifier::opaque]
pub open spec fn decode_body(
    bytes: Seq<u8>,
    pos: int,
    st: PixelState,
    out: Seq<Pixel>,
    total: nat,
) -> Result<(Seq<Pixel>, int), DecodeError>
    decreases bytes.len() - pos,
{
    if out.len() >= total {
        Ok((out, pos))
    } else {
        match chunk_at(bytes, pos) {
            None => Err(DecodeError::TruncatedStreamError),
            Some(c) => {
                let room = total - out.len();
                let k = if pixel_count(c) < room {
                    pixel_count(c) as int
                } else {
                    room
                };
                decode_body(bytes, pos + c.size(), step(st, c), out + emitted(st, c).take(k), total)
            },
        }
    }
}

/// One chunk of the body: its pixels, cut to what is left of `total`, are
/// appended and decoding goes on after it.
pub proof fn lemma_decode_body_step(
    bytes: Seq<u8>,
    pos: int,
    st: PixelState,
    out: Seq<Pixel>,
    total: nat,
    c: Chunk,
)
    requires
        out.len() < total,
        chunk_at(bytes, pos) == Some(c),
    ensures
        decode_body(bytes, pos, st, out, total) == decode_body(
            bytes,
            pos + c.size(),
            step(st, c),
            out + emitted(st, c).take(
                if pixel_count(c) < total - out.len() {
                    pixel_count(c) as int
                } else {
                    total - out.len()
                },
            ),
            total,
        ),
{
    reveal(decode_body);
}

/// Decoding of the body stops as soon as `total` pixels stand.
pub proof fn lemma_decode_body_done(
    bytes: Seq<u8>,
    pos: int,
    st: PixelState,
    out: Seq<Pixel>,
    total: nat,
)
    requires
        out.len() >= total,
    ensures
        decode_body(bytes, pos, st, out, total) == Ok::<(Seq<Pixel>, int), DecodeError>((out, pos)),
{
    reveal(decode_body);
}

/// Where a chunk is cut off before `total` pixels stand, the stream is truncated.
pub proof fn lemma_decode_body_truncated(
    bytes: Seq<u8>,
    pos: int,
    st: PixelState,
    out: Seq<Pixel>,
    total: nat,
)
    requires
        out.len() < total,
        chunk_at(bytes, pos) is None,
    ensures
        decode_body(bytes, pos, st, out, total) == Err::<(Seq<Pixel>, int), DecodeError>(
            DecodeError::TruncatedStreamError,
        ),
{
    reveal(decode_body);
}

/// A body that decodes yields exactly `total` pixels and ends at or after
/// where it starts, within the bytes.
pub proof fn lemma_decode_body_ok(bytes: Seq<u8>, pos: int, st: PixelState, out: Seq<Pixel>, total: nat)
    requires
        out.len() <= total,
        0 <= pos <= bytes.len(),
        decode_body(bytes, pos, st, out, total) is Ok,
    ensures
        decode_body(bytes, pos, st, out, total)->Ok_0.0.len() == total,
        pos <= decode_body(bytes, pos, st, out, total)->Ok_0.1 <= bytes.len(),
    decreases bytes.len() - pos,
{
    reveal(decode_body);
    if out.len() < total {
        let c = chunk_at(bytes, pos)->0;
        lemma_chunk_at_wf(bytes, pos);
        let room = total - out.len();
        let k = if pixel_count(c) < room {
            pixel_count(c) as int
        } else {
            room
        };
        lemma_decode_body_ok(bytes, pos + c.size(), step(st, c), out + emitted(st, c).take(k), total);
    }
}

/// A body that decodes reads no byte past the position where it ends.
pub proof fn lemma_decode_body_prefix(
    bytes: Seq<u8>,
    pos: int,
    st: PixelState,
    out: Seq<Pixel>,
    total: nat,
    n: int,
)
    requires
        out.len() <= total,
        0 <= pos <= bytes.len(),
        decode_body(bytes, pos, st, out, total) is Ok,
        decode_body(bytes, pos, st, out, total)->Ok_0.1 <= n <= bytes.len(),
    ensures
        decode_body(bytes.take(n), pos, st, out, total) == decode_body(bytes, pos, st, out, total),
    decreases bytes.len() - pos,
{
    reveal(decode_body);
    if out.len() < total {
        let c = chunk_at(bytes, pos)->0;
        lemma_chunk_at_wf(bytes, pos);
        let room = total - out.len();
        let k = if pixel_count(c) < room {
            pixel_count(c) as int
        } else {
            room
        };
        let out2 = out + emitted(st, c).take(k);
        lemma_decode_body_ok(bytes, pos + c.size(), step(st, c), out2, total);
        lemma_chunk_at_prefix(bytes, n, pos);
        lemma_decode_body_prefix(bytes, pos + c.size(), step(st, c), out2, total, n);
    }
}

/// Where the decoder meets an RGBA tag with fewer than four bytes after it,
/// before every pixel stands, the stream is truncated.
pub proof fn lemma_cut_rgba_is_truncated(
    bytes: Seq<u8>,
    pos: int,
    st: PixelState,
    out: Seq<Pixel>,
    total: nat,
)
    requires
        out.len() < total,
        0 <= pos < bytes.len(),
        bytes[pos] == QOI_OP_RGBA,
        bytes.len() < pos + 5,
    ensures
        decode_body(bytes, pos, st, out, total) == Err::<(Seq<Pixel>, int), DecodeError>(
            DecodeError::TruncatedStreamError,
        ),
{
    lemma_decode_body_truncated(bytes, pos, st, out, total);
}

/// The header and the pixels of an image file, or why it cannot be decoded.
pub open spec fn decode_image(bytes: Seq<u8>) -> Result<(QoiHeader, Seq<Pixel>), DecodeError> {
    match header_of(bytes) {
        Err(e) => Err(e),
        Ok(h) => match decode_body(
            bytes,
            HEADER_LEN as int,
            initial_state(),
            Seq::empty(),
            (h.width * h.height) as nat,
        ) {
            Err(e) => Err(e),
            Ok((px, end)) => if bytes.subrange(end, bytes.len() as int) == trailer() {
                Ok((h, px))
            } else {
                Err(DecodeError::TrailerMismatchError)
            },
        },
    }
}

/// Bytes that do not start with the magic tag are refused as a bad header,
/// and no pixel comes out.
pub proof fn lemma_bad_magic_is_header_error(bytes: Seq<u8>)
    requires
        !has_magic(bytes),
    ensures
        decode_image(bytes) == Err::<(QoiHeader, Seq<Pixel>), DecodeError>(DecodeError::HeaderError),
{
}

/// Decoding stops once width times height pixels stand: an image that
/// decodes has exactly that many, and its end marker is never read as chunks,
/// since the chunk stream without it yields the same pixels and ends exactly
/// where the marker begins.
pub proof fn lemma_image_stops_at_pixel_count(bytes: Seq<u8>)
    requires
        decode_image(bytes) is Ok,
    ensures
        ({
            let (h, px) = decode_image(bytes)->Ok_0;
            let total = (h.width * h.height) as nat;
            &&& px.len() == total
            &&& bytes.len() >= HEADER_LEN + 8
            &&& decode_body(
                bytes.take(bytes.len() - 8),
                HEADER_LEN as int,
                initial_state(),
                Seq::empty(),
                total,
            ) == Ok::<(Seq<Pixel>, int), DecodeError>((px, bytes.len() - 8))
        }),
{
    let h = header_of(bytes)->Ok_0;
    let total = (h.width * h.height) as nat;
    let body = decode_body(bytes, HEADER_LEN as int, initial_state(), Seq::empty(), total);
    lemma_decode_body_ok(bytes, HEADER_LEN as int, initial_state(), Seq::empty(), total);
    let end = body->Ok_0.1;
    assert(bytes.subrange(end, bytes.len() as int).len() == 8);
    lemma_decode_body_prefix(
        bytes,
        HEADER_LEN as int,
        initial_state(),
        Seq::empty(),
        total,
        bytes.len() - 8,
    );
}

/// A decoded image: its header fields and its pixels in row-major order.
pub struct QOIDecode {
    pub width: u32,
    pub height: u32,
    pub channels: u8,
    pub colorspace: u8,
    pub pixels: Vec<Pixel>,
}

/// Whether the bytes from `pos` to the end are exactly the end marker.
fn trailer_matches(bytes: &[u8], pos: usize) -> (r: bool)
    requires
        pos <= bytes@.len(),
    ensures
        r == (bytes@.subrange(pos as int, bytes@.len() as int) == trailer()),
{
    let r = bytes.len() - pos == 8 && bytes[pos] == 0 && bytes[pos + 1] == 0 && bytes[pos + 2] == 0
        && bytes[pos + 3] == 0 && bytes[pos + 4] == 0 && bytes[pos + 5] == 0 && bytes[pos + 6] == 0
        && bytes[pos + 7] == 1;
    proof {
        let rest = bytes@.subrange(pos as int, bytes@.len() as int);
        if r {
            assert(rest =~= trailer());
        } else if rest == trailer() {
            assert(rest.len() == 8);
            assert(rest[0] == 0 && rest[1] == 0 && rest[2] == 0 && rest[3] == 0);
            assert(rest[4] == 0 && rest[5] == 0 && rest[6] == 0 && rest[7] == 1);
        }
    }
    r
}

impl QOIDecode {
    /// Decodes a whole image file: header, chunk stream and end marker.
    pub fn from_bytes(bytes: &[u8]) -> (r: Result<QOIDecode, DecodeError>)
        ensures
            match decode_image(bytes@) {
                Ok((h, px)) => r matches Ok(img) && {
                    &&& img.width == h.width
                    &&& img.height == h.height
                    &&& img.channels == h.channels
                    &&& img.colorspace == h.colorspace
                    &&& img.pixels@ == px
                },
                Err(e) => r matches Err(f) && f == e,
            },
    {
        let header = match QoiHeader::from_bytes(bytes) {
            Ok(h) => h,
            Err(e) => return Err(e),
        };
        assert((header.width as u64) * (header.height as u64) <= 0xFFFF_FFFE_0000_0001u64)
            by (nonlinear_arith)
            requires
                header.width <= 0xFFFF_FFFFu32,
                header.height <= 0xFFFF_FFFFu32,
        ;
        let total: u64 = (header.width as u64) * (header.height as u64);
        let ghost total_n: nat = (header.width * header.height) as nat;
        let mut curr = Pixel { r: 0, g: 0, b: 0, a: 255 };
        let mut cache = [Pixel { r: 0, g: 0, b: 0, a: 0 }; 64];
        let mut pixels: Vec<Pixel> = Vec::new();
        let mut pos: usize = HEADER_LEN;
        proof {
            assert(cache@ =~= initial_state().cache);
        }
        let ghost goal = decode_body(bytes@, HEADER_LEN as int, initial_state(), Seq::empty(), total_n);
        while (pixels.len() as u64) < total
            invariant
                header_of(bytes@) == Ok::<QoiHeader, DecodeError>(header),
                total_n == (header.width * header.height) as nat,
                goal == decode_body(bytes@, HEADER_LEN as int, initial_state(), Seq::empty(), total_n),
                total == total_n,
                HEADER_LEN <= pos <= bytes@.len(),
                pixels@.len() <= total_n,
                decode_body(
                    bytes@,
                    pos as int,
                    (PixelState { current: curr, cache: cache@ }),
                    pixels@,
                    total_n,
                ) == goal,
            decreases bytes@.len() - pos,
        {
            let ghost st = PixelState { current: curr, cache: cache@ };
            let ghost out = pixels@;
            let ghost old_pos = pos as int;
            let (c, next) = match read_chunk(bytes, pos) {
                Ok(found) => found,
                Err(e) => {
                    proof {
                        lemma_decode_body_truncated(bytes@, old_pos, st, out, total_n);
                        assert(decode_image(bytes@) == Err::<(QoiHeader, Seq<Pixel>), DecodeError>(
                            e,
                        ));
                    }
                    return Err(e);
                },
            };
            proof {
                lemma_chunk_at_wf(bytes@, pos as int);
            }
            let new = apply_chunk(&mut curr, &mut cache, c);
            let count: u64 = match c {
                Chunk::RUN(n) => n as u64 + 1,
                _ => 1,
            };
            let room: u64 = total - pixels.len() as u64;
            let k: u64 = if count < room {
                count
            } else {
                room
            };
            push_copies(&mut pixels, new, k as usize);
            pos = next;
            proof {
                let room_n = total_n - out.len();
                assert(k as int == if pixel_count(c) < room_n {
                    pixel_count(c) as int
                } else {
                    room_n
                });
                lemma_decode_body_step(bytes@, old_pos, st, out, total_n, c);
                assert(pixels@ =~= out + emitted(st, c).take(k as int));
            }
        }
        let ghost st = PixelState { current: curr, cache: cache@ };
        proof {
            lemma_decode_body_done(bytes@, pos as int, st, pixels@, total_n);
        }
        if !trailer_matches(bytes, pos) {
            return Err(DecodeError::TrailerMismatchError);
        }
        Ok(
            QOIDecode {
                width: header.width,
                height: header.height,
                channels: header.channels,
                colorspace: header.colorspace,
                pixels,
            },
        )
    }
}

} // verus!
