use jqoiview::{hash, read_chunk, Chunk, DecodeError, Decoder, Pixel, QOIDecode, QoiHeader, TrackedPix};

fn px(r: u8, g: u8, b: u8, a: u8) -> Pixel {
    Pixel { r, g, b, a }
}

fn header(width: u32, height: u32) -> Vec<u8> {
    let mut bytes = vec![113u8, 111, 105, 102];
    bytes.extend_from_slice(&width.to_be_bytes());
    bytes.extend_from_slice(&height.to_be_bytes());
    bytes.push(4);
    bytes.push(0);
    bytes
}

fn image(width: u32, height: u32, body: &[u8]) -> Vec<u8> {
    let mut bytes = header(width, height);
    bytes.extend_from_slice(body);
    bytes.extend_from_slice(&[0, 0, 0, 0, 0, 0, 0, 1]);
    bytes
}

fn pixels_of(chunks: Vec<Chunk>) -> Vec<Pixel> {
    let mut d = Decoder::new(chunks);
    let mut out = Vec::new();
    while let Some(t) = d.next() {
        out.push(t.pix);
    }
    out
}

#[test]
fn hash_stays_in_cache_range() {
    assert_eq!(hash(px(0, 0, 0, 255)), 53);
    assert_eq!(hash(px(255, 255, 255, 255)), 38);
    assert_eq!(hash(px(1, 2, 3, 4)), 14);
    assert_eq!(hash(px(0, 0, 0, 0)), 0);
    for v in [0u8, 1, 17, 128, 254, 255] {
        let h = hash(px(v, v.wrapping_mul(3), v ^ 0x5a, 255 - v));
        assert!(h < 64);
        assert_eq!(h, hash(px(v, v.wrapping_mul(3), v ^ 0x5a, 255 - v)));
    }
}

#[test]
fn run_repeats_previous_pixel() {
    let out = pixels_of(vec![Chunk::RGBA(1, 2, 3, 4), Chunk::RUN(2)]);
    assert_eq!(out, vec![px(1, 2, 3, 4); 4]);
}

#[test]
fn run_at_start_repeats_initial_pixel() {
    let out = pixels_of(vec![Chunk::RUN(0)]);
    assert_eq!(out, vec![px(0, 0, 0, 255)]);
}

#[test]
fn diff_wraps_below_zero() {
    let out = pixels_of(vec![Chunk::DIFF(0, 0, 0)]);
    assert_eq!(out, vec![px(254, 254, 254, 255)]);
}

#[test]
fn diff_wraps_above_255() {
    let out = pixels_of(vec![Chunk::RGB(255, 0, 100), Chunk::DIFF(3, 2, 1)]);
    assert_eq!(out[1], px(0, 0, 99, 255));
}

#[test]
fn luma_zero_delta_keeps_pixel() {
    let out = pixels_of(vec![Chunk::RGBA(10, 10, 10, 255), Chunk::LUMA(32, 8, 8)]);
    assert_eq!(out[1], px(10, 10, 10, 255));
}

#[test]
fn luma_applies_green_relative_deltas() {
    let out = pixels_of(vec![Chunk::RGBA(10, 10, 10, 7), Chunk::LUMA(40, 10, 6)]);
    assert_eq!(out[1], px(20, 18, 16, 7));
    let out = pixels_of(vec![Chunk::LUMA(0, 0, 15)]);
    assert_eq!(out[0], px(216, 224, 231, 255));
}

#[test]
fn rgb_keeps_previous_alpha() {
    let out = pixels_of(vec![Chunk::RGBA(1, 1, 1, 9), Chunk::RGB(5, 6, 7)]);
    assert_eq!(out[1], px(5, 6, 7, 9));
}

#[test]
fn index_returns_cached_pixel() {
    let out = pixels_of(vec![
        Chunk::RGBA(1, 2, 3, 4),
        Chunk::RGBA(9, 9, 9, 9),
        Chunk::INDEX(14),
        Chunk::INDEX(5),
    ]);
    assert_eq!(out[2], px(1, 2, 3, 4));
    assert_eq!(out[3], px(0, 0, 0, 0));
}

#[test]
fn decoder_tracks_source_chunk() {
    let mut d = Decoder::new(vec![Chunk::RUN(1), Chunk::RGB(1, 2, 3)]);
    let first = d.next().unwrap();
    assert_eq!(first, TrackedPix { pix: px(0, 0, 0, 255), from: Chunk::RUN(1) });
    assert_eq!(d.next().unwrap().from, Chunk::RUN(1));
    assert_eq!(d.next().unwrap(), TrackedPix { pix: px(1, 2, 3, 255), from: Chunk::RGB(1, 2, 3) });
    assert!(d.next().is_none());
    assert!(d.next().is_none());
}

#[test]
fn decode_next_chunk_updates_cache() {
    let mut d = Decoder::new(vec![Chunk::RGBA(1, 2, 3, 4), Chunk::RUN(0)]);
    assert_eq!(d.decode_next_chunk(), Some(Chunk::RGBA(1, 2, 3, 4)));
    assert_eq!(d.index[14], px(1, 2, 3, 4));
    assert_eq!(d.decode_next_chunk(), Some(Chunk::RUN(0)));
    assert_eq!(d.decode_next_chunk(), None);
}

#[test]
fn read_chunk_dispatches_on_tag() {
    assert_eq!(read_chunk(&[0xFE, 1, 2, 3], 0), Ok((Chunk::RGB(1, 2, 3), 4)));
    assert_eq!(read_chunk(&[0xFF, 1, 2, 3, 4], 0), Ok((Chunk::RGBA(1, 2, 3, 4), 5)));
    assert_eq!(read_chunk(&[7, 0x2A], 1), Ok((Chunk::INDEX(42), 2)));
    assert_eq!(read_chunk(&[0x40 | (3 << 4) | (2 << 2) | 1], 0), Ok((Chunk::DIFF(3, 2, 1), 1)));
    assert_eq!(read_chunk(&[0x85, 0x3A], 0), Ok((Chunk::LUMA(5, 3, 10), 2)));
    assert_eq!(read_chunk(&[0xC0 | 61], 0), Ok((Chunk::RUN(61), 1)));
}

#[test]
fn read_chunk_reports_truncation() {
    assert_eq!(read_chunk(&[0xFE, 1, 2], 0), Err(DecodeError::TruncatedStreamError));
    assert_eq!(read_chunk(&[0xFF, 1, 2, 3], 0), Err(DecodeError::TruncatedStreamError));
    assert_eq!(read_chunk(&[0x80], 0), Err(DecodeError::TruncatedStreamError));
    assert_eq!(read_chunk(&[0x00], 1), Err(DecodeError::TruncatedStreamError));
}

#[test]
fn header_reads_big_endian_fields() {
    let mut bytes = header(258, 0x0102_0304);
    bytes[12] = 3;
    bytes[13] = 1;
    let h = QoiHeader::from_bytes(&bytes).unwrap();
    assert_eq!(h, QoiHeader { width: 258, height: 0x0102_0304, channels: 3, colorspace: 1 });
}

#[test]
fn header_passes_odd_channels_through() {
    let mut bytes = header(1, 1);
    bytes[12] = 9;
    bytes[13] = 7;
    let h = QoiHeader::from_bytes(&bytes).unwrap();
    assert_eq!((h.channels, h.colorspace), (9, 7));
}

#[test]
fn header_rejects_zero_size_and_short_input() {
    assert_eq!(QoiHeader::from_bytes(&header(0, 5)), Err(DecodeError::HeaderError));
    assert_eq!(QoiHeader::from_bytes(&header(5, 0)), Err(DecodeError::HeaderError));
    assert_eq!(QoiHeader::from_bytes(&header(5, 5)[..13]), Err(DecodeError::HeaderError));
}

#[test]
fn end_to_end_rgba_then_rgb() {
    let bytes = image(2, 1, &[0xFF, 10, 20, 30, 255, 0xFE, 40, 50, 60]);
    let img = QOIDecode::from_bytes(&bytes).unwrap();
    assert_eq!((img.width, img.height, img.channels, img.colorspace), (2, 1, 4, 0));
    assert_eq!(img.pixels, vec![px(10, 20, 30, 255), px(40, 50, 60, 255)]);
}

#[test]
fn run_is_cut_at_pixel_count() {
    let bytes = image(3, 1, &[0xFE, 1, 2, 3, 0xC0 | 10]);
    let img = QOIDecode::from_bytes(&bytes).unwrap();
    assert_eq!(img.pixels, vec![px(1, 2, 3, 255); 3]);
}

#[test]
fn trailer_is_never_read_as_chunks() {
    let bytes = image(1, 1, &[0xC0]);
    let img = QOIDecode::from_bytes(&bytes).unwrap();
    assert_eq!(img.pixels, vec![px(0, 0, 0, 255)]);
}

#[test]
fn bytes_after_trailer_are_a_mismatch() {
    let mut bytes = image(1, 1, &[0xC0]);
    bytes.push(0xC0);
    assert!(matches!(QOIDecode::from_bytes(&bytes), Err(DecodeError::TrailerMismatchError)));
}

#[test]
fn wrong_trailer_is_a_mismatch() {
    let mut bytes = header(1, 1);
    bytes.extend_from_slice(&[0xC0, 0, 0, 0, 0, 0, 0, 0, 2]);
    assert!(matches!(QOIDecode::from_bytes(&bytes), Err(DecodeError::TrailerMismatchError)));
}

#[test]
fn bad_magic_is_header_error() {
    let mut bytes = image(2, 1, &[0xFF, 10, 20, 30, 255, 0xFE, 40, 50, 60]);
    bytes[0] = b'Q';
    assert!(matches!(QOIDecode::from_bytes(&bytes), Err(DecodeError::HeaderError)));
    assert!(matches!(QOIDecode::from_bytes(&[]), Err(DecodeError::HeaderError)));
}

#[test]
fn cut_rgba_is_truncated() {
    let mut bytes = header(1, 1);
    bytes.extend_from_slice(&[0xFF, 10, 20, 30]);
    assert!(matches!(QOIDecode::from_bytes(&bytes), Err(DecodeError::TruncatedStreamError)));
}

#[test]
fn missing_pixels_are_truncated() {
    let mut bytes = header(2, 1);
    bytes.extend_from_slice(&[0xFF, 10, 20, 30, 255]);
    assert!(matches!(QOIDecode::from_bytes(&bytes), Err(DecodeError::TruncatedStreamError)));
}

#[test]
fn index_chunk_in_stream_reads_cache() {
    let bytes = image(3, 1, &[0xFF, 1, 2, 3, 4, 0xFE, 9, 9, 9, 14]);
    let img = QOIDecode::from_bytes(&bytes).unwrap();
    assert_eq!(img.pixels[2], px(1, 2, 3, 4));
}
