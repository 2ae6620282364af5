use hardqoi::hashing::{div_rem, hashes_rgba, V1};
use hardqoi::hia::HashIndexedArray;
use hardqoi::ops::{op_diff_expand222, op_luma_expand644, run_length, RunResult};
use hardqoi::pixel::{hash_rgba, is_alpha_different, Pixel};
use hardqoi::{decode, encode, QOIHeader, QoiError};

fn header(width: u32, height: u32, has_alpha: bool) -> QOIHeader {
    QOIHeader { width, height, has_alpha, linear_rgb: false }
}

fn raw_bytes(pixels: &[Pixel]) -> Vec<u8> {
    let mut raw = Vec::new();
    for p in pixels {
        raw.push(p.r);
        raw.push(p.g);
        raw.push(p.b);
        raw.push(p.a);
    }
    raw
}

fn encode_ok(pixels: &[Pixel], meta: QOIHeader) -> Vec<u8> {
    let raw = raw_bytes(pixels);
    let mut buf = Vec::new();
    let written = encode(&raw, meta, &mut buf).expect("encode failed");
    assert_eq!(written, pixels.len());
    buf
}

fn decode_ok(bytes: &Vec<u8>) -> Vec<Pixel> {
    let mut out = Vec::new();
    decode(bytes, &mut out).expect("decode failed");
    out
}

/// The body of a stream: everything between the 14-byte header and the
/// 8-byte end marker.
fn body_of(bytes: &[u8]) -> &[u8] {
    &bytes[14..bytes.len() - 8]
}

const END: [u8; 8] = [0, 0, 0, 0, 0, 0, 0, 1];

#[test]
fn all_zero_pixels_use_index_then_run() {
    // Four transparent black pixels: the zero pixel sits in its table
    // slot from the start, so the first op is INDEX(0); the remaining
    // three extend a run.
    let px = Pixel::new(0, 0, 0, 0);
    let pixels = [px, px, px, px];
    let bytes = encode_ok(&pixels, header(4, 1, true));
    assert_eq!(body_of(&bytes), &[0x00, 0xc2]);
    assert_eq!(&bytes[bytes.len() - 8..], &END);
    assert_eq!(decode_ok(&bytes), pixels.to_vec());
}

#[test]
fn single_red_pixel_is_one_diff_byte() {
    let pixels = [Pixel::new(255, 0, 0, 255)];
    let bytes = encode_ok(&pixels, header(1, 1, true));
    assert_eq!(body_of(&bytes), &[0x5a]);
    assert_eq!(decode_ok(&bytes), pixels.to_vec());
}

#[test]
fn run_of_62_flushes_exactly_once() {
    let px = Pixel::new(10, 20, 30, 40);
    let pixels = vec![px; 62];
    let bytes = encode_ok(&pixels, header(62, 1, true));
    assert_eq!(body_of(&bytes), &[0xff, 10, 20, 30, 40, 0xfc]);
    assert_eq!(decode_ok(&bytes), pixels);
}

#[test]
fn run_of_63_splits_at_62() {
    let px = Pixel::new(10, 20, 30, 40);
    let pixels = vec![px; 63];
    let bytes = encode_ok(&pixels, header(63, 1, true));
    assert_eq!(body_of(&bytes), &[0xff, 10, 20, 30, 40, 0xfd]);
    assert_eq!(decode_ok(&bytes), pixels);

    // one more identical pixel starts a fresh one-long run
    let pixels64 = vec![px; 64];
    let bytes64 = encode_ok(&pixels64, header(64, 1, true));
    assert_eq!(body_of(&bytes64), &[0xff, 10, 20, 30, 40, 0xfd, 0xc0]);
    assert_eq!(decode_ok(&bytes64), pixels64);
}

#[test]
fn luma_boundary_green_delta_32_falls_back_to_rgb() {
    // dg = 32 biases to 64, one past the LUMA field: must emit RGB.
    let pixels = [Pixel::new(7, 32, 251, 255)];
    let bytes = encode_ok(&pixels, header(1, 1, true));
    assert_eq!(body_of(&bytes), &[0xfe, 7, 32, 251]);
    assert_eq!(decode_ok(&bytes), pixels.to_vec());
}

#[test]
fn luma_op_round_trips() {
    // dg = 20, dr - dg = -3, db - dg = 5: squarely in LUMA range.
    let pixels = [Pixel::new(17, 20, 25, 255)];
    let bytes = encode_ok(&pixels, header(1, 1, true));
    assert_eq!(body_of(&bytes), &[0x80u8 | 52, 0x5d]);
    assert_eq!(decode_ok(&bytes), pixels.to_vec());
}

#[test]
fn index_hit_and_collision() {
    // a and b share hash slot 0; the slot holds whichever came last, so
    // only a matching occupant yields an INDEX op.
    let a = Pixel::new(0, 0, 0, 0);
    let b = Pixel::new(64, 0, 0, 0);
    let pixels = [a, b, a];
    let bytes = encode_ok(&pixels, header(3, 1, true));
    assert_eq!(body_of(&bytes), &[0x00, 0xfe, 64, 0, 0, 0xfe, 0, 0, 0]);
    assert_eq!(decode_ok(&bytes), pixels.to_vec());
}

#[test]
fn decoder_seeds_initial_pixel_for_leading_run() {
    // A stream whose first op is a RUN repeats the initial pixel
    // (0,0,0,255); the decoder must seed it into slot 53 so that a later
    // INDEX(53) finds it.
    let mut bytes = Vec::new();
    let meta = header(3, 1, true);
    bytes.extend_from_slice(&[0x71, 0x6f, 0x69, 0x66]);
    bytes.extend_from_slice(&meta.to_bytes());
    bytes.extend_from_slice(&[0xc1, 0x35]);
    bytes.extend_from_slice(&END);
    let init = Pixel::new(0, 0, 0, 255);
    assert_eq!(decode_ok(&bytes), vec![init, init, init]);
}

#[test]
fn header_round_trips_through_bytes() {
    let meta = QOIHeader { width: 70000, height: 3, has_alpha: false, linear_rgb: true };
    let mut bytes = vec![0x71u8, 0x6f, 0x69, 0x66];
    bytes.extend_from_slice(&meta.to_bytes());
    // pad to a parseable stream length check is not needed: parse only
    // reads the first 14 bytes
    let parsed = hardqoi::header::parse_header(&bytes).expect("parse failed");
    assert_eq!(parsed, meta);
    assert_eq!(bytes[12], 3);
    assert_eq!(bytes[13], 1);
}

#[test]
fn every_output_ends_with_the_end_marker() {
    let inputs: Vec<Vec<Pixel>> = vec![
        vec![],
        vec![Pixel::new(1, 2, 3, 4)],
        vec![Pixel::new(9, 9, 9, 255); 130],
    ];
    for pixels in inputs {
        let n = pixels.len() as u32;
        let bytes = encode_ok(&pixels, header(n, 1, true));
        assert_eq!(&bytes[bytes.len() - 8..], &END);
    }
}

#[test]
fn scalar_hash_matches_formula() {
    assert_eq!(hash_rgba(&Pixel::new(0, 0, 0, 0)), 0);
    assert_eq!(hash_rgba(&Pixel::new(0, 0, 0, 255)), 53);
    assert_eq!(hash_rgba(&Pixel::new(255, 255, 255, 255)), (26u32 * 255 % 64) as u8);
    assert_eq!(hash_rgba(&Pixel::new(1, 2, 3, 4)), ((3 + 10 + 21 + 44) % 64) as u8);
}

#[test]
fn bulk_hash_agrees_with_scalar() {
    let mut pixels = Vec::new();
    for i in 0..300u32 {
        pixels.push(Pixel::new(
            (i % 256) as u8,
            (i * 7 % 256) as u8,
            (i * 13 % 256) as u8,
            (i * 29 % 256) as u8,
        ));
    }
    let hashes = hashes_rgba(&pixels);
    assert_eq!(hashes.len(), pixels.len());
    for (i, p) in pixels.iter().enumerate() {
        assert_eq!(hashes[i], hash_rgba(p));
    }
}

#[test]
fn hia_keeps_the_last_pixel_per_slot() {
    let a = Pixel::new(0, 0, 0, 0);
    let b = Pixel::new(64, 0, 0, 0);
    let mut hia = HashIndexedArray::new();
    assert_eq!(hia.fetch(0), a);
    let (old, h) = hia.push(b);
    assert_eq!((old, h), (a, 0));
    assert_eq!(hia.fetch(0), b);
    let feed = vec![a, b];
    hia.update(&feed, 0, 2);
    assert_eq!(hia.fetch(0), b);
    let (old2, h2) = hia.swap(&a);
    assert_eq!((old2, h2), (b, 0));
    assert_eq!(hia.fetch(0), a);
}

#[test]
fn bad_magic_is_rejected() {
    let mut bytes = encode_ok(&[Pixel::new(1, 2, 3, 4)], header(1, 1, true));
    bytes[0] = b'x';
    let mut out = Vec::new();
    assert_eq!(decode(&bytes, &mut out), Err(QoiError::BadMagic));
    assert!(out.is_empty());
}

#[test]
fn bad_channels_is_rejected() {
    let mut bytes = encode_ok(&[Pixel::new(1, 2, 3, 4)], header(1, 1, true));
    bytes[12] = 5;
    let mut out = Vec::new();
    assert_eq!(decode(&bytes, &mut out), Err(QoiError::BadChannels));
}

#[test]
fn bad_colorspace_is_rejected() {
    let mut bytes = encode_ok(&[Pixel::new(1, 2, 3, 4)], header(1, 1, true));
    bytes[13] = 2;
    let mut out = Vec::new();
    assert_eq!(decode(&bytes, &mut out), Err(QoiError::BadColorspace));
}

#[test]
fn bad_end_marker_is_rejected() {
    let mut bytes = encode_ok(&[Pixel::new(1, 2, 3, 4)], header(1, 1, true));
    let n = bytes.len();
    bytes[n - 1] = 7;
    let mut out = Vec::new();
    assert_eq!(decode(&bytes, &mut out), Err(QoiError::BadEndMarker));
}

#[test]
fn truncated_op_is_rejected() {
    // an RGBA op byte with only two operand bytes before the marker
    let meta = header(1, 1, true);
    let mut bytes = Vec::new();
    bytes.extend_from_slice(&[0x71, 0x6f, 0x69, 0x66]);
    bytes.extend_from_slice(&meta.to_bytes());
    bytes.extend_from_slice(&[0xff, 1, 2]);
    bytes.extend_from_slice(&END);
    let mut out = Vec::new();
    assert_eq!(decode(&bytes, &mut out), Err(QoiError::TruncatedInput));
}

#[test]
fn short_input_is_rejected() {
    let bytes = vec![0x71u8, 0x6f, 0x69, 0x66];
    let mut out = Vec::new();
    assert_eq!(decode(&bytes, &mut out), Err(QoiError::TruncatedInput));
}

#[test]
fn size_mismatch_reports_both_counts() {
    // header says 3 pixels, body encodes 2
    let two = [Pixel::new(5, 6, 7, 255), Pixel::new(5, 6, 7, 255)];
    let mut bytes = encode_ok(&two, header(2, 1, true));
    // rewrite the width to 3
    bytes[7] = 3;
    let mut out = Vec::new();
    assert_eq!(decode(&bytes, &mut out), Err(QoiError::SizeMismatch { found: 2, expected: 3 }));
}

#[test]
fn encode_length_mismatch_reports_both_counts() {
    let raw = raw_bytes(&[Pixel::new(1, 1, 1, 1)]);
    let mut buf = Vec::new();
    assert_eq!(encode(&raw, header(2, 1, true), &mut buf), Err((1, 2)));
    assert!(buf.is_empty());
}

#[test]
fn alpha_change_forces_rgba_op() {
    let pixels = [Pixel::new(1, 2, 3, 9)];
    let bytes = encode_ok(&pixels, header(1, 1, true));
    assert_eq!(body_of(&bytes), &[0xff, 1, 2, 3, 9]);
    assert_eq!(decode_ok(&bytes), pixels.to_vec());
}

#[test]
fn alpha_difference_checks_the_top_byte() {
    assert!(is_alpha_different::<true>(0xff00_0000, 0x0100_0000));
    assert!(!is_alpha_different::<true>(0xff00_0000, 0xff12_3456));
    assert!(!is_alpha_different::<false>(0xff00_0000, 0x0000_0000));
}

#[test]
fn run_length_counts_trailing_ones() {
    match run_length(0xffff, 0) {
        RunResult::AtLeast(n) => assert_eq!(n, 16),
        RunResult::Exactly(_) => panic!("full mask must be AtLeast"),
    }
    match run_length(0x0007, 0) {
        RunResult::Exactly(n) => assert_eq!(n, 3),
        RunResult::AtLeast(_) => panic!("partial mask must be Exactly"),
    }
    match run_length(0x0fff, 4) {
        RunResult::AtLeast(n) => assert_eq!(n, 12),
        RunResult::Exactly(_) => panic!("mask filling the window must be AtLeast"),
    }
    match run_length(0x00ff, 4) {
        RunResult::Exactly(n) => assert_eq!(n, 8),
        RunResult::AtLeast(_) => panic!("mask short of the window must be Exactly"),
    }
}

#[test]
fn op_expanders_extract_fields() {
    assert_eq!(op_diff_expand222(0x5a), [1, 2, 2, 0]);
    // dg = 20 biased to 52, dr-dg = -3 biased to 5, db-dg = 5 biased to 13
    let expanded = op_luma_expand644(0x80 | 52, (5 << 4) | 13);
    // entries are raw deltas: dr = 17, dg = 20, db = 25
    assert_eq!(expanded, [17, 20, 25, 0]);
}

fn synthetic_image(width: u32, height: u32) -> Vec<Pixel> {
    let mut pixels = Vec::new();
    for y in 0..height {
        for x in 0..width {
            // bands of runs, gradients and alpha changes
            let p = match (y / 4) % 4 {
                0 => Pixel::new(10, 20, 30, 255),
                1 => Pixel::new((x % 256) as u8, (y % 256) as u8, ((x + y) % 256) as u8, 255),
                2 => Pixel::new((x % 3) as u8, ((x % 3) + 1) as u8, ((x % 3) + 2) as u8, 255),
                _ => Pixel::new(
                    (x * 7 % 256) as u8,
                    (y * 11 % 256) as u8,
                    (x * y % 256) as u8,
                    (x % 256) as u8,
                ),
            };
            pixels.push(p);
        }
    }
    pixels
}

#[test]
fn round_trip_on_synthetic_images() {
    for (w, h) in [(1u32, 1u32), (3, 5), (64, 2), (50, 33)] {
        let pixels = synthetic_image(w, h);
        let bytes = encode_ok(&pixels, header(w, h, true));
        assert_eq!(decode_ok(&bytes), pixels);
    }
}

#[test]
fn test_and_compete_jw() {
    // The same subject as the image-file benchmark: a full encode and
    // decode round trip, checked against the independent codecs, on a
    // synthetic image in place of the missing picture files.
    let (w, h) = (160u32, 120u32);
    let pixels = synthetic_image(w, h);
    let raw = raw_bytes(&pixels);
    let meta = QOIHeader { width: w, height: h, has_alpha: true, linear_rgb: false };

    // our round trip
    let bytes = encode_ok(&pixels, meta);
    assert_eq!(decode_ok(&bytes), pixels);

    // rapid_qoi decodes our stream to the same raw bytes
    let (info, their_raw) = rapid_qoi::Qoi::decode_alloc(&bytes).expect("rapid_qoi decode failed");
    assert_eq!(info.width, w);
    assert_eq!(info.height, h);
    assert_eq!(their_raw, raw);

    // and we decode rapid_qoi's stream to the same pixels
    let qoi = rapid_qoi::Qoi { width: w, height: h, colors: rapid_qoi::Colors::SrgbLinA };
    let their_bytes = qoi.encode_alloc(&raw).expect("rapid_qoi encode failed");
    assert_eq!(decode_ok(&their_bytes), pixels);

    // qoi_rs speaks an earlier dialect of the format: let it round-trip
    // its own stream over the same image
    let img = qoi_rs::Image {
        pixels: raw.clone().into_boxed_slice(),
        width: w as u16,
        height: h as u16,
    };
    let old_format = qoi_rs::encode(img, 4).expect("qoi_rs encode failed");
    let back = qoi_rs::decode(&old_format, 4).expect("qoi_rs decode failed");
    assert_eq!(back.width as u32, w);
    assert_eq!(back.height as u32, h);
    assert_eq!(back.pixels.as_ref(), raw.as_slice());
}

#[test]
fn chained_run_ops_decode_in_sequence() {
    // two back-to-back RUN ops: 62 repeats then 2 more
    let meta = header(64, 1, true);
    let mut bytes = Vec::new();
    bytes.extend_from_slice(&[0x71, 0x6f, 0x69, 0x66]);
    bytes.extend_from_slice(&meta.to_bytes());
    bytes.extend_from_slice(&[0xfd, 0xc1]);
    bytes.extend_from_slice(&END);
    let init = Pixel::new(0, 0, 0, 255);
    assert_eq!(decode_ok(&bytes), vec![init; 64]);
}

#[test]
fn truncated_luma_is_rejected() {
    // a LUMA op byte with its operand byte missing
    let meta = header(1, 1, true);
    let mut bytes = Vec::new();
    bytes.extend_from_slice(&[0x71, 0x6f, 0x69, 0x66]);
    bytes.extend_from_slice(&meta.to_bytes());
    bytes.extend_from_slice(&[0x80 | 52]);
    bytes.extend_from_slice(&END);
    let mut out = Vec::new();
    assert_eq!(decode(&bytes, &mut out), Err(QoiError::TruncatedInput));
}

#[test]
fn truncated_rgb_is_rejected() {
    let meta = header(1, 1, true);
    let mut bytes = Vec::new();
    bytes.extend_from_slice(&[0x71, 0x6f, 0x69, 0x66]);
    bytes.extend_from_slice(&meta.to_bytes());
    bytes.extend_from_slice(&[0xfe, 1]);
    bytes.extend_from_slice(&END);
    let mut out = Vec::new();
    assert_eq!(decode(&bytes, &mut out), Err(QoiError::TruncatedInput));
}

#[test]
fn scalar_kernel_appends_hashes_in_order() {
    let pixels = vec![
        Pixel::new(0, 0, 0, 255),
        Pixel::new(0, 0, 0, 0),
        Pixel::new(64, 0, 0, 0),
        Pixel::new(1, 2, 3, 4),
    ];
    let kernel = V1;
    assert_eq!(kernel.hash_chunk_size(), 1);
    let mut hashes: Vec<u8> = vec![99];
    kernel.hash_chunks(&pixels, 1, 3, &mut hashes);
    assert_eq!(hashes, vec![99, 0, 0, hash_rgba(&Pixel::new(1, 2, 3, 4))]);
}

#[test]
fn div_rem_splits_quotient_and_remainder() {
    assert_eq!(div_rem(200, 62), (3, 14));
    assert_eq!(div_rem(61, 62), (0, 61));
    assert_eq!(div_rem(124, 62), (2, 0));
}
