//! Byte-level tests of the wire format: exact encodings of small images and
//! the boundary behaviour of runs and delta opcodes.
use qoi::decode::decode_allocated;
use qoi::encode::encode_allocated;
use qoi::ColorChannel;
use qoi::ColorSpace;
use qoi::Header;
use qoi::Pixel;

fn px(r: u8, g: u8, b: u8, a: u8) -> Pixel {
    Pixel { r, g, b, a }
}

fn header_bytes(h: &Header) -> Vec<u8> {
    let mut v = vec![0x71, 0x6f, 0x69, 0x66];
    v.extend_from_slice(&h.width.to_be_bytes());
    v.extend_from_slice(&h.height.to_be_bytes());
    v.push(match h.channels {
        ColorChannel::RGB => 3,
        ColorChannel::RGBA => 4,
    });
    v.push(match h.colorspace {
        ColorSpace::SRGB => 0,
        ColorSpace::LINEAR => 1,
    });
    v
}

const END: [u8; 8] = [0, 0, 0, 0, 0, 0, 0, 1];

fn expect_bytes(h: &Header, body: &[u8]) -> Vec<u8> {
    let mut v = header_bytes(h);
    v.extend_from_slice(body);
    v.extend_from_slice(&END);
    v
}

#[test]
fn empty_image_is_header_and_end_marker() {
    let h = Header::new(0, 0, ColorChannel::RGB, ColorSpace::SRGB);
    let bytes = encode_allocated(&h, &[]).unwrap();
    assert_eq!(bytes, expect_bytes(&h, &[]));
    let (h2, pixels) = decode_allocated(&bytes).unwrap();
    assert_eq!(h2, h);
    assert_eq!(pixels.len(), 0);
}

#[test]
fn single_default_pixel_exact_bytes() {
    // The first pixel equals the default predecessor: it must not start a
    // run, misses its table slot (which holds transparent black), and comes
    // out as the all-zero-delta DIFF byte `01 10 10 10`.
    let h = Header::new(1, 1, ColorChannel::RGB, ColorSpace::LINEAR);
    let bytes = encode_allocated(&h, &[px(0, 0, 0, 255)]).unwrap();
    assert_eq!(
        bytes,
        vec![
            0x71, 0x6f, 0x69, 0x66, 0, 0, 0, 1, 0, 0, 0, 1, 3, 1, 0b01101010, 0, 0, 0, 0, 0, 0, 0,
            1
        ]
    );
}

#[test]
fn run_of_62_flushes_before_differing_pixel() {
    // One leading pixel, 62 repeats, then a different pixel: the repeats
    // collapse into a single full run byte (length stored as 61).
    let mut pixels = vec![px(0, 0, 0, 255); 63];
    pixels.push(px(100, 0, 0, 255));
    let h = Header::new(64, 1, ColorChannel::RGB, ColorSpace::SRGB);
    let bytes = encode_allocated(&h, &pixels).unwrap();
    assert_eq!(bytes, expect_bytes(&h, &[0x6a, 0xfd, 0xfe, 100, 0, 0]));
    let (h2, decoded) = decode_allocated(&bytes).unwrap();
    assert_eq!(h2, h);
    assert_eq!(decoded, pixels);
}

#[test]
fn run_of_63_splits_into_62_and_1() {
    // A run of 63 repeats needs two run bytes: 62 then 1, stored as 61 and 0.
    let pixels = vec![px(0, 0, 0, 255); 64];
    let h = Header::new(64, 1, ColorChannel::RGB, ColorSpace::SRGB);
    let bytes = encode_allocated(&h, &pixels).unwrap();
    assert_eq!(bytes, expect_bytes(&h, &[0x6a, 0xfd, 0xc0]));
    let (_, decoded) = decode_allocated(&bytes).unwrap();
    assert_eq!(decoded, pixels);
}

#[test]
fn aligned_negative_delta_uses_rgb() {
    // All channels move down by 33 with the alpha unchanged: too wide for
    // DIFF and for LUMA's green range, so the pixel is spelled out as RGB.
    let pixels = vec![px(0, 0, 0, 255), px(223, 223, 223, 255)];
    let h = Header::new(2, 1, ColorChannel::RGB, ColorSpace::SRGB);
    let bytes = encode_allocated(&h, &pixels).unwrap();
    assert_eq!(bytes, expect_bytes(&h, &[0x6a, 0xfe, 223, 223, 223]));
    let (_, decoded) = decode_allocated(&bytes).unwrap();
    assert_eq!(decoded, pixels);
}

#[test]
fn alpha_change_uses_rgba() {
    let pixels = vec![px(0, 0, 0, 255), px(0, 0, 0, 128)];
    let h = Header::new(2, 1, ColorChannel::RGBA, ColorSpace::SRGB);
    let bytes = encode_allocated(&h, &pixels).unwrap();
    assert_eq!(bytes, expect_bytes(&h, &[0x6a, 0xff, 0, 0, 0, 128]));
    let (_, decoded) = decode_allocated(&bytes).unwrap();
    assert_eq!(decoded, pixels);
}

#[test]
fn two_red_pixels_use_diff_then_run() {
    // From opaque black to opaque red, the red delta wraps to minus one, so
    // its biased value is one and DIFF applies; the repeat becomes a run of
    // one, flushed at the last pixel.
    let pixels = vec![px(255, 0, 0, 255), px(255, 0, 0, 255)];
    let h = Header::new(2, 1, ColorChannel::RGB, ColorSpace::LINEAR);
    let bytes = encode_allocated(&h, &pixels).unwrap();
    assert_eq!(bytes, expect_bytes(&h, &[0x5a, 0xc0]));
    let (_, decoded) = decode_allocated(&bytes).unwrap();
    assert_eq!(decoded, pixels);
}

#[test]
fn two_black_pixels_use_diff_then_run() {
    let pixels = vec![px(0, 0, 0, 255), px(0, 0, 0, 255)];
    let h = Header::new(2, 1, ColorChannel::RGB, ColorSpace::SRGB);
    let bytes = encode_allocated(&h, &pixels).unwrap();
    assert_eq!(bytes, expect_bytes(&h, &[0x6a, 0xc0]));
    let (_, decoded) = decode_allocated(&bytes).unwrap();
    assert_eq!(decoded, pixels);
}

#[test]
fn repeated_colour_after_others_uses_index() {
    // The third pixel was seen before and still sits in its table slot, so
    // it is emitted as a one-byte INDEX opcode naming that slot.
    let a = px(10, 20, 30, 255);
    let b = px(200, 100, 50, 255);
    let pixels = vec![a, b, a];
    let h = Header::new(3, 1, ColorChannel::RGB, ColorSpace::SRGB);
    let bytes = encode_allocated(&h, &pixels).unwrap();
    let hash_a = (10usize * 3 + 20 * 5 + 30 * 7 + 255 * 11) % 64;
    assert_eq!(bytes[bytes.len() - 9], hash_a as u8);
    let (_, decoded) = decode_allocated(&bytes).unwrap();
    assert_eq!(decoded, pixels);
}

#[test]
fn luma_opcode_roundtrips() {
    // A green shift of +10 with small red and blue offsets fits LUMA but
    // not DIFF: two bytes, 10xxxxxx then the packed offsets.
    let pixels = vec![px(0, 0, 0, 255), px(12, 10, 9, 255)];
    let h = Header::new(2, 1, ColorChannel::RGB, ColorSpace::SRGB);
    let bytes = encode_allocated(&h, &pixels).unwrap();
    assert_eq!(bytes, expect_bytes(&h, &[0x6a, 0xaa, 0xa7]));
    let (_, decoded) = decode_allocated(&bytes).unwrap();
    assert_eq!(decoded, pixels);
}

#[test]
fn mixed_image_roundtrips() {
    let raw: [[u8; 3]; 24] = [
        [192, 0, 0],
        [192, 0, 0],
        [0, 0, 192],
        [0, 0, 192],
        [0, 0, 0],
        [0, 0, 0],
        [0, 0, 0],
        [255, 255, 255],
        [128, 128, 128],
        [120, 130, 130],
        [100, 128, 128],
        [125, 125, 125],
        [128, 128, 128],
        [128, 128, 128],
        [255, 255, 255],
        [124, 134, 71],
        [124, 134, 71],
        [124, 134, 71],
        [128, 128, 128],
        [150, 130, 130],
        [150, 130, 130],
        [0, 0, 0],
        [0, 0, 0],
        [0, 0, 0],
    ];
    let pixels: Vec<Pixel> = raw.iter().map(|c| px(c[0], c[1], c[2], 255)).collect();
    let h = Header::new(6, 4, ColorChannel::RGB, ColorSpace::LINEAR);
    let bytes = encode_allocated(&h, &pixels).unwrap();
    let (h2, decoded) = decode_allocated(&bytes).unwrap();
    assert_eq!(h2, h);
    assert_eq!(decoded, pixels);
}

#[test]
fn rgba_image_with_transparency_roundtrips() {
    let pixels = vec![
        px(1, 2, 3, 4),
        px(1, 2, 3, 4),
        px(1, 2, 3, 200),
        px(90, 80, 70, 200),
        px(1, 2, 3, 4),
        px(0, 0, 0, 0),
    ];
    let h = Header::new(3, 2, ColorChannel::RGBA, ColorSpace::SRGB);
    let bytes = encode_allocated(&h, &pixels).unwrap();
    let (h2, decoded) = decode_allocated(&bytes).unwrap();
    assert_eq!(h2, h);
    assert_eq!(decoded, pixels);
}
