//! Tests of the value types, the error taxonomy, and the caller-buffer entry
//! points.
use qoi::decode::decode;
use qoi::decode::decode_allocated;
use qoi::decode::DecodeError;
use qoi::encode::encode;
use qoi::encode::encode_allocated;
use qoi::encode::EncodeError;
use qoi::ColorChannel;
use qoi::ColorSpace;
use qoi::Header;
use qoi::Pixel;

fn px(r: u8, g: u8, b: u8, a: u8) -> Pixel {
    Pixel { r, g, b, a }
}

fn small_image() -> (Header, Vec<Pixel>) {
    let h = Header::new(2, 1, ColorChannel::RGB, ColorSpace::SRGB);
    (h, vec![px(0, 0, 0, 255), px(10, 20, 30, 255)])
}

#[test]
fn pixel_from_hex_parses_all_lengths() {
    assert_eq!(Pixel::from_hex("fff"), px(255, 255, 255, 255));
    assert_eq!(Pixel::from_hex("08c4"), px(0, 136, 204, 68));
    assert_eq!(Pixel::from_hex("10a0ff"), px(16, 160, 255, 255));
    assert_eq!(Pixel::from_hex("80FF0004"), px(128, 255, 0, 4));
}

#[test]
fn pixel_from_bytes_reads_groups() {
    assert_eq!(Pixel::from_bytes(&[7, 8]), px(0, 0, 0, 255));
    assert_eq!(Pixel::from_bytes(&[7, 8, 9]), px(7, 8, 9, 255));
    assert_eq!(Pixel::from_bytes(&[7, 8, 9, 10]), px(7, 8, 9, 10));
    assert_eq!(Pixel::from_bytes(&[7, 8, 9, 10, 11]), px(7, 8, 9, 10));
}

#[test]
fn pixel_hash_of_default_predecessor() {
    assert_eq!(Pixel::def().pixel_hash(), (11 * 255) % 64);
    assert_eq!(Pixel::zero().pixel_hash(), 0);
    assert_eq!(px(1, 1, 1, 1).pixel_hash(), 26);
}

#[test]
fn default_pixel_is_opaque_black() {
    assert_eq!(Pixel::default(), px(0, 0, 0, 255));
    assert_eq!(Pixel::def(), px(0, 0, 0, 255));
    assert_eq!(Pixel::zero(), px(0, 0, 0, 0));
}

#[test]
fn header_sizes() {
    let h = Header::new(6, 4, ColorChannel::RGB, ColorSpace::LINEAR);
    assert_eq!(h.pixel_amount(), 24);
    assert_eq!(h.bytes_per_pixel(), 3);
    assert_eq!(h.max_bytes_per_pixel(), 4);
    assert_eq!(h.pixel_len(), 72);
    assert_eq!(h.max_size(), 24 * 4 + 14 + 8);
    let h2 = Header::new(2, 2, ColorChannel::RGBA, ColorSpace::SRGB);
    assert_eq!(h2.bytes_per_pixel(), 4);
    assert_eq!(h2.max_size(), 4 * 5 + 14 + 8);
}

#[test]
fn decode_rejects_bad_magic() {
    let (h, pixels) = small_image();
    let mut bytes = encode_allocated(&h, &pixels).unwrap();
    bytes[0] = 0x70;
    match decode_allocated(&bytes) {
        Err(DecodeError::InvalidMagic(m)) => assert_eq!(m, [0x70, 0x6f, 0x69, 0x66]),
        other => panic!("expected InvalidMagic, got {:?}", other),
    }
}

#[test]
fn decode_rejects_bad_channels() {
    let (h, pixels) = small_image();
    let mut bytes = encode_allocated(&h, &pixels).unwrap();
    bytes[12] = 5;
    assert_eq!(decode_allocated(&bytes).unwrap_err(), DecodeError::InvalidChannels(5));
}

#[test]
fn decode_rejects_bad_colorspace() {
    let (h, pixels) = small_image();
    let mut bytes = encode_allocated(&h, &pixels).unwrap();
    bytes[13] = 7;
    assert_eq!(decode_allocated(&bytes).unwrap_err(), DecodeError::InvalidColorspace(7));
}

#[test]
fn decode_rejects_short_header() {
    assert_eq!(decode_allocated(&[0x71, 0x6f, 0x69, 0x66, 0, 0]).unwrap_err(),
        DecodeError::MissingHeader);
}

#[test]
fn decode_rejects_truncated_stream() {
    let (h, pixels) = small_image();
    let bytes = encode_allocated(&h, &pixels).unwrap();
    // Drop the end marker and everything after the first opcode.
    assert_eq!(decode_allocated(&bytes[..bytes.len() - 9]).unwrap_err(),
        DecodeError::InvalidEncoding);
}

#[test]
fn decode_reports_missing_pixels() {
    // A header that declares two pixels over a stream holding only one.
    let h = Header::new(2, 1, ColorChannel::RGB, ColorSpace::SRGB);
    let bytes = encode_allocated(&h, &[px(0, 0, 0, 255), px(0, 0, 0, 255)]).unwrap();
    // Body is `6A C0`: keep the first opcode, drop the run, keep the marker.
    let mut cut = bytes[..14].to_vec();
    cut.push(0x6a);
    cut.extend_from_slice(&[0, 0, 0, 0, 0, 0, 0, 1]);
    assert_eq!(
        decode_allocated(&cut).unwrap_err(),
        DecodeError::MissingPixels { expected_size: 2, received_size: 1 }
    );
}

#[test]
fn decode_reports_small_pixel_buffer() {
    let (h, pixels) = small_image();
    let bytes = encode_allocated(&h, &pixels).unwrap();
    let mut out: Vec<Pixel> = vec![Pixel::zero(); 1];
    assert_eq!(
        decode(&bytes, &mut out).unwrap_err(),
        DecodeError::PixelBufferTooSmall { expected_size: 2, received_size: 1 }
    );
}

#[test]
fn decode_into_larger_buffer_leaves_tail() {
    let (h, pixels) = small_image();
    let bytes = encode_allocated(&h, &pixels).unwrap();
    let sentinel = px(9, 9, 9, 9);
    let mut out: Vec<Pixel> = vec![sentinel; 4];
    let h2 = decode(&bytes, &mut out).unwrap();
    assert_eq!(h2, h);
    assert_eq!(out, vec![pixels[0], pixels[1], sentinel, sentinel]);
}

#[test]
fn encode_reports_missing_pixels() {
    let h = Header::new(2, 1, ColorChannel::RGB, ColorSpace::SRGB);
    let mut out = vec![0u8; 64];
    assert_eq!(
        encode(&h, &[px(0, 0, 0, 255)], &mut out).unwrap_err(),
        EncodeError::MissingPixels { expected_size: 2, received_size: 1 }
    );
}

#[test]
fn encode_reports_small_buffer() {
    let (h, pixels) = small_image();
    let mut out = vec![0u8; 10];
    assert_eq!(
        encode(&h, &pixels, &mut out).unwrap_err(),
        EncodeError::BufferTooSmall { expected_size: h.max_size(), received_size: 10 }
    );
    // Room for the header but not for the whole stream fails the same way.
    let mut out = vec![0u8; 15];
    assert_eq!(
        encode(&h, &pixels, &mut out).unwrap_err(),
        EncodeError::BufferTooSmall { expected_size: h.max_size(), received_size: 15 }
    );
}

#[test]
fn encode_into_larger_buffer_reports_count() {
    let (h, pixels) = small_image();
    let mut out = vec![0xeeu8; 64];
    let written = encode(&h, &pixels, &mut out).unwrap();
    let fresh = encode_allocated(&h, &pixels).unwrap();
    assert_eq!(written, fresh.len());
    assert_eq!(&out[..written], &fresh[..]);
    assert!(out[written..].iter().all(|&b| b == 0xee));
}

#[test]
fn extra_pixels_beyond_declared_count_are_ignored() {
    let h = Header::new(1, 1, ColorChannel::RGB, ColorSpace::SRGB);
    let bytes = encode_allocated(&h, &[px(0, 0, 0, 255), px(1, 2, 3, 4)]).unwrap();
    let (_, decoded) = decode_allocated(&bytes).unwrap();
    assert_eq!(decoded, vec![px(0, 0, 0, 255)]);
}

#[test]
fn channel_and_colorspace_bytes() {
    assert_eq!(ColorChannel::from_u8(3), Ok(ColorChannel::RGB));
    assert_eq!(ColorChannel::from_u8(4), Ok(ColorChannel::RGBA));
    assert_eq!(ColorChannel::from_u8(9), Err(9));
    assert_eq!(ColorChannel::RGB.as_u8(), 3);
    assert_eq!(ColorSpace::from_u8(0), Ok(ColorSpace::SRGB));
    assert_eq!(ColorSpace::from_u8(1), Ok(ColorSpace::LINEAR));
    assert_eq!(ColorSpace::from_u8(2), Err(2));
    assert_eq!(ColorSpace::LINEAR.as_u8(), 1);
}

#[test]
fn trailing_bytes_after_end_marker_are_ignored() {
    let (h, pixels) = small_image();
    let mut bytes = encode_allocated(&h, &pixels).unwrap();
    bytes.extend_from_slice(&[0xde, 0xad]);
    let (h2, decoded) = decode_allocated(&bytes).unwrap();
    assert_eq!(h2, h);
    assert_eq!(decoded, pixels);
}
