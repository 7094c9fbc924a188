//! The mathematical model of the wire format: what the encoder emits for a
//! pixel sequence, and what a byte stream decodes to. The executable encoder
//! and decoder are verified against these functions, and the laws of the
//! codec are stated over them.
use crate::util::spec_pixel_hash;
use crate::util::Header;
use crate::util::Pixel;
use vstd::prelude::*;

verus! {

/// The four magic bytes `"qoif"` that open every stream.
pub open spec fn spec_magic() -> Seq<u8> {
    seq![0x71u8, 0x6fu8, 0x69u8, 0x66u8]
}

/// The eight-byte end-of-stream marker.
pub open spec fn spec_end_marker() -> Seq<u8> {
    seq![0u8, 0u8, 0u8, 0u8, 0u8, 0u8, 0u8, 1u8]
}

/// Big-endian bytes of a 32-bit value, most significant first.
pub open spec fn spec_u32_be(x: u32) -> Seq<u8> {
    seq![
        (x / 0x1000000) as u8,
        ((x / 0x10000) % 256) as u8,
        ((x / 256) % 256) as u8,
        (x % 256) as u8,
    ]
}

/// The 32-bit value whose big-endian bytes are the given four.
pub open spec fn spec_u32_from_be(b0: u8, b1: u8, b2: u8, b3: u8) -> u32 {
    (b0 * 0x1000000 + b1 * 0x10000 + b2 * 256 + b3) as u32
}

/// The 14 header bytes: magic, width, height, channels, colorspace.
pub open spec fn spec_header_bytes(h: Header) -> Seq<u8> {
    spec_magic() + spec_u32_be(h.width) + spec_u32_be(h.height) + seq![
        h.channels.spec_as_u8(),
        h.colorspace.spec_as_u8(),
    ]
}

/// The index table before the first pixel: 64 slots of transparent black.
pub open spec fn spec_init_table() -> Seq<Pixel> {
    Seq::new(64, |i: int| Pixel::spec_zero())
}

/// The largest `x` representable as a `usize`, or `x` itself if it fits.
pub open spec fn usize_sat(x: int) -> usize {
    if x > usize::MAX {
        usize::MAX
    } else {
        x as usize
    }
}

/// Biased two-bit delta of one channel: `to - from + 2` in wrapping 8-bit
/// arithmetic. `OP_DIFF` applies when all three such deltas are at most 3.
pub open spec fn spec_diff_delta(from: u8, to: u8) -> u8 {
    to.wrapping_sub(from).wrapping_add(2)
}

/// Biased six-bit green delta of `OP_LUMA`: `to.g - from.g + 32`, wrapping.
pub open spec fn spec_luma_dg(from: Pixel, to: Pixel) -> u8 {
    to.g.wrapping_sub(from.g).wrapping_add(32)
}

/// Biased four-bit red-minus-green delta of the `OP_LUMA` payload.
pub open spec fn spec_luma_dr_dg(from: Pixel, to: Pixel) -> u8 {
    to.r.wrapping_sub(from.r).wrapping_sub(to.g.wrapping_sub(from.g)).wrapping_add(8)
}

/// Biased four-bit blue-minus-green delta of the `OP_LUMA` payload.
pub open spec fn spec_luma_db_dg(from: Pixel, to: Pixel) -> u8 {
    to.b.wrapping_sub(from.b).wrapping_sub(to.g.wrapping_sub(from.g)).wrapping_add(8)
}

/// Whether `OP_DIFF` can express the step from `prev` to `p`.
pub open spec fn spec_diff_fits(prev: Pixel, p: Pixel) -> bool {
    &&& p.a == prev.a
    &&& spec_diff_delta(prev.r, p.r) <= 3
    &&& spec_diff_delta(prev.g, p.g) <= 3
    &&& spec_diff_delta(prev.b, p.b) <= 3
}

/// Whether `OP_LUMA` can express the step from `prev` to `p`.
pub open spec fn spec_luma_fits(prev: Pixel, p: Pixel) -> bool {
    &&& p.a == prev.a
    &&& spec_luma_dg(prev, p) <= 63
    &&& spec_luma_dr_dg(prev, p) <= 15
    &&& spec_luma_db_dg(prev, p) <= 15
}

/// The opcode the encoder emits for one pixel that does not extend a run:
/// the first of INDEX, DIFF, LUMA, RGB, RGBA whose constraints `p` meets.
pub open spec fn spec_opcode_for(p: Pixel, table: Seq<Pixel>, prev: Pixel) -> Seq<u8> {
    if table[spec_pixel_hash(p)] == p {
        seq![spec_pixel_hash(p) as u8]
    } else if spec_diff_fits(prev, p) {
        seq![
            (64 + spec_diff_delta(prev.r, p.r) * 16 + spec_diff_delta(prev.g, p.g) * 4
                + spec_diff_delta(prev.b, p.b)) as u8,
        ]
    } else if spec_luma_fits(prev, p) {
        seq![
            (128 + spec_luma_dg(prev, p)) as u8,
            (spec_luma_dr_dg(prev, p) * 16 + spec_luma_db_dg(prev, p)) as u8,
        ]
    } else if p.a == prev.a {
        seq![254u8, p.r, p.g, p.b]
    } else {
        seq![255u8, p.r, p.g, p.b, p.a]
    }
}

/// Number of leading pixels of `px` equal to `prev` (uncapped).
pub open spec fn spec_lead_run(px: Seq<Pixel>, prev: Pixel) -> nat
    decreases px.len(),
{
    if px.len() == 0 || px[0] != prev {
        0
    } else {
        1 + spec_lead_run(px.skip(1), prev)
    }
}

/// Length of the run chunk the encoder collapses next: the leading count of
/// pixels equal to `prev`, capped at the largest expressible run of 62.
pub open spec fn spec_run_chunk(px: Seq<Pixel>, prev: Pixel) -> nat {
    if spec_lead_run(px, prev) > 62 {
        62
    } else {
        spec_lead_run(px, prev)
    }
}

/// The opcode stream the encoder emits for `px` from the given rolling state.
/// `first` is true only before the very first pixel of the image, where a run
/// against the implicit default predecessor is not allowed to start.
#[verifier::opaque]
pub open spec fn spec_encode_ops(px: Seq<Pixel>, table: Seq<Pixel>, prev: Pixel, first: bool) -> Seq<
    u8,
>
    decreases px.len(),
    via spec_encode_ops_decreases
{
    if px.len() == 0 {
        Seq::empty()
    } else if !first && px[0] == prev {
        let k = spec_run_chunk(px, prev);
        seq![(192 + k - 1) as u8] + spec_encode_ops(
            px.skip(k as int),
            table.update(spec_pixel_hash(prev), prev),
            prev,
            false,
        )
    } else {
        spec_opcode_for(px[0], table, prev) + spec_encode_ops(
            px.skip(1),
            table.update(spec_pixel_hash(px[0]), px[0]),
            px[0],
            false,
        )
    }
}

/// The bytes the encoder emits while it handles one pixel: a pixel that
/// extends a run emits nothing, or one run byte when the run must close;
/// any other pixel first closes a pending run, then emits its own opcode.
pub open spec fn spec_step_bytes(
    p: Pixel,
    table: Seq<Pixel>,
    prev: Pixel,
    run: nat,
    first: bool,
    last: bool,
) -> Seq<u8> {
    if !first && p == prev {
        if run + 1 == 62 || last {
            seq![(192 + run) as u8]
        } else {
            Seq::empty()
        }
    } else {
        (if run > 0 {
            seq![(192 + run - 1) as u8]
        } else {
            Seq::empty()
        }) + spec_opcode_for(p, table, prev)
    }
}

/// The run counter after the encoder handles one pixel.
pub open spec fn spec_step_run(p: Pixel, prev: Pixel, run: nat, first: bool, last: bool) -> nat {
    if !first && p == prev {
        if run + 1 == 62 || last {
            0
        } else {
            run + 1
        }
    } else {
        0
    }
}

/// A sequence whose first `c` elements equal `prev`, and whose element `c`
/// (if any) does not, has a leading run of exactly `c`.
pub proof fn lemma_lead_run_exact(s: Seq<Pixel>, prev: Pixel, c: nat)
    requires
        c <= s.len(),
        forall|t: int| 0 <= t < c ==> s[t] == prev,
        c == s.len() || s[c as int] != prev,
    ensures
        spec_lead_run(s, prev) == c,
    decreases c,
{
    if c == 0 {
    } else {
        assert(s[0] == prev);
        lemma_lead_run_exact(s.skip(1), prev, (c - 1) as nat);
    }
}

/// A sequence whose first `c` elements equal `prev` has a leading run of at
/// least `c`.
pub proof fn lemma_lead_run_min(s: Seq<Pixel>, prev: Pixel, c: nat)
    requires
        c <= s.len(),
        forall|t: int| 0 <= t < c ==> s[t] == prev,
    ensures
        spec_lead_run(s, prev) >= c,
    decreases c,
{
    if c == 0 {
    } else {
        assert(s[0] == prev);
        lemma_lead_run_min(s.skip(1), prev, (c - 1) as nat);
    }
}

/// A leading run is never longer than the sequence it opens.
pub proof fn lemma_lead_run_le(px: Seq<Pixel>, prev: Pixel)
    ensures
        spec_lead_run(px, prev) <= px.len(),
    decreases px.len(),
{
    if px.len() != 0 && px[0] == prev {
        lemma_lead_run_le(px.skip(1), prev);
    }
}

#[via_fn]
proof fn spec_encode_ops_decreases(px: Seq<Pixel>, table: Seq<Pixel>, prev: Pixel, first: bool) {
    if px.len() != 0 && !first && px[0] == prev {
        lemma_lead_run_le(px, prev);
        assert(spec_lead_run(px, prev) >= 1);
    }
}

/// The full encoding of an image: header, opcode stream, end marker.
pub open spec fn spec_encoded_bytes(h: Header, px: Seq<Pixel>) -> Seq<u8> {
    spec_header_bytes(h) + spec_encode_ops(px, spec_init_table(), Pixel::spec_def(), true)
        + spec_end_marker()
}

/// Why the opcode stream of a decode fails: it is malformed (truncated or
/// without a proper end marker), or it holds more pixels than the output
/// window can take.
#[derive(PartialEq, Eq, Structural)]
pub enum StreamFault {
    Malformed,
    Overflow,
}

/// The pixel reconstructed by an `OP_DIFF` byte `b` (tag `01`).
pub open spec fn spec_diff_pixel(prev: Pixel, b: u8) -> Pixel {
    Pixel {
        r: prev.r.wrapping_add(((b / 16) % 4) as u8).wrapping_sub(2),
        g: prev.g.wrapping_add(((b / 4) % 4) as u8).wrapping_sub(2),
        b: prev.b.wrapping_add((b % 4) as u8).wrapping_sub(2),
        a: prev.a,
    }
}

/// The pixel reconstructed by an `OP_LUMA` byte `b` (tag `10`) and its
/// payload byte `c`, with all channel arithmetic wrapping at 8 bits.
pub open spec fn spec_luma_pixel(prev: Pixel, b: u8, c: u8) -> Pixel {
    let dg = (b % 64) as u8;
    Pixel {
        r: prev.r.wrapping_add(dg).wrapping_sub(32).wrapping_add((c / 16) as u8).wrapping_sub(8),
        g: prev.g.wrapping_add(dg).wrapping_sub(32),
        b: prev.b.wrapping_add(dg).wrapping_sub(32).wrapping_add((c % 16) as u8).wrapping_sub(8),
        a: prev.a,
    }
}

/// The pixels the opcode stream `bytes` decodes to, from the given rolling
/// state, with at most `cap` slots left in the output window. The stream ends
/// at the first end marker; running out of bytes before one is malformed.
#[verifier::opaque]
pub open spec fn spec_decode_ops(
    bytes: Seq<u8>,
    table: Seq<Pixel>,
    prev: Pixel,
    cap: nat,
) -> Result<Seq<Pixel>, StreamFault>
    decreases bytes.len(), 0nat,
{
    if bytes.len() < 8 {
        Err(StreamFault::Malformed)
    } else if bytes.take(8) == spec_end_marker() {
        Ok(Seq::empty())
    } else {
        let b = bytes[0];
        if b == 254 {  // OP_RGB: at least 8 bytes remain, so the payload does too
            let p = Pixel { r: bytes[1], g: bytes[2], b: bytes[3], a: prev.a };
            spec_decode_emit_one(bytes.skip(4), table, p, cap)
        } else if b == 255 {  // OP_RGBA
            let p = Pixel { r: bytes[1], g: bytes[2], b: bytes[3], a: bytes[4] };
            spec_decode_emit_one(bytes.skip(5), table, p, cap)
        } else if b / 64 == 0 {  // OP_INDEX
            spec_decode_emit_one(bytes.skip(1), table, table[b as int], cap)
        } else if b / 64 == 1 {  // OP_DIFF
            spec_decode_emit_one(bytes.skip(1), table, spec_diff_pixel(prev, b), cap)
        } else if b / 64 == 2 {  // OP_LUMA
            spec_decode_emit_one(bytes.skip(2), table, spec_luma_pixel(prev, b, bytes[1]), cap)
        } else {  // OP_RUN
            let k = (b % 64) + 1;
            if cap < k {
                Err(StreamFault::Overflow)
            } else {
                match spec_decode_ops(
                    bytes.skip(1),
                    table.update(spec_pixel_hash(prev), prev),
                    prev,
                    (cap - k) as nat,
                ) {
                    Ok(rest) => Ok(Seq::new(k as nat, |i: int| prev) + rest),
                    Err(e) => Err(e),
                }
            }
        }
    }
}

/// One decoded pixel `p` followed by the rest of the stream, unless the
/// output window is already full.
#[verifier::opaque]
pub open spec fn spec_decode_emit_one(
    bytes: Seq<u8>,
    table: Seq<Pixel>,
    p: Pixel,
    cap: nat,
) -> Result<Seq<Pixel>, StreamFault>
    decreases bytes.len(), 1nat,
{
    if cap == 0 {
        Err(StreamFault::Overflow)
    } else {
        match spec_decode_ops(bytes, table.update(spec_pixel_hash(p), p), p, (cap - 1) as nat) {
            Ok(rest) => Ok(seq![p] + rest),
            Err(e) => Err(e),
        }
    }
}

/// Pixels already written, followed by whatever the rest of the stream
/// yields: the shape of a partially performed decode.
pub open spec fn spec_compose(
    written: Seq<Pixel>,
    rest: Result<Seq<Pixel>, StreamFault>,
) -> Result<Seq<Pixel>, StreamFault> {
    match rest {
        Ok(s) => Ok(written + s),
        Err(e) => Err(e),
    }
}

/// A decode failure, with the concrete numbers the matching `DecodeError`
/// carries (as unbounded integers).
pub enum DecodeIssue {
    InvalidMagic(Seq<u8>),
    InvalidChannels(u8),
    InvalidColorspace(u8),
    MissingHeader,
    InvalidEncoding,
    MissingPixels { expected: int, received: int },
    PixelBufferTooSmall { expected: int, received: int },
}

/// The header the first 14 bytes parse to, or why they do not.
pub open spec fn spec_parse_header(bytes: Seq<u8>) -> Result<Header, DecodeIssue> {
    if bytes.len() < 14 {
        Err(DecodeIssue::MissingHeader)
    } else if bytes.take(4) != spec_magic() {
        Err(DecodeIssue::InvalidMagic(bytes.take(4)))
    } else if bytes[12] != 3 && bytes[12] != 4 {
        Err(DecodeIssue::InvalidChannels(bytes[12]))
    } else if bytes[13] != 0 && bytes[13] != 1 {
        Err(DecodeIssue::InvalidColorspace(bytes[13]))
    } else {
        Ok(
            Header {
                width: spec_u32_from_be(bytes[4], bytes[5], bytes[6], bytes[7]),
                height: spec_u32_from_be(bytes[8], bytes[9], bytes[10], bytes[11]),
                channels: if bytes[12] == 3 {
                    crate::util::ColorChannel::RGB
                } else {
                    crate::util::ColorChannel::RGBA
                },
                colorspace: if bytes[13] == 0 {
                    crate::util::ColorSpace::SRGB
                } else {
                    crate::util::ColorSpace::LINEAR
                },
            },
        )
    }
}

/// What decoding `bytes` into an output window of `out_len` pixels yields:
/// the parsed header and the decoded pixels, or the exact failure.
pub open spec fn spec_decode_result(bytes: Seq<u8>, out_len: nat) -> Result<
    (Header, Seq<Pixel>),
    DecodeIssue,
> {
    match spec_parse_header(bytes) {
        Err(e) => Err(e),
        Ok(h) => {
            let n = h.spec_pixel_amount();
            if out_len < n {
                Err(DecodeIssue::PixelBufferTooSmall { expected: n, received: out_len as int })
            } else {
                match spec_decode_ops(
                    bytes.skip(14),
                    spec_init_table(),
                    Pixel::spec_def(),
                    n as nat,
                ) {
                    Err(StreamFault::Malformed) => Err(DecodeIssue::InvalidEncoding),
                    Err(StreamFault::Overflow) => Err(
                        DecodeIssue::PixelBufferTooSmall { expected: n, received: n },
                    ),
                    Ok(px) => if px.len() == n {
                        Ok((h, px))
                    } else {
                        Err(DecodeIssue::MissingPixels { expected: n, received: px.len() as int })
                    },
                }
            }
        },
    }
}

/// The output length the allocating decoder picks: the declared pixel count,
/// clamped to what the machine can allocate.
pub open spec fn spec_alloc_pixel_len(bytes: Seq<u8>) -> nat {
    match spec_parse_header(bytes) {
        Ok(h) => usize_sat(h.spec_pixel_amount()) as nat,
        Err(_) => 0,
    }
}

/// An encode failure, with the concrete numbers the matching `EncodeError`
/// carries (as unbounded integers).
pub enum EncodeIssue {
    MissingPixels { expected: int, received: int },
    BufferTooSmall { expected: int, received: int },
}

/// What encoding the first `width * height` pixels of `px` into a byte
/// buffer of `buf_len` bytes yields: the encoded bytes, or the exact failure.
pub open spec fn spec_encode_result(h: Header, px: Seq<Pixel>, buf_len: nat) -> Result<
    Seq<u8>,
    EncodeIssue,
> {
    let n = h.spec_pixel_amount();
    if px.len() < n {
        Err(EncodeIssue::MissingPixels { expected: n, received: px.len() as int })
    } else {
        let bytes = spec_encoded_bytes(h, px.take(n));
        if buf_len < bytes.len() {
            Err(EncodeIssue::BufferTooSmall { expected: h.spec_max_size(), received: buf_len as int })
        } else {
            Ok(bytes)
        }
    }
}

} // verus!
