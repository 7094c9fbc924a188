//! The decoder: header parsing, byte-directed opcode dispatch, and the
//! reconstruction of the pixel stream, verified against the model in
//! `crate::model`.
use crate::buf_iter::BufIter;
use crate::buf_iter::MutBufIter;
use crate::model::spec_decode_ops;
use crate::model::spec_decode_result;
use crate::model::spec_end_marker;
use crate::model::spec_init_table;
use crate::model::spec_magic;
use crate::model::spec_parse_header;
use crate::model::spec_u32_from_be;
use crate::model::usize_sat;
use crate::model::DecodeIssue;
use crate::model::StreamFault;
use crate::util::sat_u64_to_usize;
use crate::util::ColorChannel;
use crate::util::ColorSpace;
use crate::util::Header;
use crate::util::Pixel;
use vstd::prelude::*;

verus! {

broadcast use vstd::slice::axiom_spec_len;

/// A failed decode, with the concrete numbers that make the diagnosis
/// precise.
#[derive(Debug, Clone, Copy, PartialEq, Eq)]
pub enum DecodeError {
    /// The data does not start with the magic bytes `b"qoif"`; the four
    /// bytes received instead are returned.
    InvalidMagic([u8; 4]),
    /// The header's channels byte is neither 3 (RGB) nor 4 (RGBA).
    InvalidChannels(u8),
    /// The header's colorspace byte is neither 0 (sRGB) nor 1 (linear).
    InvalidColorspace(u8),
    /// The input holds fewer bytes than a header.
    MissingHeader,
    /// The opcode stream does not conform to the format: it runs out of
    /// bytes before a well-formed end marker.
    InvalidEncoding,
    /// The end marker arrived before all `width * height` declared pixels
    /// were decoded.
    MissingPixels { expected_size: usize, received_size: usize },
    /// The output buffer cannot fit all declared pixels.
    PixelBufferTooSmall { expected_size: usize, received_size: usize },
}

/// Whether the executable error `e` carries exactly the diagnosis `i`, with
/// counts clamped to `usize`.
pub open spec fn decode_issue_matches(e: DecodeError, i: DecodeIssue) -> bool {
    match i {
        DecodeIssue::InvalidMagic(m) => e matches DecodeError::InvalidMagic(b) && b@ == m,
        DecodeIssue::InvalidChannels(v) => e matches DecodeError::InvalidChannels(c) && c == v,
        DecodeIssue::InvalidColorspace(v) => e matches DecodeError::InvalidColorspace(c) && c == v,
        DecodeIssue::MissingHeader => e is MissingHeader,
        DecodeIssue::InvalidEncoding => e is InvalidEncoding,
        DecodeIssue::MissingPixels { expected, received } => e matches DecodeError::MissingPixels {
            expected_size,
            received_size,
        } && expected_size == usize_sat(expected) && received_size == usize_sat(received),
        DecodeIssue::PixelBufferTooSmall { expected, received } => e matches DecodeError::PixelBufferTooSmall {
            expected_size,
            received_size,
        } && expected_size == usize_sat(expected) && received_size == usize_sat(received),
    }
}

/// The pixel count of any header fits in 64 bits.
pub proof fn lemma_u32_mul_fits_u64(w: u32, h: u32)
    by (nonlinear_arith)
    ensures
        0 <= (w as int) * (h as int) <= u64::MAX,
{
}

impl DecodeError {
    /// The error raised when the end marker came before all declared pixels:
    /// the header's pixel count against the count actually decoded.
    pub fn missing_pixels(header: &Header, received: usize) -> (e: DecodeError)
        ensures
            e == (DecodeError::MissingPixels {
                expected_size: usize_sat(header.spec_pixel_amount()),
                received_size: received,
            }),
    {
        proof {
            lemma_u32_mul_fits_u64(header.width, header.height);
        }
        let expected = sat_u64_to_usize((header.width as u64) * (header.height as u64));
        DecodeError::MissingPixels { expected_size: expected, received_size: received }
    }

    /// The error raised when the output buffer cannot take all declared
    /// pixels: the header's pixel count against the buffer's capacity.
    pub fn pixel_buffer_too_small(header: &Header, received: usize) -> (e: DecodeError)
        ensures
            e == (DecodeError::PixelBufferTooSmall {
                expected_size: usize_sat(header.spec_pixel_amount()),
                received_size: received,
            }),
    {
        proof {
            lemma_u32_mul_fits_u64(header.width, header.height);
        }
        let expected = sat_u64_to_usize((header.width as u64) * (header.height as u64));
        DecodeError::PixelBufferTooSmall { expected_size: expected, received_size: received }
    }
}

/// Parse the 14 header bytes at the front of `buffer`.
fn decode_header(buffer: &[u8]) -> (r: Result<Header, DecodeError>)
    ensures
        match r {
            Ok(h) => spec_parse_header(buffer@) == Ok::<Header, DecodeIssue>(h),
            Err(e) => spec_parse_header(buffer@) matches Err(i) && decode_issue_matches(e, i),
        },
{
    if buffer.len() < 14 {
        return Err(DecodeError::MissingHeader);
    }
    let m0 = *vstd::slice::slice_index_get(buffer, 0);
    let m1 = *vstd::slice::slice_index_get(buffer, 1);
    let m2 = *vstd::slice::slice_index_get(buffer, 2);
    let m3 = *vstd::slice::slice_index_get(buffer, 3);
    if !(m0 == 0x71 && m1 == 0x6f && m2 == 0x69 && m3 == 0x66) {
        proof {
            assert(buffer@.take(4) != spec_magic()) by {
                assert(buffer@.take(4)[0] == m0 && buffer@.take(4)[1] == m1 && buffer@.take(4)[2]
                    == m2 && buffer@.take(4)[3] == m3);
            }
        }
        let received = [m0, m1, m2, m3];
        proof {
            assert(received@ =~= buffer@.take(4));
        }
        return Err(DecodeError::InvalidMagic(received));
    }
    proof {
        assert(buffer@.take(4) =~= spec_magic());
    }
    let width = read_u32_be(buffer, 4);
    let height = read_u32_be(buffer, 8);
    let channels = match ColorChannel::from_u8(*vstd::slice::slice_index_get(buffer, 12)) {
        Ok(c) => c,
        Err(v) => {
            return Err(DecodeError::InvalidChannels(v));
        },
    };
    let colorspace = match ColorSpace::from_u8(*vstd::slice::slice_index_get(buffer, 13)) {
        Ok(c) => c,
        Err(v) => {
            return Err(DecodeError::InvalidColorspace(v));
        },
    };
    Ok(Header { width, height, channels, colorspace })
}

/// Read a big-endian 32-bit value at offset `at`.
fn read_u32_be(buffer: &[u8], at: usize) -> (x: u32)
    requires
        at + 4 <= buffer@.len(),
    ensures
        x == spec_u32_from_be(buffer@[at as int], buffer@[at + 1], buffer@[at + 2], buffer@[at + 3]),
{
    proof {
        vstd::slice::axiom_spec_len(buffer);
    }
    let b0 = *vstd::slice::slice_index_get(buffer, at);
    let b1 = *vstd::slice::slice_index_get(buffer, at + 1);
    let b2 = *vstd::slice::slice_index_get(buffer, at + 2);
    let b3 = *vstd::slice::slice_index_get(buffer, at + 3);
    (b0 as u32) * 0x1000000 + (b1 as u32) * 0x10000 + (b2 as u32) * 256 + (b3 as u32)
}

/// Write one decoded pixel into the window and record it in the index table.
/// Reports `false`, leaving everything unchanged, if the window is full.
fn push_pixel(pixels: &mut MutBufIter<Pixel>, table: &mut Vec<Pixel>, px: Pixel) -> (ok: bool)
    requires
        old(pixels).wf(),
        old(table)@.len() == 64,
    ensures
        final(pixels).wf(),
        final(pixels).window_end() == old(pixels).window_end(),
        final(pixels).seq().len() == old(pixels).seq().len(),
        final(table)@.len() == 64,
        ok == (old(pixels).pos() < old(pixels).window_end()),
        ok ==> {
            &&& final(pixels).seq() == old(pixels).seq().update(old(pixels).pos(), px)
            &&& final(pixels).pos() == old(pixels).pos() + 1
            &&& final(table)@ == old(table)@.update(crate::util::spec_pixel_hash(px), px)
        },
        !ok ==> *final(pixels) == *old(pixels) && final(table)@ == old(table)@,
{
    if pixels.set_next_one(px) {
        let h = px.pixel_hash();
        table[h] = px;
        true
    } else {
        false
    }
}

/// After one pixel is decoded and stored, the partially performed decode is
/// the same decode, one pixel further along.
proof fn lemma_emit_step(
    rem: Seq<u8>,
    table: Seq<Pixel>,
    prev: Pixel,
    cap: nat,
    px: Pixel,
    consumed: int,
    written: Seq<Pixel>,
    total: Result<Seq<Pixel>, StreamFault>,
)
    requires
        cap > 0,
        crate::model::spec_compose(written, spec_decode_ops(rem, table, prev, cap)) == total,
        spec_decode_ops(rem, table, prev, cap) == crate::model::spec_decode_emit_one(
            rem.skip(consumed),
            table,
            px,
            cap,
        ),
    ensures
        crate::model::spec_compose(
            written + seq![px],
            spec_decode_ops(
                rem.skip(consumed),
                table.update(crate::util::spec_pixel_hash(px), px),
                px,
                (cap - 1) as nat,
            ),
        ) == total,
{
    reveal(crate::model::spec_decode_ops);
    reveal(crate::model::spec_decode_emit_one);
    let inner = spec_decode_ops(
        rem.skip(consumed),
        table.update(crate::util::spec_pixel_hash(px), px),
        px,
        (cap - 1) as nat,
    );
    match inner {
        Ok(rest) => {
            assert(written + (seq![px] + rest) =~= (written + seq![px]) + rest);
        },
        Err(_) => {},
    }
}

/// Whether eight bytes are the end-of-stream marker.
fn is_stream_end(bytes: &[u8]) -> (r: bool)
    requires
        bytes@.len() == 8,
    ensures
        r == (bytes@ == spec_end_marker()),
{
    let e0 = *vstd::slice::slice_index_get(bytes, 0);
    let e1 = *vstd::slice::slice_index_get(bytes, 1);
    let e2 = *vstd::slice::slice_index_get(bytes, 2);
    let e3 = *vstd::slice::slice_index_get(bytes, 3);
    let e4 = *vstd::slice::slice_index_get(bytes, 4);
    let e5 = *vstd::slice::slice_index_get(bytes, 5);
    let e6 = *vstd::slice::slice_index_get(bytes, 6);
    let e7 = *vstd::slice::slice_index_get(bytes, 7);
    let r = e0 == 0 && e1 == 0 && e2 == 0 && e3 == 0 && e4 == 0 && e5 == 0 && e6 == 0 && e7 == 1;
    proof {
        if r {
            assert(bytes@ =~= spec_end_marker());
        } else {
            assert(bytes@ != spec_end_marker()) by {
                assert(spec_end_marker()[0] == 0 && spec_end_marker()[1] == 0 && spec_end_marker()[2]
                    == 0 && spec_end_marker()[3] == 0 && spec_end_marker()[4] == 0
                    && spec_end_marker()[5] == 0 && spec_end_marker()[6] == 0 && spec_end_marker()[7]
                    == 1);
            }
        }
    }
    r
}


/// Store one decoded pixel and its table entry, and carry the partially
/// performed decode one opcode forward. The ghost arguments are the decode
/// state the opcode was read from: `rem_at` the remaining bytes including
/// the tag, `consumed` how many of them the opcode spans.
fn emit_decoded(
    pixels: &mut MutBufIter<Pixel>,
    table: &mut Vec<Pixel>,
    header: &Header,
    px: Pixel,
    Ghost(rem_at): Ghost<Seq<u8>>,
    Ghost(prev_at): Ghost<Pixel>,
    Ghost(consumed): Ghost<int>,
    Ghost(total): Ghost<Result<Seq<Pixel>, StreamFault>>,
) -> (r: Result<(), DecodeError>)
    requires
        old(pixels).wf(),
        old(table)@.len() == 64,
        old(pixels).window_end() == header.spec_pixel_amount(),
        crate::model::spec_compose(
            old(pixels).seq().take(old(pixels).pos()),
            spec_decode_ops(
                rem_at,
                old(table)@,
                prev_at,
                (old(pixels).window_end() - old(pixels).pos()) as nat,
            ),
        ) == total,
        spec_decode_ops(
            rem_at,
            old(table)@,
            prev_at,
            (old(pixels).window_end() - old(pixels).pos()) as nat,
        ) == crate::model::spec_decode_emit_one(
            rem_at.skip(consumed),
            old(table)@,
            px,
            (old(pixels).window_end() - old(pixels).pos()) as nat,
        ),
    ensures
        final(pixels).wf(),
        final(pixels).window_end() == old(pixels).window_end(),
        final(pixels).seq().len() == old(pixels).seq().len(),
        final(table)@.len() == 64,
        forall|i: int|
            final(pixels).pos() <= i < final(pixels).seq().len() ==> final(pixels).seq()[i] == old(
                pixels,
            ).seq()[i],
        match r {
            Ok(()) => {
                &&& final(pixels).pos() == old(pixels).pos() + 1
                &&& final(table)@ == old(table)@.update(crate::util::spec_pixel_hash(px), px)
                &&& crate::model::spec_compose(
                    final(pixels).seq().take(final(pixels).pos()),
                    spec_decode_ops(
                        rem_at.skip(consumed),
                        final(table)@,
                        px,
                        (final(pixels).window_end() - final(pixels).pos()) as nat,
                    ),
                ) == total
            },
            Err(e) => {
                &&& *final(pixels) == *old(pixels)
                &&& final(table)@ == old(table)@
                &&& total == Err::<Seq<Pixel>, StreamFault>(StreamFault::Overflow)
                &&& e == (DecodeError::PixelBufferTooSmall {
                    expected_size: usize_sat(header.spec_pixel_amount()),
                    received_size: usize_sat(old(pixels).window_end()),
                })
            },
        },
{
    let ghost written_at = pixels.seq().take(pixels.pos());
    let ghost cap_at = (pixels.window_end() - pixels.pos()) as nat;
    let ghost table_at = table@;
    if !push_pixel(pixels, table, px) {
        proof {
            reveal(crate::model::spec_decode_ops);
            reveal(crate::model::spec_decode_emit_one);
        }
        return Err(DecodeError::pixel_buffer_too_small(header, pixels.len()));
    }
    proof {
        lemma_emit_step(rem_at, table_at, prev_at, cap_at, px, consumed, written_at, total);
        assert(pixels.seq().take(pixels.pos()) =~= written_at + seq![px]);
    }
    Ok(())
}

/// An RGB opcode at the front of the stream decodes to the payload channels
/// over the previous alpha.
pub(crate) proof fn lemma_unfold_rgb(rem: Seq<u8>, table: Seq<Pixel>, prev: Pixel, cap: nat, px: Pixel)
    requires
        rem.len() >= 8,
        rem.take(8) != spec_end_marker(),
        rem[0] == 254,
        px == (Pixel { r: rem[1], g: rem[2], b: rem[3], a: prev.a }),
    ensures
        spec_decode_ops(rem, table, prev, cap) == crate::model::spec_decode_emit_one(
            rem.skip(4),
            table,
            px,
            cap,
        ),
{
    reveal(crate::model::spec_decode_ops);
    reveal(crate::model::spec_decode_emit_one);
}

/// An RGBA opcode at the front of the stream decodes to the four payload
/// channels.
pub(crate) proof fn lemma_unfold_rgba(rem: Seq<u8>, table: Seq<Pixel>, prev: Pixel, cap: nat, px: Pixel)
    requires
        rem.len() >= 8,
        rem.take(8) != spec_end_marker(),
        rem[0] == 255,
        px == (Pixel { r: rem[1], g: rem[2], b: rem[3], a: rem[4] }),
    ensures
        spec_decode_ops(rem, table, prev, cap) == crate::model::spec_decode_emit_one(
            rem.skip(5),
            table,
            px,
            cap,
        ),
{
    reveal(crate::model::spec_decode_ops);
    reveal(crate::model::spec_decode_emit_one);
}

/// An INDEX opcode at the front of the stream decodes to the table slot the
/// tag byte names.
pub(crate) proof fn lemma_unfold_index(rem: Seq<u8>, table: Seq<Pixel>, prev: Pixel, cap: nat, px: Pixel)
    requires
        rem.len() >= 8,
        rem.take(8) != spec_end_marker(),
        rem[0] / 64 == 0,
        px == table[rem[0] as int],
    ensures
        spec_decode_ops(rem, table, prev, cap) == crate::model::spec_decode_emit_one(
            rem.skip(1),
            table,
            px,
            cap,
        ),
{
    reveal(crate::model::spec_decode_ops);
    reveal(crate::model::spec_decode_emit_one);
}

/// A DIFF opcode at the front of the stream decodes to the previous pixel
/// moved by the three biased deltas of the tag byte.
pub(crate) proof fn lemma_unfold_diff(rem: Seq<u8>, table: Seq<Pixel>, prev: Pixel, cap: nat, px: Pixel)
    requires
        rem.len() >= 8,
        rem.take(8) != spec_end_marker(),
        rem[0] / 64 == 1,
        px == crate::model::spec_diff_pixel(prev, rem[0]),
    ensures
        spec_decode_ops(rem, table, prev, cap) == crate::model::spec_decode_emit_one(
            rem.skip(1),
            table,
            px,
            cap,
        ),
{
    reveal(crate::model::spec_decode_ops);
    reveal(crate::model::spec_decode_emit_one);
}

/// A LUMA opcode at the front of the stream decodes to the previous pixel
/// moved by the biased deltas of its two bytes.
pub(crate) proof fn lemma_unfold_luma(rem: Seq<u8>, table: Seq<Pixel>, prev: Pixel, cap: nat, px: Pixel)
    requires
        rem.len() >= 8,
        rem.take(8) != spec_end_marker(),
        rem[0] / 64 == 2,
        px == crate::model::spec_luma_pixel(prev, rem[0], rem[1]),
    ensures
        spec_decode_ops(rem, table, prev, cap) == crate::model::spec_decode_emit_one(
            rem.skip(2),
            table,
            px,
            cap,
        ),
{
    reveal(crate::model::spec_decode_ops);
    reveal(crate::model::spec_decode_emit_one);
}

/// Fewer than eight remaining bytes cannot hold the end marker: the stream
/// is malformed.
pub(crate) proof fn lemma_unfold_short(rem: Seq<u8>, table: Seq<Pixel>, prev: Pixel, cap: nat)
    requires
        rem.len() < 8,
    ensures
        spec_decode_ops(rem, table, prev, cap) == Err::<Seq<Pixel>, StreamFault>(
            StreamFault::Malformed,
        ),
{
    reveal(crate::model::spec_decode_ops);
    reveal(crate::model::spec_decode_emit_one);
}

/// An end marker at the front of the stream ends the decode with no further
/// pixels.
pub(crate) proof fn lemma_unfold_end(rem: Seq<u8>, table: Seq<Pixel>, prev: Pixel, cap: nat)
    requires
        rem.len() >= 8,
        rem.take(8) == spec_end_marker(),
    ensures
        spec_decode_ops(rem, table, prev, cap) == Ok::<Seq<Pixel>, StreamFault>(Seq::empty()),
{
    reveal(crate::model::spec_decode_ops);
    reveal(crate::model::spec_decode_emit_one);
}

/// After a run opcode is decoded and its repeats stored, the partially
/// performed decode is the same decode, one run further along.
proof fn lemma_run_step(
    rem: Seq<u8>,
    table: Seq<Pixel>,
    prev: Pixel,
    cap: nat,
    k: nat,
    written: Seq<Pixel>,
    total: Result<Seq<Pixel>, StreamFault>,
)
    requires
        rem.len() >= 8,
        rem.take(8) != spec_end_marker(),
        rem[0] / 64 == 3,
        rem[0] != 254,
        rem[0] != 255,
        k == (rem[0] % 64) + 1,
        cap >= k,
        crate::model::spec_compose(written, spec_decode_ops(rem, table, prev, cap)) == total,
    ensures
        crate::model::spec_compose(
            written + Seq::new(k, |i: int| prev),
            spec_decode_ops(
                rem.skip(1),
                table.update(crate::util::spec_pixel_hash(prev), prev),
                prev,
                (cap - k) as nat,
            ),
        ) == total,
{
    reveal(crate::model::spec_decode_ops);
    reveal(crate::model::spec_decode_emit_one);
    let inner = spec_decode_ops(
        rem.skip(1),
        table.update(crate::util::spec_pixel_hash(prev), prev),
        prev,
        (cap - k) as nat,
    );
    match inner {
        Ok(rest) => {
            assert(written + (Seq::new(k, |i: int| prev) + rest) =~= (written + Seq::new(
                k,
                |i: int| prev,
            )) + rest);
        },
        Err(_) => {},
    }
}

/// A run opcode that does not fit the output window makes the whole decode
/// overflow.
proof fn lemma_run_overflow(
    rem: Seq<u8>,
    table: Seq<Pixel>,
    prev: Pixel,
    cap: nat,
    k: nat,
    written: Seq<Pixel>,
    total: Result<Seq<Pixel>, StreamFault>,
)
    requires
        rem.len() >= 8,
        rem.take(8) != spec_end_marker(),
        rem[0] / 64 == 3,
        rem[0] != 254,
        rem[0] != 255,
        k == (rem[0] % 64) + 1,
        cap < k,
        crate::model::spec_compose(written, spec_decode_ops(rem, table, prev, cap)) == total,
    ensures
        total == Err::<Seq<Pixel>, StreamFault>(StreamFault::Overflow),
{
    reveal(crate::model::spec_decode_ops);
    reveal(crate::model::spec_decode_emit_one);
}

/// Write `k` repeats of `prev` into the window, or report that they do not
/// fit.
fn run_repeat(
    pixels: &mut MutBufIter<Pixel>,
    header: &Header,
    k: u8,
    prev: Pixel,
) -> (r: Result<(), DecodeError>)
    requires
        old(pixels).wf(),
        old(pixels).window_end() == header.spec_pixel_amount(),
    ensures
        final(pixels).wf(),
        final(pixels).window_end() == old(pixels).window_end(),
        final(pixels).seq().len() == old(pixels).seq().len(),
        final(pixels).pos() >= old(pixels).pos(),
        forall|i: int|
            final(pixels).pos() <= i < final(pixels).seq().len() ==> final(pixels).seq()[i] == old(
                pixels,
            ).seq()[i],
        match r {
            Ok(()) => {
                &&& old(pixels).pos() + k <= old(pixels).window_end()
                &&& final(pixels).pos() == old(pixels).pos() + k
                &&& final(pixels).seq().take(final(pixels).pos()) == old(pixels).seq().take(
                    old(pixels).pos(),
                ) + Seq::new(k as nat, |i: int| prev)
            },
            Err(e) => {
                &&& old(pixels).pos() + k > old(pixels).window_end()
                &&& e == (DecodeError::PixelBufferTooSmall {
                    expected_size: usize_sat(header.spec_pixel_amount()),
                    received_size: usize_sat(old(pixels).window_end()),
                })
            },
        },
{
    let ghost pseq0 = pixels.seq();
    let ghost ppos0 = pixels.pos();
    let ghost pwend = pixels.window_end();
    let mut j: u8 = 0;
    while j < k
        invariant
            j <= k,
            pseq0 == old(pixels).seq(),
            ppos0 == old(pixels).pos(),
            pwend == old(pixels).window_end(),
            pwend == header.spec_pixel_amount(),
            pixels.wf(),
            pixels.window_end() == pwend,
            pixels.seq().len() == pseq0.len(),
            pixels.pos() == ppos0 + j,
            forall|i: int|
                pixels.pos() <= i < pixels.seq().len() ==> pixels.seq()[i] == pseq0[i],
            pixels.seq().take(pixels.pos()) == pseq0.take(ppos0) + Seq::new(
                j as nat,
                |i: int| prev,
            ),
        decreases k - j,
    {
        let ghost before = pixels.seq().take(pixels.pos());
        if !pixels.set_next_one(prev) {
            return Err(DecodeError::pixel_buffer_too_small(header, pixels.len()));
        }
        j = j + 1;
        proof {
            assert(pixels.seq().take(pixels.pos()) =~= before + seq![prev]);
            assert(before + seq![prev] =~= pseq0.take(ppos0) + Seq::new(j as nat, |i: int| prev));
        }
    }
    Ok(())
}

/// The opcode loop: read opcodes and reconstruct pixels until the end marker,
/// keeping the rolling state (index table and previous pixel) current.
fn decode_pixels(
    header: &Header,
    buffer: &mut BufIter<u8>,
    pixels: &mut MutBufIter<Pixel>,
    table: &mut Vec<Pixel>,
) -> (r: Result<(), DecodeError>)
    requires
        old(buffer).wf(),
        old(pixels).wf(),
        old(pixels).pos() == 0,
        old(table)@.len() == 64,
        old(pixels).window_end() == header.spec_pixel_amount(),
    ensures
        final(pixels).wf(),
        final(pixels).window_end() == old(pixels).window_end(),
        final(pixels).seq().len() == old(pixels).seq().len(),
        forall|i: int|
            final(pixels).pos() <= i < final(pixels).seq().len() ==> final(pixels).seq()[i] == old(
                pixels,
            ).seq()[i],
        match r {
            Ok(()) => spec_decode_ops(
                old(buffer).remaining(),
                old(table)@,
                Pixel::spec_def(),
                old(pixels).window_end() as nat,
            ) == Ok::<Seq<Pixel>, StreamFault>(final(pixels).seq().take(final(pixels).pos())),
            Err(e) => match spec_decode_ops(
                old(buffer).remaining(),
                old(table)@,
                Pixel::spec_def(),
                old(pixels).window_end() as nat,
            ) {
                Ok(_) => false,
                Err(StreamFault::Malformed) => e is InvalidEncoding,
                Err(StreamFault::Overflow) => e == (DecodeError::PixelBufferTooSmall {
                    expected_size: usize_sat(header.spec_pixel_amount()),
                    received_size: usize_sat(old(pixels).window_end()),
                }),
            },
        },
{
    let ghost total = spec_decode_ops(
        old(buffer).remaining(),
        old(table)@,
        Pixel::spec_def(),
        old(pixels).window_end() as nat,
    );
    let mut prev = Pixel::def();
    proof {
        assert(pixels.seq().take(0) =~= Seq::<Pixel>::empty());
        match total {
            Ok(s) => {
                assert(Seq::<Pixel>::empty() + s =~= s);
            },
            Err(_) => {},
        }
    }
    loop
        invariant
            buffer.wf(),
            pixels.wf(),
            table@.len() == 64,
            buffer.seq() == old(buffer).seq(),
            pixels.window_end() == old(pixels).window_end(),
            old(pixels).window_end() == header.spec_pixel_amount(),
            pixels.seq().len() == old(pixels).seq().len(),
            forall|i: int|
                pixels.pos() <= i < pixels.seq().len() ==> pixels.seq()[i] == old(pixels).seq()[i],
            crate::model::spec_compose(
                pixels.seq().take(pixels.pos()),
                spec_decode_ops(
                    buffer.remaining(),
                    table@,
                    prev,
                    (pixels.window_end() - pixels.pos()) as nat,
                ),
            ) == total,
            total == spec_decode_ops(
                old(buffer).remaining(),
                old(table)@,
                Pixel::spec_def(),
                old(pixels).window_end() as nat,
            ),
        decreases buffer.seq().len() - buffer.pos(),
    {
        let ghost rem_at = buffer.remaining();
        let ghost table_at = table@;
        let ghost prev_at = prev;
        let ghost pos_at = pixels.pos();
        let ghost pseq_at = pixels.seq();
        let ghost written_at = pixels.seq().take(pos_at);
        let ghost cap_at = (pixels.window_end() - pos_at) as nat;

        // A bounded peek: fewer than eight remaining bytes cannot hold the
        // end marker, so the stream is malformed.
        let head = match buffer.look_forward(crate::STREAM_END_SIZE) {
            Some(head) => head,
            None => {
                proof {
                    lemma_unfold_short(rem_at, table_at, prev_at, cap_at);
                }
                return Err(DecodeError::InvalidEncoding);
            },
        };
        proof {
            assert(rem_at.take(8) =~= head@);
        }
        if is_stream_end(head) {
            proof {
                lemma_unfold_end(rem_at, table_at, prev_at, cap_at);
                assert(written_at + Seq::<Pixel>::empty() =~= written_at);
            }
            return Ok(());
        }
        let b = match buffer.step_one() {
            Some(b) => b,
            None => {
                proof {
                    assert(false);
                }
                return Err(DecodeError::InvalidEncoding);
            },
        };
        proof {
            assert(rem_at[0] == b);
        }

        if b == crate::OP_RGB || b == crate::OP_RGBA {
            let step: usize = if b == crate::OP_RGB {
                3
            } else {
                4
            };
            let payload = match buffer.step_forward(step) {
                Some(payload) => payload,
                None => {
                    proof {
                        assert(false);
                    }
                    return Err(DecodeError::InvalidEncoding);
                },
            };
            let px = if b == crate::OP_RGB {
                Pixel {
                    r: *vstd::slice::slice_index_get(payload, 0),
                    g: *vstd::slice::slice_index_get(payload, 1),
                    b: *vstd::slice::slice_index_get(payload, 2),
                    a: prev.a,
                }
            } else {
                Pixel {
                    r: *vstd::slice::slice_index_get(payload, 0),
                    g: *vstd::slice::slice_index_get(payload, 1),
                    b: *vstd::slice::slice_index_get(payload, 2),
                    a: *vstd::slice::slice_index_get(payload, 3),
                }
            };
            let ghost consumed = 1 + step as int;
            proof {
                assert(payload@[0] == rem_at[1] && payload@[1] == rem_at[2] && payload@[2]
                    == rem_at[3]);
                if b == 254 {
                    lemma_unfold_rgb(rem_at, table_at, prev_at, cap_at, px);
                } else {
                    assert(payload@[3] == rem_at[4]);
                    lemma_unfold_rgba(rem_at, table_at, prev_at, cap_at, px);
                }
            }
            match emit_decoded(
                pixels,
                table,
                header,
                px,
                Ghost(rem_at),
                Ghost(prev_at),
                Ghost(consumed),
                Ghost(total),
            ) {
                Err(e) => {
                    return Err(e);
                },
                Ok(()) => {},
            }
            prev = px;
            proof {
                assert(buffer.remaining() =~= rem_at.skip(consumed));
                assert forall|i: int|
                    pixels.pos() <= i < pixels.seq().len() implies pixels.seq()[i] == old(
                    pixels,
                ).seq()[i] by {
                    assert(pixels.seq()[i] == pseq_at[i]);
                    assert(pos_at <= i < pseq_at.len());
                    assert(pseq_at[i] == old(pixels).seq()[i]);
                }
            }
        } else if b < crate::OP_DIFF {
            // OP_INDEX: the tag byte is the table slot itself.
            proof {
                assert(b / 64 == 0);
            }
            let px = table[b as usize];
            proof {
                lemma_unfold_index(rem_at, table_at, prev_at, cap_at, px);
            }
            match emit_decoded(
                pixels,
                table,
                header,
                px,
                Ghost(rem_at),
                Ghost(prev_at),
                Ghost(1int),
                Ghost(total),
            ) {
                Err(e) => {
                    return Err(e);
                },
                Ok(()) => {},
            }
            prev = px;
            proof {
                assert(buffer.remaining() =~= rem_at.skip(1));
                assert forall|i: int|
                    pixels.pos() <= i < pixels.seq().len() implies pixels.seq()[i] == old(
                    pixels,
                ).seq()[i] by {
                    assert(pixels.seq()[i] == pseq_at[i]);
                    assert(pos_at <= i < pseq_at.len());
                    assert(pseq_at[i] == old(pixels).seq()[i]);
                }
            }
        } else if b < crate::OP_LUMA {
            // OP_DIFF: three biased two-bit deltas in the tag byte.
            let px = Pixel {
                r: prev.r.wrapping_add((b / 16) % 4).wrapping_sub(crate::DIFF_BIAS),
                g: prev.g.wrapping_add((b / 4) % 4).wrapping_sub(crate::DIFF_BIAS),
                b: prev.b.wrapping_add(b % 4).wrapping_sub(crate::DIFF_BIAS),
                a: prev.a,
            };
            proof {
                assert(b / 64 == 1);
                assert(px == crate::model::spec_diff_pixel(prev_at, b));
                lemma_unfold_diff(rem_at, table_at, prev_at, cap_at, px);
            }
            match emit_decoded(
                pixels,
                table,
                header,
                px,
                Ghost(rem_at),
                Ghost(prev_at),
                Ghost(1int),
                Ghost(total),
            ) {
                Err(e) => {
                    return Err(e);
                },
                Ok(()) => {},
            }
            prev = px;
            proof {
                assert(buffer.remaining() =~= rem_at.skip(1));
                assert forall|i: int|
                    pixels.pos() <= i < pixels.seq().len() implies pixels.seq()[i] == old(
                    pixels,
                ).seq()[i] by {
                    assert(pixels.seq()[i] == pseq_at[i]);
                    assert(pos_at <= i < pseq_at.len());
                    assert(pseq_at[i] == old(pixels).seq()[i]);
                }
            }
        } else if b < crate::OP_RUN {
            // OP_LUMA: a biased six-bit green delta in the tag byte, biased
            // four-bit red and blue offsets in one payload byte.
            let c = match buffer.step_one() {
                Some(c) => c,
                None => {
                    proof {
                        assert(false);
                    }
                    return Err(DecodeError::InvalidEncoding);
                },
            };
            let dg = b % 64;
            let px = Pixel {
                r: prev.r.wrapping_add(dg).wrapping_sub(crate::LUMA_GREEN_BIAS).wrapping_add(
                    c / 16,
                ).wrapping_sub(crate::LUMA_BIAS),
                g: prev.g.wrapping_add(dg).wrapping_sub(crate::LUMA_GREEN_BIAS),
                b: prev.b.wrapping_add(dg).wrapping_sub(crate::LUMA_GREEN_BIAS).wrapping_add(
                    c % 16,
                ).wrapping_sub(crate::LUMA_BIAS),
                a: prev.a,
            };
            proof {
                assert(b / 64 == 2);
                assert(c == rem_at[1]);
                assert(px == crate::model::spec_luma_pixel(prev_at, b, c));
                lemma_unfold_luma(rem_at, table_at, prev_at, cap_at, px);
            }
            match emit_decoded(
                pixels,
                table,
                header,
                px,
                Ghost(rem_at),
                Ghost(prev_at),
                Ghost(2int),
                Ghost(total),
            ) {
                Err(e) => {
                    return Err(e);
                },
                Ok(()) => {},
            }
            prev = px;
            proof {
                assert(buffer.remaining() =~= rem_at.skip(2));
                assert forall|i: int|
                    pixels.pos() <= i < pixels.seq().len() implies pixels.seq()[i] == old(
                    pixels,
                ).seq()[i] by {
                    assert(pixels.seq()[i] == pseq_at[i]);
                    assert(pos_at <= i < pseq_at.len());
                    assert(pseq_at[i] == old(pixels).seq()[i]);
                }
            }
        } else {
            // OP_RUN: repeat the previous pixel `(b & 0x3F) + 1` times.
            proof {
                assert(b / 64 == 3);
            }
            let k: u8 = b % 64 + 1;
            match run_repeat(pixels, header, k, prev) {
                Err(e) => {
                    proof {
                        lemma_run_overflow(
                            rem_at,
                            table_at,
                            prev_at,
                            cap_at,
                            k as nat,
                            written_at,
                            total,
                        );
                        assert forall|i: int|
                            pixels.pos() <= i < pixels.seq().len() implies pixels.seq()[i] == old(
                            pixels,
                        ).seq()[i] by {
                            assert(pixels.seq()[i] == pseq_at[i]);
                        }
                    }
                    return Err(e);
                },
                Ok(()) => {},
            }
            let h = prev.pixel_hash();
            table[h] = prev;
            proof {
                lemma_run_step(rem_at, table_at, prev_at, cap_at, k as nat, written_at, total);
                assert(buffer.remaining() =~= rem_at.skip(1));
                assert(pixels.seq().take(pixels.pos()) == written_at + Seq::new(
                    k as nat,
                    |i: int| prev_at,
                ));
                assert forall|i: int|
                    pixels.pos() <= i < pixels.seq().len() implies pixels.seq()[i] == old(
                    pixels,
                ).seq()[i] by {
                    assert(pixels.seq()[i] == pseq_at[i]);
                    assert(pos_at <= i < pseq_at.len());
                    assert(pseq_at[i] == old(pixels).seq()[i]);
                }
            }
        }
    }
}

/// Decode a QOI byte stream into the caller's pixel buffer. On success the
/// first `width * height` slots hold the image in row-major order and the
/// parsed header is returned; the slots beyond, and on failure the whole
/// buffer length, are left as they were.
pub fn decode(buffer: &[u8], pixels: &mut Vec<Pixel>) -> (r: Result<Header, DecodeError>)
    ensures
        final(pixels)@.len() == old(pixels)@.len(),
        match r {
            Ok(h) => spec_decode_result(buffer@, old(pixels)@.len() as nat) matches Ok(hp)
                && hp.0 == h && final(pixels)@ == hp.1 + old(pixels)@.skip(hp.1.len() as int),
            Err(e) => spec_decode_result(buffer@, old(pixels)@.len() as nat) matches Err(i)
                && decode_issue_matches(e, i),
        },
{
    let header = match decode_header(buffer) {
        Ok(h) => h,
        Err(e) => {
            return Err(e);
        },
    };
    proof {
        lemma_u32_mul_fits_u64(header.width, header.height);
    }
    let n64 = (header.width as u64) * (header.height as u64);
    if (pixels.len() as u64) < n64 {
        return Err(DecodeError::pixel_buffer_too_small(&header, pixels.len()));
    }
    let n = n64 as usize;
    proof {
        assert(n == header.spec_pixel_amount());
    }

    let mut table: Vec<Pixel> = Vec::new();
    let mut i: usize = 0;
    while i < crate::PREV_ARR_SIZE
        invariant
            i <= 64,
            table@.len() == i,
            forall|j: int| 0 <= j < i ==> table@[j] == Pixel::spec_zero(),
        decreases 64 - i,
    {
        table.push(Pixel::zero());
        i = i + 1;
    }
    proof {
        assert(table@ =~= spec_init_table());
    }

    let mut owned: Vec<Pixel> = Vec::new();
    core::mem::swap(pixels, &mut owned);
    let mut window = MutBufIter::from(owned, n);
    let mut cursor = match BufIter::from(buffer, crate::HEADER_SIZE, buffer.len()) {
        Some(cursor) => cursor,
        None => {
            proof {
                assert(false);
            }
            return Err(DecodeError::MissingHeader);
        },
    };
    let ghost ops_rem = cursor.remaining();
    proof {
        assert(ops_rem =~= buffer@.skip(14));
    }

    let res = decode_pixels(&header, &mut cursor, &mut window, &mut table);
    let written = window.idx();
    let mut back = window.into_vec();
    core::mem::swap(pixels, &mut back);

    match res {
        Err(e) => Err(e),
        Ok(()) => {
            if written != n {
                Err(DecodeError::missing_pixels(&header, written))
            } else {
                proof {
                    assert(final(pixels)@ =~= final(pixels)@.take(n as int) + old(
                        pixels,
                    )@.skip(n as int));
                }
                Ok(header)
            }
        },
    }
}

/// Decode a QOI byte stream into a freshly allocated pixel vector sized to
/// the header's declared pixel count.
pub fn decode_allocated(buffer: &[u8]) -> (r: Result<(Header, Vec<Pixel>), DecodeError>)
    ensures
        match r {
            Ok(hv) => spec_decode_result(buffer@, crate::model::spec_alloc_pixel_len(buffer@))
                matches Ok(hp) && hp.0 == hv.0 && hv.1@ == hp.1,
            Err(e) => spec_decode_result(buffer@, crate::model::spec_alloc_pixel_len(buffer@))
                matches Err(i) && decode_issue_matches(e, i),
        },
{
    let header = match decode_header(buffer) {
        Ok(h) => h,
        Err(e) => {
            return Err(e);
        },
    };
    proof {
        lemma_u32_mul_fits_u64(header.width, header.height);
    }
    let n64 = (header.width as u64) * (header.height as u64);
    if n64 > usize::MAX as u64 {
        // No buffer of the declared pixel count can exist on this machine.
        return Err(DecodeError::pixel_buffer_too_small(&header, usize::MAX));
    }
    let n = n64 as usize;
    let mut pixels: Vec<Pixel> = Vec::new();
    while pixels.len() < n
        invariant
            pixels@.len() <= n,
        decreases n - pixels@.len(),
    {
        pixels.push(Pixel::def());
    }
    match decode(buffer, &mut pixels) {
        Err(e) => Err(e),
        Ok(h) => {
            proof {
                match spec_decode_result(buffer@, n as nat) {
                    Ok(hp) => {
                        assert(hp.1 + Seq::<Pixel>::empty() =~= hp.1);
                        assert(pixels@ =~= hp.1);
                    },
                    Err(_) => {},
                }
            }
            Ok((h, pixels))
        },
    }
}

} // verus!
