//! The encoder: for each pixel the opcodes are tried in the fixed priority
//! order RUN, INDEX, DIFF, LUMA, RGB/RGBA, and the first that applies is
//! emitted. Verified against the model in `crate::model`.
use crate::buf_iter::BufIter;
use crate::buf_iter::MutBufIter;
use crate::decode::lemma_u32_mul_fits_u64;
use crate::model::spec_encode_ops;
use crate::model::spec_encode_result;
use crate::model::spec_header_bytes;
use crate::model::spec_init_table;
use crate::model::spec_opcode_for;
use crate::model::spec_step_bytes;
use crate::model::spec_step_run;
use crate::model::usize_sat;
use crate::model::EncodeIssue;
use crate::util::sat_u64_to_usize;
use crate::util::spec_pixel_hash;
use crate::util::Header;
use crate::util::Pixel;
use vstd::prelude::*;

verus! {

broadcast use vstd::slice::axiom_spec_len;

/// A failed encode, with the concrete numbers that make the diagnosis
/// precise.
#[derive(Debug, Clone, Copy, PartialEq, Eq, Structural)]
pub enum EncodeError {
    /// The pixel buffer holds fewer pixels than `width * height`.
    MissingPixels { expected_size: usize, received_size: usize },
    /// The output buffer cannot fit the encoded image; a size that always
    /// suffices is reported as expected.
    BufferTooSmall { expected_size: usize, received_size: usize },
}

/// Whether the executable error `e` carries exactly the diagnosis `i`, with
/// counts clamped to `usize`.
pub open spec fn encode_issue_matches(e: EncodeError, i: EncodeIssue) -> bool {
    match i {
        EncodeIssue::MissingPixels { expected, received } => e matches EncodeError::MissingPixels {
            expected_size,
            received_size,
        } && expected_size == usize_sat(expected) && received_size == usize_sat(received),
        EncodeIssue::BufferTooSmall { expected, received } => e matches EncodeError::BufferTooSmall {
            expected_size,
            received_size,
        } && expected_size == usize_sat(expected) && received_size == usize_sat(received),
    }
}

impl EncodeError {
    /// The error raised when the output buffer cannot fit the encoding: the
    /// size that always suffices against the size received.
    pub fn buffer_too_small(header: &Header, received: usize) -> (e: EncodeError)
        ensures
            e == (EncodeError::BufferTooSmall {
                expected_size: usize_sat(header.spec_max_size()),
                received_size: received,
            }),
    {
        proof {
            lemma_u32_mul_fits_u64(header.width, header.height);
        }
        let n64 = (header.width as u64) * (header.height as u64);
        let per = header.max_bytes_per_pixel_small();
        proof {
            assert((n64 as int) * (per as int) <= (u64::MAX as int) * 5int && 0 <= (n64 as int) * (
            per as int)) by (nonlinear_arith)
                requires
                    n64 <= u64::MAX,
                    0 <= n64,
                    1 <= per <= 5,
            ;
        }
        let m128: u128 = (n64 as u128) * (per as u128) + 22;
        let expected = if m128 > usize::MAX as u128 {
            usize::MAX
        } else {
            m128 as usize
        };
        EncodeError::BufferTooSmall { expected_size: expected, received_size: received }
    }
}

impl Header {
    /// Largest number of bytes one pixel can cost, as a byte-sized count.
    fn max_bytes_per_pixel_small(&self) -> (n: u8)
        ensures
            n == self.spec_bytes_per_pixel() + 1,
            1 <= n <= 5,
    {
        self.channels.as_u8() + 1
    }
}

/// Outcome of trying one opcode on the current pixel: it was emitted, it
/// does not apply, or the output buffer ran out while emitting it.
enum EncodeAttemptRes {
    Success,
    Invalid,
    Failure(EncodeError),
}

/// Write the 14 header bytes: magic, width, height, channels, colorspace.
fn encode_header(header: &Header, buffer: &mut MutBufIter<u8>) -> (r: Result<usize, EncodeError>)
    requires
        old(buffer).wf(),
    ensures
        final(buffer).wf(),
        final(buffer).window_end() == old(buffer).window_end(),
        final(buffer).seq().len() == old(buffer).seq().len(),
        match r {
            Ok(c) => {
                &&& c == crate::HEADER_SIZE
                &&& old(buffer).pos() + 14 <= old(buffer).window_end()
                &&& final(buffer).pos() == old(buffer).pos() + 14
                &&& final(buffer).seq() == old(buffer).seq().take(old(buffer).pos())
                    + spec_header_bytes(*header) + old(buffer).seq().skip(old(buffer).pos() + 14)
            },
            Err(e) => {
                &&& old(buffer).pos() + 14 > old(buffer).window_end()
                &&& *final(buffer) == *old(buffer)
                &&& e == (EncodeError::BufferTooSmall {
                    expected_size: usize_sat(header.spec_max_size()),
                    received_size: usize_sat(old(buffer).window_end()),
                })
            },
        },
{
    if buffer.len() - buffer.idx() < crate::HEADER_SIZE {
        let received = buffer.len();
        return Err(EncodeError::buffer_too_small(header, received));
    }
    let mut bytes: Vec<u8> = Vec::new();
    bytes.push(0x71);
    bytes.push(0x6f);
    bytes.push(0x69);
    bytes.push(0x66);
    push_u32_be(&mut bytes, header.width);
    push_u32_be(&mut bytes, header.height);
    bytes.push(header.channels.as_u8());
    bytes.push(header.colorspace.as_u8());
    proof {
        assert(bytes@ =~= spec_header_bytes(*header));
    }
    let ok = buffer.copy_from_slice(bytes.as_slice());
    proof {
        assert(ok);
    }
    Ok(crate::HEADER_SIZE)
}

/// Append the four big-endian bytes of `x`.
fn push_u32_be(bytes: &mut Vec<u8>, x: u32)
    ensures
        final(bytes)@ == old(bytes)@ + crate::model::spec_u32_be(x),
{
    bytes.push((x / 0x1000000) as u8);
    bytes.push(((x / 0x10000) % 256) as u8);
    bytes.push(((x / 256) % 256) as u8);
    bytes.push((x % 256) as u8);
    proof {
        assert(final(bytes)@ =~= old(bytes)@ + crate::model::spec_u32_be(x));
    }
}

/// Try to fold the pixel into a run of the previous pixel. A run never
/// starts at the first pixel; a full run of 62, and any run at the last
/// pixel, is emitted at once. A pending run before a differing pixel is
/// emitted here too, and the attempt then reports that the pixel itself
/// still needs an opcode.
fn try_op_run(
    header: &Header,
    pixel: Pixel,
    buffer: &mut MutBufIter<u8>,
    prev_pixel: &Pixel,
    run: &mut u8,
    is_last: bool,
    is_first: bool,
) -> (r: EncodeAttemptRes)
    requires
        old(buffer).wf(),
        *old(run) <= 61,
        is_first ==> *old(run) == 0,
    ensures
        final(buffer).wf(),
        final(buffer).window_end() == old(buffer).window_end(),
        final(buffer).seq().len() == old(buffer).seq().len(),
        match r {
            EncodeAttemptRes::Success => {
                &&& !is_first && pixel == *prev_pixel
                &&& *final(run) == spec_step_run(
                    pixel,
                    *prev_pixel,
                    *old(run) as nat,
                    is_first,
                    is_last,
                )
                &&& if *old(run) + 1 == 62 || is_last {
                    &&& old(buffer).pos() + 1 <= old(buffer).window_end()
                    &&& final(buffer).seq() == old(buffer).seq().update(
                        old(buffer).pos(),
                        (192 + *old(run)) as u8,
                    )
                    &&& final(buffer).pos() == old(buffer).pos() + 1
                } else {
                    *final(buffer) == *old(buffer)
                }
            },
            EncodeAttemptRes::Invalid => {
                &&& is_first || pixel != *prev_pixel
                &&& *final(run) == 0
                &&& if *old(run) > 0 {
                    &&& pixel != *prev_pixel
                    &&& old(buffer).pos() + 1 <= old(buffer).window_end()
                    &&& final(buffer).seq() == old(buffer).seq().update(
                        old(buffer).pos(),
                        (192 + *old(run) - 1) as u8,
                    )
                    &&& final(buffer).pos() == old(buffer).pos() + 1
                } else {
                    *final(buffer) == *old(buffer)
                }
            },
            EncodeAttemptRes::Failure(e) => {
                &&& old(buffer).pos() >= old(buffer).window_end()
                &&& *final(buffer) == *old(buffer)
                &&& !is_first
                &&& (pixel == *prev_pixel ==> *old(run) + 1 == 62 || is_last)
                &&& (pixel == *prev_pixel || *old(run) > 0)
                &&& e == (EncodeError::BufferTooSmall {
                    expected_size: usize_sat(header.spec_max_size()),
                    received_size: usize_sat(old(buffer).window_end()),
                })
            },
        },
{
    if is_first {
        // A run may not begin against the implicit default predecessor.
        EncodeAttemptRes::Invalid
    } else if pixel == *prev_pixel {
        *run = *run + 1;
        if *run == 62 || is_last {
            if !buffer.set_next_one(crate::OP_RUN + (*run - 1)) {
                let received = buffer.len();
                return EncodeAttemptRes::Failure(EncodeError::buffer_too_small(header, received));
            }
            *run = 0;
        }
        EncodeAttemptRes::Success
    } else if *run > 0 {
        if !buffer.set_next_one(crate::OP_RUN + (*run - 1)) {
            let received = buffer.len();
            return EncodeAttemptRes::Failure(EncodeError::buffer_too_small(header, received));
        }
        *run = 0;
        EncodeAttemptRes::Invalid
    } else {
        EncodeAttemptRes::Invalid
    }
}

/// Try the one-byte table opcode: it applies when the pixel sits in its
/// hash slot.
fn try_op_index(
    header: &Header,
    pixel: Pixel,
    index: usize,
    buffer: &mut MutBufIter<u8>,
    table: &Vec<Pixel>,
) -> (r: EncodeAttemptRes)
    requires
        old(buffer).wf(),
        table@.len() == 64,
        index == spec_pixel_hash(pixel),
    ensures
        final(buffer).wf(),
        final(buffer).window_end() == old(buffer).window_end(),
        final(buffer).seq().len() == old(buffer).seq().len(),
        match r {
            EncodeAttemptRes::Success => {
                &&& table@[index as int] == pixel
                &&& old(buffer).pos() + 1 <= old(buffer).window_end()
                &&& final(buffer).seq() == old(buffer).seq().update(
                    old(buffer).pos(),
                    index as u8,
                )
                &&& final(buffer).pos() == old(buffer).pos() + 1
            },
            EncodeAttemptRes::Invalid => {
                &&& table@[index as int] != pixel
                &&& *final(buffer) == *old(buffer)
            },
            EncodeAttemptRes::Failure(e) => {
                &&& old(buffer).pos() >= old(buffer).window_end()
                &&& *final(buffer) == *old(buffer)
                &&& e == (EncodeError::BufferTooSmall {
                    expected_size: usize_sat(header.spec_max_size()),
                    received_size: usize_sat(old(buffer).window_end()),
                })
            },
        },
{
    if table[index] == pixel {
        if !buffer.set_next_one(crate::OP_INDEX + (index as u8)) {
            let received = buffer.len();
            return EncodeAttemptRes::Failure(EncodeError::buffer_too_small(header, received));
        }
        EncodeAttemptRes::Success
    } else {
        EncodeAttemptRes::Invalid
    }
}

/// Try the small-delta opcodes: one DIFF byte when every channel moved by
/// at most two in either direction, else two LUMA bytes when the deltas fit
/// the luma-centred ranges. Either needs an unchanged alpha.
fn try_op_diff_luma(
    header: &Header,
    pixel: Pixel,
    buffer: &mut MutBufIter<u8>,
    prev_pixel: &Pixel,
) -> (r: EncodeAttemptRes)
    requires
        old(buffer).wf(),
    ensures
        final(buffer).wf(),
        final(buffer).window_end() == old(buffer).window_end(),
        final(buffer).seq().len() == old(buffer).seq().len(),
        match r {
            EncodeAttemptRes::Success => {
                &&& crate::model::spec_diff_fits(*prev_pixel, pixel) || crate::model::spec_luma_fits(
                    *prev_pixel,
                    pixel,
                )
                &&& ({
                    let bytes = if crate::model::spec_diff_fits(*prev_pixel, pixel) {
                        seq![
                            (64 + crate::model::spec_diff_delta(prev_pixel.r, pixel.r) * 16
                                + crate::model::spec_diff_delta(prev_pixel.g, pixel.g) * 4
                                + crate::model::spec_diff_delta(prev_pixel.b, pixel.b)) as u8,
                        ]
                    } else {
                        seq![
                            (128 + crate::model::spec_luma_dg(*prev_pixel, pixel)) as u8,
                            (crate::model::spec_luma_dr_dg(*prev_pixel, pixel) * 16
                                + crate::model::spec_luma_db_dg(*prev_pixel, pixel)) as u8,
                        ]
                    };
                    &&& old(buffer).pos() + bytes.len() <= old(buffer).window_end()
                    &&& final(buffer).seq() == old(buffer).seq().take(old(buffer).pos()) + bytes
                        + old(buffer).seq().skip(old(buffer).pos() + bytes.len())
                    &&& final(buffer).pos() == old(buffer).pos() + bytes.len()
                })
            },
            EncodeAttemptRes::Invalid => {
                &&& !crate::model::spec_diff_fits(*prev_pixel, pixel)
                &&& !crate::model::spec_luma_fits(*prev_pixel, pixel)
                &&& *final(buffer) == *old(buffer)
            },
            EncodeAttemptRes::Failure(e) => {
                &&& old(buffer).pos() + (if crate::model::spec_diff_fits(*prev_pixel, pixel) {
                    1int
                } else {
                    2int
                }) > old(buffer).window_end()
                &&& final(buffer).pos() >= old(buffer).pos()
                &&& e == (EncodeError::BufferTooSmall {
                    expected_size: usize_sat(header.spec_max_size()),
                    received_size: usize_sat(old(buffer).window_end()),
                })
            },
        },
{
    if pixel.a == prev_pixel.a {
        let dr = pixel.r.wrapping_sub(prev_pixel.r).wrapping_add(crate::DIFF_BIAS);
        let dg = pixel.g.wrapping_sub(prev_pixel.g).wrapping_add(crate::DIFF_BIAS);
        let db = pixel.b.wrapping_sub(prev_pixel.b).wrapping_add(crate::DIFF_BIAS);
        if dr <= 3 && dg <= 3 && db <= 3 {
            let ghost before = *buffer;
            if !buffer.set_next_one(crate::OP_DIFF + dr * 16 + dg * 4 + db) {
                let received = buffer.len();
                return EncodeAttemptRes::Failure(EncodeError::buffer_too_small(header, received));
            }
            proof {
                assert(buffer.seq() =~= before.seq().take(before.pos()) + seq![
                    (64 + dr * 16 + dg * 4 + db) as u8,
                ] + before.seq().skip(before.pos() + 1));
            }
            return EncodeAttemptRes::Success;
        }
        let vg = pixel.g.wrapping_sub(prev_pixel.g);
        let dg2 = vg.wrapping_add(crate::LUMA_GREEN_BIAS);
        let drdg = pixel.r.wrapping_sub(prev_pixel.r).wrapping_sub(vg).wrapping_add(
            crate::LUMA_BIAS,
        );
        let dbdg = pixel.b.wrapping_sub(prev_pixel.b).wrapping_sub(vg).wrapping_add(
            crate::LUMA_BIAS,
        );
        if dg2 <= 63 && drdg <= 15 && dbdg <= 15 {
            let ghost before = *buffer;
            if !buffer.set_next_one(crate::OP_LUMA + dg2) {
                let received = buffer.len();
                return EncodeAttemptRes::Failure(EncodeError::buffer_too_small(header, received));
            }
            if !buffer.set_next_one(drdg * 16 + dbdg) {
                let received = buffer.len();
                return EncodeAttemptRes::Failure(EncodeError::buffer_too_small(header, received));
            }
            proof {
                assert(buffer.seq() =~= before.seq().take(before.pos()) + seq![
                    (128 + dg2) as u8,
                    (drdg * 16 + dbdg) as u8,
                ] + before.seq().skip(before.pos() + 2));
            }
            return EncodeAttemptRes::Success;
        }
    }
    EncodeAttemptRes::Invalid
}

/// Emit the pixel verbatim: an RGB opcode when the alpha is unchanged, else
/// an RGBA opcode.
fn try_op_pixel(
    header: &Header,
    pixel: Pixel,
    prev_pixel: &Pixel,
    buffer: &mut MutBufIter<u8>,
) -> (r: EncodeAttemptRes)
    requires
        old(buffer).wf(),
    ensures
        final(buffer).wf(),
        final(buffer).window_end() == old(buffer).window_end(),
        final(buffer).seq().len() == old(buffer).seq().len(),
        match r {
            EncodeAttemptRes::Success => {
                let bytes = if pixel.a == prev_pixel.a {
                    seq![254u8, pixel.r, pixel.g, pixel.b]
                } else {
                    seq![255u8, pixel.r, pixel.g, pixel.b, pixel.a]
                };
                &&& old(buffer).pos() + bytes.len() <= old(buffer).window_end()
                &&& final(buffer).seq() == old(buffer).seq().take(old(buffer).pos()) + bytes + old(
                    buffer,
                ).seq().skip(old(buffer).pos() + bytes.len())
                &&& final(buffer).pos() == old(buffer).pos() + bytes.len()
            },
            EncodeAttemptRes::Invalid => false,
            EncodeAttemptRes::Failure(e) => {
                &&& old(buffer).pos() + (if pixel.a == prev_pixel.a {
                    4int
                } else {
                    5int
                }) > old(buffer).window_end()
                &&& final(buffer).pos() >= old(buffer).pos()
                &&& e == (EncodeError::BufferTooSmall {
                    expected_size: usize_sat(header.spec_max_size()),
                    received_size: usize_sat(old(buffer).window_end()),
                })
            },
        },
{
    let ghost before = *buffer;
    let mut bytes: Vec<u8> = Vec::new();
    if pixel.a == prev_pixel.a {
        bytes.push(crate::OP_RGB);
        bytes.push(pixel.r);
        bytes.push(pixel.g);
        bytes.push(pixel.b);
        proof {
            assert(bytes@ =~= seq![254u8, pixel.r, pixel.g, pixel.b]);
        }
    } else {
        bytes.push(crate::OP_RGBA);
        bytes.push(pixel.r);
        bytes.push(pixel.g);
        bytes.push(pixel.b);
        bytes.push(pixel.a);
        proof {
            assert(bytes@ =~= seq![255u8, pixel.r, pixel.g, pixel.b, pixel.a]);
        }
    }
    if !buffer.copy_from_slice(bytes.as_slice()) {
        let received = buffer.len();
        return EncodeAttemptRes::Failure(EncodeError::buffer_too_small(header, received));
    }
    EncodeAttemptRes::Success
}

/// The opcode stream of no pixels is empty.
proof fn lemma_encode_ops_nil(px: Seq<Pixel>, table: Seq<Pixel>, prev: Pixel, first: bool)
    requires
        px.len() == 0,
    ensures
        spec_encode_ops(px, table, prev, first) == Seq::<u8>::empty(),
{
    reveal(crate::model::spec_encode_ops);
}

/// Closing a run chunk: when pixel `i` extends a run to its full length of
/// 62, or ends the image, the stream continues with one run byte and the
/// pixels after `i`.
proof fn lemma_chunk_run_flush(pxw: Seq<Pixel>, i: int, run: nat, table: Seq<Pixel>, prev: Pixel)
    requires
        0 <= i < pxw.len(),
        run <= i,
        1 <= i - run,
        run <= 61,
        pxw[i] == prev,
        forall|t: int| i - run <= t < i ==> pxw[t] == prev,
        run + 1 == 62 || i == pxw.len() - 1,
        table.len() == 64,
        table[spec_pixel_hash(prev)] == prev,
    ensures
        spec_encode_ops(pxw.skip(i - run), table, prev, false) == seq![(192 + run) as u8]
            + spec_encode_ops(pxw.skip(i + 1), table, prev, false),
{
    reveal(crate::model::spec_encode_ops);
    let j = i - run;
    let s = pxw.skip(j);
    let k = run + 1;
    assert(forall|t: int| 0 <= t < s.len() ==> s[t] == pxw[j + t]);
    if run + 1 == 62 {
        crate::model::lemma_lead_run_min(s, prev, 62);
    } else {
        assert(s.len() == k);
        crate::model::lemma_lead_run_exact(s, prev, k as nat);
    }
    assert(crate::model::spec_run_chunk(s, prev) == k);
    assert(s[0] == prev);
    assert(table.update(spec_pixel_hash(prev), prev) =~= table);
    assert(s.skip(k as int) =~= pxw.skip(i + 1));
}

/// Closing a run chunk before a differing pixel: the stream continues with
/// one run byte and the pixels from `i` on.
proof fn lemma_chunk_flush_only(pxw: Seq<Pixel>, i: int, run: nat, table: Seq<Pixel>, prev: Pixel)
    requires
        0 <= i < pxw.len(),
        1 <= run <= 61,
        run <= i,
        1 <= i - run,
        pxw[i] != prev,
        forall|t: int| i - run <= t < i ==> pxw[t] == prev,
        table.len() == 64,
        table[spec_pixel_hash(prev)] == prev,
    ensures
        spec_encode_ops(pxw.skip(i - run), table, prev, false) == seq![(192 + run - 1) as u8]
            + spec_encode_ops(pxw.skip(i), table, prev, false),
{
    reveal(crate::model::spec_encode_ops);
    let j = i - run;
    let s = pxw.skip(j);
    assert(forall|t: int| 0 <= t < s.len() ==> s[t] == pxw[j + t]);
    assert(s[run as int] == pxw[i]);
    crate::model::lemma_lead_run_exact(s, prev, run);
    assert(crate::model::spec_run_chunk(s, prev) == run);
    assert(s[0] == prev);
    assert(table.update(spec_pixel_hash(prev), prev) =~= table);
    assert(s.skip(run as int) =~= pxw.skip(i));
}

/// A pixel that does not extend a run opens its own opcode chunk.
proof fn lemma_chunk_op(pxw: Seq<Pixel>, i: int, table: Seq<Pixel>, prev: Pixel)
    requires
        0 <= i < pxw.len(),
        i == 0 || pxw[i] != prev,
    ensures
        spec_encode_ops(pxw.skip(i), table, prev, i == 0) == spec_opcode_for(pxw[i], table, prev)
            + spec_encode_ops(
            pxw.skip(i + 1),
            table.update(spec_pixel_hash(pxw[i]), pxw[i]),
            pxw[i],
            false,
        ),
{
    reveal(crate::model::spec_encode_ops);
    let s = pxw.skip(i);
    assert(s[0] == pxw[i]);
    assert(s.skip(1) =~= pxw.skip(i + 1));
}

/// Encode one pixel: fold it into a run or emit the first opcode that
/// applies, then record it in the index table.
fn encode_pixel(
    header: &Header,
    pixels: &mut BufIter<Pixel>,
    buffer: &mut MutBufIter<u8>,
    prev_arr: &mut Vec<Pixel>,
    prev_pixel: &Pixel,
    run: &mut u8,
    is_last: bool,
    is_first: bool,
) -> (r: Result<Pixel, EncodeError>)
    requires
        old(pixels).wf(),
        old(buffer).wf(),
        old(pixels).pos() < old(pixels).seq().len(),
        old(prev_arr)@.len() == 64,
        *old(run) <= 61,
        is_first ==> *old(run) == 0,
    ensures
        final(pixels).wf(),
        final(pixels).seq() == old(pixels).seq(),
        final(pixels).pos() == old(pixels).pos() + 1,
        final(buffer).wf(),
        final(buffer).window_end() == old(buffer).window_end(),
        final(buffer).seq().len() == old(buffer).seq().len(),
        final(prev_arr)@.len() == 64,
        ({
            let p = old(pixels).seq()[old(pixels).pos()];
            let emitted = spec_step_bytes(
                p,
                old(prev_arr)@,
                *prev_pixel,
                *old(run) as nat,
                is_first,
                is_last,
            );
            match r {
                Ok(q) => {
                    &&& q == p
                    &&& final(prev_arr)@ == old(prev_arr)@.update(spec_pixel_hash(p), p)
                    &&& *final(run) == spec_step_run(
                        p,
                        *prev_pixel,
                        *old(run) as nat,
                        is_first,
                        is_last,
                    )
                    &&& *final(run) <= 61
                    &&& old(buffer).pos() + emitted.len() <= old(buffer).window_end()
                    &&& final(buffer).seq() == old(buffer).seq().take(old(buffer).pos()) + emitted
                        + old(buffer).seq().skip(old(buffer).pos() + emitted.len())
                    &&& final(buffer).pos() == old(buffer).pos() + emitted.len()
                },
                Err(e) => {
                    &&& old(buffer).pos() + emitted.len() > old(buffer).window_end()
                    &&& e == (EncodeError::BufferTooSmall {
                        expected_size: usize_sat(header.spec_max_size()),
                        received_size: usize_sat(old(buffer).window_end()),
                    })
                },
            }
        }),
{
    let pixel = match pixels.step_one() {
        Some(pixel) => pixel,
        None => {
            proof {
                assert(false);
            }
            vstd::pervasive::unreached()
        },
    };
    let index = pixel.pixel_hash();
    let ghost buf0 = *old(buffer);

    let res = match try_op_run(header, pixel, buffer, prev_pixel, run, is_last, is_first) {
        EncodeAttemptRes::Success => {
            proof {
                if *old(run) + 1 == 62 || is_last {
                    assert(buffer.seq() =~= buf0.seq().take(buf0.pos()) + seq![
                        (192 + *old(run)) as u8,
                    ] + buf0.seq().skip(buf0.pos() + 1));
                } else {
                    assert(buffer.seq() =~= buf0.seq().take(buf0.pos()) + Seq::<u8>::empty()
                        + buf0.seq().skip(buf0.pos() + 0));
                }
            }
            Ok(pixel)
        },
        EncodeAttemptRes::Failure(e) => Err(e),
        EncodeAttemptRes::Invalid => {
            let ghost buf1 = *buffer;
            let ghost flush = if *old(run) > 0 {
                seq![(192 + *old(run) - 1) as u8]
            } else {
                Seq::<u8>::empty()
            };
            proof {
                assert(buf1.seq() =~= buf0.seq().take(buf0.pos()) + flush + buf0.seq().skip(
                    buf0.pos() + flush.len(),
                ));
            }
            match try_op_index(header, pixel, index, buffer, prev_arr) {
                EncodeAttemptRes::Success => {
                    proof {
                        let op = spec_opcode_for(pixel, prev_arr@, *prev_pixel);
                        assert(buffer.seq() =~= buf1.seq().take(buf1.pos()) + op + buf1.seq().skip(
                            buf1.pos() + 1,
                        ));
                        lemma_compose_writes(buf0, buf1, *buffer, flush, op);
                    }
                    Ok(pixel)
                },
                EncodeAttemptRes::Failure(e) => Err(e),
                EncodeAttemptRes::Invalid => {
                    proof {
                        assert(buf1.seq() == buffer.seq());
                    }
                    match try_op_diff_luma(header, pixel, buffer, prev_pixel) {
                        EncodeAttemptRes::Success => {
                            proof {
                                let op = spec_opcode_for(pixel, prev_arr@, *prev_pixel);
                                lemma_compose_writes(buf0, buf1, *buffer, flush, op);
                            }
                            Ok(pixel)
                        },
                        EncodeAttemptRes::Failure(e) => Err(e),
                        EncodeAttemptRes::Invalid => {
                            match try_op_pixel(header, pixel, prev_pixel, buffer) {
                                EncodeAttemptRes::Success => {
                                    proof {
                                        let op = spec_opcode_for(pixel, prev_arr@, *prev_pixel);
                                        lemma_compose_writes(buf0, buf1, *buffer, flush, op);
                                    }
                                    Ok(pixel)
                                },
                                EncodeAttemptRes::Failure(e) => Err(e),
                                EncodeAttemptRes::Invalid => {
                                    proof {
                                        assert(false);
                                    }
                                    vstd::pervasive::unreached()
                                },
                            }
                        },
                    }
                },
            }
        },
    };
    prev_arr[index] = pixel;
    res
}

/// Two consecutive bounded writes compose into one write of the
/// concatenated bytes.
proof fn lemma_compose_writes(
    buf0: MutBufIter<u8>,
    buf1: MutBufIter<u8>,
    buf2: MutBufIter<u8>,
    first: Seq<u8>,
    second: Seq<u8>,
)
    requires
        buf0.wf(),
        0 <= buf0.pos(),
        buf0.pos() + first.len() + second.len() <= buf0.seq().len(),
        buf1.seq().len() == buf0.seq().len(),
        buf2.seq().len() == buf1.seq().len(),
        buf1.seq() == buf0.seq().take(buf0.pos()) + first + buf0.seq().skip(
            buf0.pos() + first.len(),
        ),
        buf1.pos() == buf0.pos() + first.len(),
        buf2.seq() == buf1.seq().take(buf1.pos()) + second + buf1.seq().skip(
            buf1.pos() + second.len(),
        ),
        buf2.pos() == buf1.pos() + second.len(),
    ensures
        buf2.seq() == buf0.seq().take(buf0.pos()) + (first + second) + buf0.seq().skip(
            buf0.pos() + first.len() + second.len(),
        ),
        buf2.pos() == buf0.pos() + (first + second).len(),
{
    assert(buf2.seq() =~= buf0.seq().take(buf0.pos()) + (first + second) + buf0.seq().skip(
        buf0.pos() + first.len() + second.len(),
    ));
}

/// Encode the first `width * height` pixels of `pixels` into the caller's
/// byte buffer: header, opcode stream, end marker. Returns how many bytes
/// were written; the slots beyond them are left as they were.
#[verifier::rlimit(100)]
pub fn encode(header: &Header, pixels: &[Pixel], buffer: &mut Vec<u8>) -> (r: Result<
    usize,
    EncodeError,
>)
    ensures
        final(buffer)@.len() == old(buffer)@.len(),
        match r {
            Ok(c) => spec_encode_result(*header, pixels@, old(buffer)@.len() as nat) matches Ok(
                bytes,
            ) && c == bytes.len() && final(buffer)@ == bytes + old(buffer)@.skip(
                bytes.len() as int,
            ),
            Err(e) => spec_encode_result(*header, pixels@, old(buffer)@.len() as nat) matches Err(i)
                && encode_issue_matches(e, i),
        },
{
    proof {
        lemma_u32_mul_fits_u64(header.width, header.height);
    }
    let n64 = (header.width as u64) * (header.height as u64);
    if (pixels.len() as u64) < n64 {
        return Err(
            EncodeError::MissingPixels {
                expected_size: sat_u64_to_usize(n64),
                received_size: pixels.len(),
            },
        );
    }
    let n = n64 as usize;
    let mut window = match BufIter::from(pixels, 0, n) {
        Some(window) => window,
        None => {
            proof {
                assert(false);
            }
            vstd::pervasive::unreached()
        },
    };
    let ghost pxw = window.seq();
    proof {
        assert(pxw =~= pixels@.take(n as int));
    }
    let ghost g_ops = spec_encode_ops(pxw, spec_init_table(), Pixel::spec_def(), true);
    let ghost g_all = spec_header_bytes(*header) + g_ops;

    let mut table: Vec<Pixel> = Vec::new();
    let mut i: usize = 0;
    while i < crate::PREV_ARR_SIZE
        invariant
            i <= 64,
            table@.len() == i,
            forall|k: int| 0 <= k < i ==> table@[k] == Pixel::spec_zero(),
        decreases 64 - i,
    {
        table.push(Pixel::zero());
        i = i + 1;
    }
    proof {
        assert(table@ =~= spec_init_table());
    }

    let mut taken: Vec<u8> = Vec::new();
    core::mem::swap(buffer, &mut taken);
    let ghost bseq0 = taken@;
    let mut out = MutBufIter::new(taken);

    match encode_header(header, &mut out) {
        Err(e) => {
            *buffer = out.into_vec();
            return Err(e);
        },
        Ok(_) => {},
    }
    proof {
        assert(out.seq().take(14) =~= Seq::<u8>::empty() + spec_header_bytes(*header));
        assert(Seq::<u8>::empty() + spec_header_bytes(*header) =~= spec_header_bytes(*header));
        assert(pxw.skip(0) =~= pxw);
    }

    let mut prev = Pixel::def();
    let mut run: u8 = 0;
    let mut is_first = true;
    while window.idx() < n
        invariant
            window.wf(),
            window.seq() == pxw,
            pxw.len() == n as int,
            bseq0 == old(buffer)@,
            pxw == pixels@.take(n as int),
            n as int == header.spec_pixel_amount(),
            n <= pixels@.len(),
            out.wf(),
            out.window_end() == bseq0.len(),
            out.seq().len() == bseq0.len(),
            forall|k: int| out.pos() <= k < out.seq().len() ==> out.seq()[k] == bseq0[k],
            table@.len() == 64,
            run <= 61,
            run <= window.pos(),
            run > 0 ==> window.pos() - run >= 1,
            run > 0 ==> window.pos() < pxw.len(),
            forall|t: int| window.pos() - run <= t < window.pos() ==> pxw[t] == prev,
            window.pos() >= 1 ==> prev == pxw[window.pos() - 1],
            window.pos() >= 1 ==> table@[spec_pixel_hash(prev)] == prev,
            window.pos() == 0 ==> table@ == spec_init_table() && prev == Pixel::spec_def() && run
                == 0,
            is_first == (window.pos() == 0),
            out.seq().take(out.pos()) + spec_encode_ops(
                pxw.skip(window.pos() - run),
                table@,
                prev,
                window.pos() - run == 0,
            ) == g_all,
            g_all == spec_header_bytes(*header) + spec_encode_ops(
                pxw,
                spec_init_table(),
                Pixel::spec_def(),
                true,
            ),
        decreases pxw.len() - window.pos(),
    {
        let i = window.idx();
        let is_last = i + 1 == n;
        let ghost table_at = table@;
        let ghost prev_at = prev;
        let ghost run_at = run as nat;
        let ghost out_at = out;
        let ghost j = i - run_at;
        let ghost p = pxw[i as int];
        let ghost emitted = spec_step_bytes(p, table_at, prev_at, run_at, is_first, is_last);

        proof {
            // The bytes this step emits open the not-yet-written part of the
            // stream, whatever happens to the buffer.
            if !is_first && p == prev_at {
                if run_at + 1 == 62 || is_last {
                    lemma_chunk_run_flush(pxw, i as int, run_at, table_at, prev_at);
                }
            } else {
                if run_at > 0 {
                    lemma_chunk_flush_only(pxw, i as int, run_at, table_at, prev_at);
                    lemma_chunk_op(pxw, i as int, table_at, prev_at);
                } else {
                    lemma_chunk_op(pxw, i as int, table_at, prev_at);
                }
            }
        }

        match encode_pixel(header, &mut window, &mut out, &mut table, &prev, &mut run, is_last,
            is_first) {
            Err(e) => {
                proof {
                    // The step did not fit, so the whole encoding does not.
                    assert(out_at.pos() + spec_encode_ops(
                        pxw.skip(j),
                        table_at,
                        prev_at,
                        j == 0,
                    ).len() == g_all.len());
                    if !is_first && p == prev_at && !(run_at + 1 == 62 || is_last) {
                        assert(false);
                    }
                    assert(g_all.len() + 8 > bseq0.len());
                }
                *buffer = out.into_vec();
                return Err(e);
            },
            Ok(q) => {
                prev = q;
                is_first = false;
                proof {
                    assert(out.seq().take(out.pos()) =~= out_at.seq().take(out_at.pos())
                        + emitted);
                    assert forall|k: int| out.pos() <= k < out.seq().len() implies out.seq()[k]
                        == bseq0[k] by {
                        assert(out.seq()[k] == out_at.seq()[k]);
                    }
                    if !(i == 0) && p == prev_at {
                        // The pixel extends a run: the index entry it writes
                        // back is already in place.
                        assert(table@ =~= table_at);
                        if run_at + 1 == 62 || is_last {
                            assert(out.seq().take(out.pos()) + spec_encode_ops(
                                pxw.skip(i + 1),
                                table@,
                                prev,
                                false,
                            ) =~= g_all);
                        } else {
                            assert(pxw.skip(window.pos() - run) == pxw.skip(j));
                        }
                    } else {
                        assert(out.seq().take(out.pos()) + spec_encode_ops(
                            pxw.skip(i + 1),
                            table@,
                            prev,
                            false,
                        ) =~= g_all);
                    }
                }
            },
        }
    }

    proof {
        assert(run == 0);
        lemma_encode_ops_nil(
            pxw.skip(window.pos()),
            table@,
            prev,
            window.pos() - run == 0 && window.pos() == 0,
        );
        assert(spec_encode_ops(pxw.skip(window.pos() - run), table@, prev, window.pos() - run == 0)
            == Seq::<u8>::empty());
        assert(out.seq().take(out.pos()) + Seq::<u8>::empty() =~= out.seq().take(out.pos()));
        assert(out.seq().take(out.pos()) == g_all);
    }

    let mut em: Vec<u8> = Vec::new();
    em.push(0);
    em.push(0);
    em.push(0);
    em.push(0);
    em.push(0);
    em.push(0);
    em.push(0);
    em.push(1);
    proof {
        assert(em@ =~= crate::model::spec_end_marker());
    }
    let ghost out_g = out;
    if !out.copy_from_slice(em.as_slice()) {
        let received = out.len();
        let e = EncodeError::buffer_too_small(header, received);
        *buffer = out.into_vec();
        return Err(e);
    }
    let written = out.idx();
    proof {
        assert(out.seq().take(out.pos()) =~= g_all + crate::model::spec_end_marker());
        assert(crate::model::spec_encoded_bytes(*header, pxw) == g_all
            + crate::model::spec_end_marker());
    }
    let out_vec = out.into_vec();
    *buffer = out_vec;
    proof {
        let bytes = crate::model::spec_encoded_bytes(*header, pxw);
        assert(final(buffer)@ =~= bytes + bseq0.skip(bytes.len() as int));
    }
    Ok(written)
}

/// Encode into a freshly allocated buffer sized by `max_size`, truncated to
/// the bytes actually written.
pub fn encode_allocated(header: &Header, pixels: &[Pixel]) -> (r: Result<Vec<u8>, EncodeError>)
    ensures
        match r {
            Ok(v) => spec_encode_result(
                *header,
                pixels@,
                usize_sat(header.spec_max_size()) as nat,
            ) matches Ok(bytes) && v@ == bytes,
            Err(e) => spec_encode_result(
                *header,
                pixels@,
                usize_sat(header.spec_max_size()) as nat,
            ) matches Err(i) && encode_issue_matches(e, i),
        },
{
    proof {
        lemma_u32_mul_fits_u64(header.width, header.height);
    }
    let n64 = (header.width as u64) * (header.height as u64);
    let per = header.max_bytes_per_pixel_small();
    proof {
        assert((n64 as int) * (per as int) <= (u64::MAX as int) * 5int && 0 <= (n64 as int) * (
        per as int)) by (nonlinear_arith)
            requires
                n64 <= u64::MAX,
                0 <= n64,
                1 <= per <= 5,
        ;
    }
    let m128: u128 = (n64 as u128) * (per as u128) + 22;
    let m: usize = if m128 > usize::MAX as u128 {
        usize::MAX
    } else {
        m128 as usize
    };
    let mut buffer: Vec<u8> = Vec::new();
    while buffer.len() < m
        invariant
            buffer@.len() <= m,
        decreases m - buffer@.len(),
    {
        buffer.push(0);
    }
    let out_size = match encode(header, pixels, &mut buffer) {
        Ok(out_size) => out_size,
        Err(e) => {
            return Err(e);
        },
    };
    buffer.truncate(out_size);
    proof {
        match spec_encode_result(*header, pixels@, usize_sat(header.spec_max_size()) as nat) {
            Ok(bytes) => {
                assert(buffer@ =~= bytes);
            },
            Err(_) => {},
        }
    }
    Ok(buffer)
}

} // verus!
