//! The laws of the codec, stated over the model and proved once and for all:
//! a decoded encoding gives back the original image, the header survives the
//! round trip, and the boundary behaviour of runs, the first pixel, and the
//! delta opcodes is what the format promises.
use crate::model::spec_decode_ops;
use crate::model::spec_decode_result;
use crate::model::spec_encode_ops;
use crate::model::spec_encoded_bytes;
use crate::model::spec_end_marker;
use crate::model::spec_header_bytes;
use crate::model::spec_init_table;
use crate::model::spec_opcode_for;
use crate::model::spec_parse_header;
use crate::model::spec_run_chunk;
use crate::model::DecodeIssue;
use crate::model::StreamFault;
use crate::util::spec_pixel_hash;
use crate::util::Header;
use crate::util::Pixel;
use vstd::prelude::*;

verus! {

/// Every pixel within the leading run equals the previous pixel.
proof fn lemma_lead_run_prefix(px: Seq<Pixel>, prev: Pixel)
    ensures
        forall|t: int| 0 <= t < crate::model::spec_lead_run(px, prev) ==> px[t] == prev,
    decreases px.len(),
{
    crate::model::lemma_lead_run_le(px, prev);
    if px.len() != 0 && px[0] == prev {
        lemma_lead_run_prefix(px.skip(1), prev);
        crate::model::lemma_lead_run_le(px.skip(1), prev);
        assert forall|t: int| 0 <= t < crate::model::spec_lead_run(px, prev) implies px[t]
            == prev by {
            if t > 0 {
                assert(px.skip(1)[t - 1] == px[t]);
            }
        }
    }
}

/// The opcode stream of at least one pixel is nonempty, and its first byte
/// is never zero while the previous pixel sits in table slot zero: a zero
/// byte names slot zero, which already holds the previous pixel, and a
/// repeat of the previous pixel becomes a run byte instead.
proof fn lemma_first_op_byte_nonzero(px: Seq<Pixel>, table: Seq<Pixel>, prev: Pixel)
    requires
        px.len() > 0,
        table.len() == 64,
        table[0] == prev,
    ensures
        spec_encode_ops(px, table, prev, false).len() > 0,
        spec_encode_ops(px, table, prev, false)[0] != 0,
{
    reveal(crate::model::spec_encode_ops);
    if px[0] == prev {
        crate::model::lemma_lead_run_le(px, prev);
    } else {
        let op = spec_opcode_for(px[0], table, prev);
        if table[spec_pixel_hash(px[0])] == px[0] {
            assert(spec_pixel_hash(px[0]) != 0);
        }
        assert(op[0] != 0);
    }
}

/// Reading back the biased two-bit deltas of a DIFF byte restores the pixel
/// they were computed from.
proof fn lemma_diff_pixel_inverse(prev: Pixel, p: Pixel)
    requires
        crate::model::spec_diff_fits(prev, p),
    ensures
        ({
            let b = (64 + crate::model::spec_diff_delta(prev.r, p.r) * 16
                + crate::model::spec_diff_delta(prev.g, p.g) * 4 + crate::model::spec_diff_delta(
                prev.b,
                p.b,
            )) as u8;
            crate::model::spec_diff_pixel(prev, b) == p
        }),
{
    let dr = crate::model::spec_diff_delta(prev.r, p.r);
    let dg = crate::model::spec_diff_delta(prev.g, p.g);
    let db = crate::model::spec_diff_delta(prev.b, p.b);
    let b = (64 + dr * 16 + dg * 4 + db) as u8;
    assert(b / 16 % 4 == dr && b / 4 % 4 == dg && b % 4 == db) by (bit_vector)
        requires
            dr <= 3,
            dg <= 3,
            db <= 3,
            b == (64 + dr * 16 + dg * 4 + db) as u8,
    ;
}

/// Reading back the biased luma deltas of a LUMA opcode restores the pixel
/// they were computed from.
proof fn lemma_luma_pixel_inverse(prev: Pixel, p: Pixel)
    requires
        crate::model::spec_luma_fits(prev, p),
    ensures
        ({
            let b = (128 + crate::model::spec_luma_dg(prev, p)) as u8;
            let c = (crate::model::spec_luma_dr_dg(prev, p) * 16 + crate::model::spec_luma_db_dg(
                prev,
                p,
            )) as u8;
            crate::model::spec_luma_pixel(prev, b, c) == p
        }),
{
    let dg2 = crate::model::spec_luma_dg(prev, p);
    let drdg = crate::model::spec_luma_dr_dg(prev, p);
    let dbdg = crate::model::spec_luma_db_dg(prev, p);
    let b = (128 + dg2) as u8;
    let c = (drdg * 16 + dbdg) as u8;
    assert(b % 64 == dg2 && c / 16 == drdg && c % 16 == dbdg) by (bit_vector)
        requires
            dg2 <= 63,
            drdg <= 15,
            dbdg <= 15,
            b == (128 + dg2) as u8,
            c == (drdg * 16 + dbdg) as u8,
    ;
}

/// One run chunk decodes back to the pixels it stands for, given that the
/// rest of the stream decodes back to the rest of the pixels.
proof fn lemma_rt_run_step(px: Seq<Pixel>, table: Seq<Pixel>, prev: Pixel, cap: nat)
    requires
        table.len() == 64,
        px.len() >= 1,
        cap >= px.len(),
        px[0] == prev,
        ({
            let k = spec_run_chunk(px, prev) as int;
            spec_decode_ops(
                spec_encode_ops(px.skip(k), table.update(spec_pixel_hash(prev), prev), prev, false)
                    + spec_end_marker(),
                table.update(spec_pixel_hash(prev), prev),
                prev,
                (cap - k) as nat,
            ) == Ok::<Seq<Pixel>, StreamFault>(px.skip(k))
        }),
    ensures
        spec_decode_ops(
            spec_encode_ops(px, table, prev, false) + spec_end_marker(),
            table,
            prev,
            cap,
        ) == Ok::<Seq<Pixel>, StreamFault>(px),
{
    reveal(crate::model::spec_encode_ops);
    reveal(crate::model::spec_decode_ops);
    reveal(crate::model::spec_decode_emit_one);
    crate::model::lemma_lead_run_le(px, prev);
    lemma_lead_run_prefix(px, prev);
    let k = spec_run_chunk(px, prev) as int;
    assert(1 <= k <= 62);
    assert(k <= px.len());
    let byte = (192 + k - 1) as u8;
    let table2 = table.update(spec_pixel_hash(prev), prev);
    let enc2 = spec_encode_ops(px.skip(k), table2, prev, false);
    let enc = spec_encode_ops(px, table, prev, false);
    assert(enc == seq![byte] + enc2);
    let bytes = enc + spec_end_marker();
    assert(bytes.len() >= 9);
    assert(bytes[0] == byte);
    assert(byte / 64 == 3 && byte != 254 && byte != 255 && (byte % 64) + 1 == k);
    assert(bytes.take(8) != spec_end_marker()) by {
        assert(bytes.take(8)[0] == byte && spec_end_marker()[0] == 0);
    }
    assert(bytes.skip(1) =~= enc2 + spec_end_marker());
    assert(spec_decode_ops(bytes, table, prev, cap) == Ok::<Seq<Pixel>, StreamFault>(
        Seq::new(k as nat, |t: int| prev) + px.skip(k),
    ));
    assert(Seq::new(k as nat, |t: int| prev) + px.skip(k) =~= px);
}

/// The stream starting at one decoded pixel continues, after that pixel is
/// stored, with the rest of the stream.
proof fn lemma_emit_ok(
    bytes2: Seq<u8>,
    table: Seq<Pixel>,
    p: Pixel,
    cap: nat,
    rest: Seq<Pixel>,
)
    requires
        cap > 0,
        spec_decode_ops(bytes2, table.update(spec_pixel_hash(p), p), p, (cap - 1) as nat) == Ok::<
            Seq<Pixel>,
            StreamFault,
        >(rest),
    ensures
        crate::model::spec_decode_emit_one(bytes2, table, p, cap) == Ok::<Seq<Pixel>, StreamFault>(
            seq![p] + rest,
        ),
{
    reveal(crate::model::spec_decode_ops);
    reveal(crate::model::spec_decode_emit_one);
}

/// One single-pixel opcode decodes back to its pixel, given that the rest
/// of the stream decodes back to the rest of the pixels.
proof fn lemma_rt_op_step(px: Seq<Pixel>, table: Seq<Pixel>, prev: Pixel, first: bool, cap: nat)
    requires
        table.len() == 64,
        px.len() >= 1,
        cap >= px.len(),
        first || px[0] != prev,
        spec_decode_ops(
            spec_encode_ops(
                px.skip(1),
                table.update(spec_pixel_hash(px[0]), px[0]),
                px[0],
                false,
            ) + spec_end_marker(),
            table.update(spec_pixel_hash(px[0]), px[0]),
            px[0],
            (cap - 1) as nat,
        ) == Ok::<Seq<Pixel>, StreamFault>(px.skip(1)),
    ensures
        spec_decode_ops(
            spec_encode_ops(px, table, prev, first) + spec_end_marker(),
            table,
            prev,
            cap,
        ) == Ok::<Seq<Pixel>, StreamFault>(px),
{
    let p0 = px[0];
    let op = spec_opcode_for(p0, table, prev);
    let table2 = table.update(spec_pixel_hash(p0), p0);
    let enc2 = spec_encode_ops(px.skip(1), table2, p0, false);
    let enc = spec_encode_ops(px, table, prev, first);
    assert(enc == op + enc2) by {
        reveal(crate::model::spec_encode_ops);
    }
    let bytes = enc + spec_end_marker();
    assert(seq![p0] + px.skip(1) =~= px);
    assert(bytes.len() >= op.len() + 8);

    if table[spec_pixel_hash(p0)] == p0 {
        let b = spec_pixel_hash(p0) as u8;
        assert(bytes[0] == b && b < 64 && b / 64 == 0);
        if b == 0 {
            if enc2.len() == 0 {
                assert(bytes.take(8) != spec_end_marker()) by {
                    assert(bytes.take(8)[7] == bytes[7] && bytes[7] == spec_end_marker()[6]);
                    assert(spec_end_marker()[6] == 0 && spec_end_marker()[7] == 1);
                }
            } else {
                assert(table2[0] == p0) by {
                    assert(spec_pixel_hash(p0) == 0);
                }
                assert(px.skip(1).len() > 0) by {
                    if px.len() < 2 {
                        reveal(crate::model::spec_encode_ops);
                        assert(enc2.len() == 0);
                    }
                }
                lemma_first_op_byte_nonzero(px.skip(1), table2, p0);
                assert(bytes.take(8) != spec_end_marker()) by {
                    assert(bytes.take(8)[1] == enc2[0] && spec_end_marker()[1] == 0);
                }
            }
        } else {
            assert(bytes.take(8) != spec_end_marker()) by {
                assert(bytes.take(8)[0] == b && spec_end_marker()[0] == 0);
            }
        }
        assert(table[b as int] == p0);
        crate::decode::lemma_unfold_index(bytes, table, prev, cap, p0);
        assert(bytes.skip(1) =~= enc2 + spec_end_marker());
        lemma_emit_ok(bytes.skip(1), table, p0, cap, px.skip(1));
    } else if crate::model::spec_diff_fits(prev, p0) {
        let b = (64 + crate::model::spec_diff_delta(prev.r, p0.r) * 16
            + crate::model::spec_diff_delta(prev.g, p0.g) * 4 + crate::model::spec_diff_delta(
            prev.b,
            p0.b,
        )) as u8;
        assert(bytes[0] == b && 64 <= b < 128 && b / 64 == 1);
        assert(bytes.take(8) != spec_end_marker()) by {
            assert(bytes.take(8)[0] == b && spec_end_marker()[0] == 0);
        }
        lemma_diff_pixel_inverse(prev, p0);
        crate::decode::lemma_unfold_diff(bytes, table, prev, cap, p0);
        assert(bytes.skip(1) =~= enc2 + spec_end_marker());
        lemma_emit_ok(bytes.skip(1), table, p0, cap, px.skip(1));
    } else if crate::model::spec_luma_fits(prev, p0) {
        let b = (128 + crate::model::spec_luma_dg(prev, p0)) as u8;
        let c = (crate::model::spec_luma_dr_dg(prev, p0) * 16 + crate::model::spec_luma_db_dg(
            prev,
            p0,
        )) as u8;
        assert(bytes[0] == b && bytes[1] == c && 128 <= b < 192 && b / 64 == 2);
        assert(bytes.take(8) != spec_end_marker()) by {
            assert(bytes.take(8)[0] == b && spec_end_marker()[0] == 0);
        }
        lemma_luma_pixel_inverse(prev, p0);
        crate::decode::lemma_unfold_luma(bytes, table, prev, cap, p0);
        assert(bytes.skip(2) =~= enc2 + spec_end_marker());
        lemma_emit_ok(bytes.skip(2), table, p0, cap, px.skip(1));
    } else if p0.a == prev.a {
        assert(bytes[0] == 254 && bytes[1] == p0.r && bytes[2] == p0.g && bytes[3] == p0.b);
        assert(bytes.take(8) != spec_end_marker()) by {
            assert(bytes.take(8)[0] == 254u8 && spec_end_marker()[0] == 0);
        }
        crate::decode::lemma_unfold_rgb(bytes, table, prev, cap, p0);
        assert(bytes.skip(4) =~= enc2 + spec_end_marker());
        lemma_emit_ok(bytes.skip(4), table, p0, cap, px.skip(1));
    } else {
        assert(bytes[0] == 255 && bytes[1] == p0.r && bytes[2] == p0.g && bytes[3] == p0.b
            && bytes[4] == p0.a);
        assert(bytes.take(8) != spec_end_marker()) by {
            assert(bytes.take(8)[0] == 255u8 && spec_end_marker()[0] == 0);
        }
        crate::decode::lemma_unfold_rgba(bytes, table, prev, cap, p0);
        assert(bytes.skip(5) =~= enc2 + spec_end_marker());
        lemma_emit_ok(bytes.skip(5), table, p0, cap, px.skip(1));
    }
}

/// The opcode stream of any pixel sequence, followed by the end marker,
/// decodes back to exactly that sequence, from any shared rolling state
/// whose output window has room for it.
pub proof fn lemma_decode_encode_ops(
    px: Seq<Pixel>,
    table: Seq<Pixel>,
    prev: Pixel,
    first: bool,
    cap: nat,
)
    ensures
        table.len() == 64 && cap >= px.len() ==> spec_decode_ops(
            spec_encode_ops(px, table, prev, first) + spec_end_marker(),
            table,
            prev,
            cap,
        ) == Ok::<Seq<Pixel>, StreamFault>(px),
    decreases px.len(),
{
    if table.len() == 64 && cap >= px.len() {
        if px.len() == 0 {
            reveal(crate::model::spec_encode_ops);
            reveal(crate::model::spec_decode_ops);
            let bytes = spec_encode_ops(px, table, prev, first) + spec_end_marker();
            assert(bytes =~= spec_end_marker());
            assert(bytes.take(8) =~= spec_end_marker());
            assert(px =~= Seq::<Pixel>::empty());
        } else if !first && px[0] == prev {
            crate::model::lemma_lead_run_le(px, prev);
            let k = spec_run_chunk(px, prev) as int;
            assert(1 <= k <= px.len()) by {
                reveal(crate::model::spec_encode_ops);
            }
            lemma_decode_encode_ops(
                px.skip(k),
                table.update(spec_pixel_hash(prev), prev),
                prev,
                false,
                (cap - k) as nat,
            );
            lemma_rt_run_step(px, table, prev, cap);
        } else {
            lemma_decode_encode_ops(
                px.skip(1),
                table.update(spec_pixel_hash(px[0]), px[0]),
                px[0],
                false,
                (cap - 1) as nat,
            );
            lemma_rt_op_step(px, table, prev, first, cap);
        }
    }
}

/// Header round-trip law: the 14 header bytes of any header parse back to
/// that header, whatever follows them.
pub proof fn lemma_header_roundtrip(h: Header, rest: Seq<u8>)
    ensures
        spec_parse_header(spec_header_bytes(h) + rest) == Ok::<Header, DecodeIssue>(h),
{
    let bytes = spec_header_bytes(h) + rest;
    assert(bytes.take(4) =~= crate::model::spec_magic());
    lemma_u32_be_roundtrip(h.width);
    lemma_u32_be_roundtrip(h.height);
    assert(bytes[4] == crate::model::spec_u32_be(h.width)[0] && bytes[5]
        == crate::model::spec_u32_be(h.width)[1] && bytes[6] == crate::model::spec_u32_be(
        h.width,
    )[2] && bytes[7] == crate::model::spec_u32_be(h.width)[3]);
    assert(bytes[8] == crate::model::spec_u32_be(h.height)[0] && bytes[9]
        == crate::model::spec_u32_be(h.height)[1] && bytes[10] == crate::model::spec_u32_be(
        h.height,
    )[2] && bytes[11] == crate::model::spec_u32_be(h.height)[3]);
    assert(bytes[12] == h.channels.spec_as_u8() && bytes[13] == h.colorspace.spec_as_u8());
}

/// A 32-bit value survives the trip through its big-endian bytes.
pub proof fn lemma_u32_be_roundtrip(x: u32)
    ensures
        ({
            let b = crate::model::spec_u32_be(x);
            crate::model::spec_u32_from_be(b[0], b[1], b[2], b[3]) == x
        }),
{
    assert((x / 0x1000000) < 256 && ((x / 0x1000000) as u8) == x / 0x1000000 && (((x / 0x10000)
        % 256) as u8) == (x / 0x10000) % 256 && (((x / 256) % 256) as u8) == (x / 256) % 256 && ((x
        % 256) as u8) == x % 256 && (x / 0x1000000) * 0x1000000 + ((x / 0x10000) % 256) * 0x10000 + (
    (x / 256) % 256) * 256 + (x % 256) == x) by (bit_vector);
}

/// Round-trip law: decoding the encoding of any image, into an output
/// window of exactly the declared pixel count, returns the original header
/// and pixels.
pub proof fn lemma_encode_decode_roundtrip(h: Header, px: Seq<Pixel>)
    requires
        px.len() == h.spec_pixel_amount(),
    ensures
        spec_decode_result(spec_encoded_bytes(h, px), px.len() as nat) == Ok::<
            (Header, Seq<Pixel>),
            DecodeIssue,
        >((h, px)),
{
    let enc = spec_encode_ops(px, spec_init_table(), Pixel::spec_def(), true);
    let bytes = spec_encoded_bytes(h, px);
    assert(bytes == spec_header_bytes(h) + (enc + spec_end_marker())) by {
        assert(bytes =~= spec_header_bytes(h) + (enc + spec_end_marker()));
    }
    lemma_header_roundtrip(h, enc + spec_end_marker());
    assert(bytes.skip(14) =~= enc + spec_end_marker());
    assert(spec_init_table().len() == 64);
    lemma_decode_encode_ops(px, spec_init_table(), Pixel::spec_def(), true, px.len() as nat);
}

/// Round-trip law over the entry points' result specifications: whenever an
/// encode of a full image succeeds, decoding its bytes into a window of the
/// declared pixel count returns the original header and pixels.
pub proof fn lemma_encode_then_decode(h: Header, px: Seq<Pixel>, buf_len: nat)
    requires
        px.len() == h.spec_pixel_amount(),
        crate::model::spec_encode_result(h, px, buf_len) is Ok,
    ensures
        crate::model::spec_encode_result(h, px, buf_len) matches Ok(bytes)
            && spec_decode_result(bytes, px.len() as nat) == Ok::<(Header, Seq<Pixel>), DecodeIssue>(
            (h, px),
        ),
{
    assert(px.take(px.len() as int) =~= px);
    lemma_encode_decode_roundtrip(h, px);
}

/// Empty-image law: an image of no pixels encodes to just the header and
/// the end marker, and decoding that yields no pixels.
pub proof fn lemma_empty_image(h: Header, px: Seq<Pixel>)
    requires
        h.spec_pixel_amount() == 0,
        px.len() == 0,
    ensures
        spec_encoded_bytes(h, px) == spec_header_bytes(h) + spec_end_marker(),
        spec_decode_result(spec_encoded_bytes(h, px), 0) == Ok::<(Header, Seq<Pixel>), DecodeIssue>(
            (h, Seq::empty()),
        ),
{
    reveal(crate::model::spec_encode_ops);
    assert(spec_encoded_bytes(h, px) =~= spec_header_bytes(h) + spec_end_marker());
    lemma_encode_decode_roundtrip(h, px);
    assert(px =~= Seq::<Pixel>::empty());
}

/// A run of exactly 62 repeats followed by a differing pixel emits one full
/// run byte, and the stream continues with the differing pixel's own opcode.
pub proof fn lemma_run_62_then_pixel(px: Seq<Pixel>, table: Seq<Pixel>, prev: Pixel)
    requires
        table.len() == 64,
        table[spec_pixel_hash(prev)] == prev,
        px.len() >= 63,
        forall|t: int| 0 <= t < 62 ==> px[t] == prev,
        px[62] != prev,
    ensures
        spec_encode_ops(px, table, prev, false) == seq![253u8] + spec_opcode_for(px[62], table, prev)
            + spec_encode_ops(
            px.skip(63),
            table.update(spec_pixel_hash(px[62]), px[62]),
            px[62],
            false,
        ),
{
    reveal(crate::model::spec_encode_ops);
    crate::model::lemma_lead_run_exact(px, prev, 62);
    assert(spec_run_chunk(px, prev) == 62);
    assert(px[0] == prev);
    assert(table.update(spec_pixel_hash(prev), prev) =~= table);
    let mid = px.skip(62);
    assert(mid[0] == px[62]);
    assert(spec_encode_ops(px, table, prev, false) == seq![253u8] + spec_encode_ops(
        mid,
        table,
        prev,
        false,
    ));
    assert(mid.skip(1) =~= px.skip(63));
    assert(spec_encode_ops(mid, table, prev, false) == spec_opcode_for(px[62], table, prev)
        + spec_encode_ops(
        px.skip(63),
        table.update(spec_pixel_hash(px[62]), px[62]),
        px[62],
        false,
    ));
    assert(seq![253u8] + (spec_opcode_for(px[62], table, prev) + spec_encode_ops(
        px.skip(63),
        table.update(spec_pixel_hash(px[62]), px[62]),
        px[62],
        false,
    )) =~= seq![253u8] + spec_opcode_for(px[62], table, prev) + spec_encode_ops(
        px.skip(63),
        table.update(spec_pixel_hash(px[62]), px[62]),
        px[62],
        false,
    ));
}

/// A run of 63 repeats splits into two run opcodes: one of 62 and one of 1,
/// stored with lengths 61 and 0 in the low six bits.
pub proof fn lemma_run_63(px: Seq<Pixel>, table: Seq<Pixel>, prev: Pixel)
    requires
        table.len() == 64,
        table[spec_pixel_hash(prev)] == prev,
        px.len() == 63,
        forall|t: int| 0 <= t < 63 ==> px[t] == prev,
    ensures
        spec_encode_ops(px, table, prev, false) == seq![253u8, 192u8],
{
    reveal(crate::model::spec_encode_ops);
    crate::model::lemma_lead_run_exact(px, prev, 63);
    assert(spec_run_chunk(px, prev) == 62);
    assert(px[0] == prev);
    assert(table.update(spec_pixel_hash(prev), prev) =~= table);
    let mid = px.skip(62);
    assert(mid.len() == 1 && mid[0] == px[62] && px[62] == prev);
    crate::model::lemma_lead_run_exact(mid, prev, 1);
    assert(spec_run_chunk(mid, prev) == 1);
    assert(mid.skip(1).len() == 0);
    assert(spec_encode_ops(
        mid.skip(1),
        table.update(spec_pixel_hash(prev), prev),
        prev,
        false,
    ) == Seq::<u8>::empty());
    assert(spec_encode_ops(mid, table, prev, false) == seq![192u8] + Seq::<u8>::empty());
    assert(seq![253u8] + (seq![192u8] + Seq::<u8>::empty()) =~= seq![253u8, 192u8]);
}

/// First-pixel law: a first pixel equal to the default predecessor is not a
/// run and does not match its index slot (which still holds transparent
/// black), so it is emitted as a DIFF byte with all biased deltas of two.
pub proof fn lemma_first_pixel_default(px: Seq<Pixel>)
    requires
        px.len() >= 1,
        px[0] == Pixel::spec_def(),
    ensures
        spec_opcode_for(px[0], spec_init_table(), Pixel::spec_def()) == seq![106u8],
        spec_encode_ops(px, spec_init_table(), Pixel::spec_def(), true) == seq![106u8]
            + spec_encode_ops(
            px.skip(1),
            spec_init_table().update(53, Pixel::spec_def()),
            px[0],
            false,
        ),
{
    reveal(crate::model::spec_encode_ops);
    let def = Pixel::spec_def();
    assert(spec_pixel_hash(def) == 53);
    assert(spec_init_table()[53] == Pixel::spec_zero());
    assert(spec_opcode_for(def, spec_init_table(), def) == seq![106u8]);
}

/// A pixel whose channels all moved down by 33 against an unchanged alpha
/// fits neither DIFF (the biased deltas leave the two-bit range) nor LUMA
/// (the biased green delta leaves the six-bit range) and is emitted as an
/// RGB opcode, if it also misses its index slot.
pub proof fn lemma_green_delta_rgb(table: Seq<Pixel>, prev: Pixel, p: Pixel)
    requires
        table.len() == 64,
        table[spec_pixel_hash(p)] != p,
        p.a == prev.a,
        p.r == prev.r.wrapping_sub(33),
        p.g == prev.g.wrapping_sub(33),
        p.b == prev.b.wrapping_sub(33),
    ensures
        spec_opcode_for(p, table, prev) == seq![254u8, p.r, p.g, p.b],
{
    assert(crate::model::spec_diff_delta(prev.g, p.g) == 225);
    assert(crate::model::spec_luma_dg(prev, p) == 255);
}

/// A pixel whose alpha differs from its predecessor's fits no delta opcode
/// and is emitted as an RGBA opcode, if it also misses its index slot.
pub proof fn lemma_alpha_change_rgba(table: Seq<Pixel>, prev: Pixel, p: Pixel)
    requires
        table.len() == 64,
        table[spec_pixel_hash(p)] != p,
        p.a != prev.a,
    ensures
        spec_opcode_for(p, table, prev) == seq![255u8, p.r, p.g, p.b, p.a],
{
}

} // verus!
