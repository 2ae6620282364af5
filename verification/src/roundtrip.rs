//! The round-trip theorem: decoding what the encoder emitted gives the
//! pixels back, byte stream and all.
//!
//! The induction walks the pixel sequence with the encoder's state and a
//! decoder state known to match it: the same previous pixel, and a table
//! relation that tolerates the one slot where they may differ — the
//! decoder may hold the initial pixel, seeded for a leading RUN, where
//! the encoder still holds the zero pixel.

use vstd::prelude::*;

use crate::header::{
    end_marker, header_bytes, lemma_header_round_trip, magic_seq, parse_header_spec, QOIHeader,
};
use crate::hia::{bulk_update, init_hia, lemma_bulk_update_len, lemma_bulk_update_snoc};
use crate::model::{
    decode_body, decode_body_spec, decode_stream, diff_apply, diff_byte, emit_px, emit_state,
    encode_body, encode_body_spec, encode_stream, flush_run, lemma_decode_diff, lemma_decode_end,
    lemma_decode_index, lemma_decode_luma, lemma_decode_rgb, lemma_decode_rgba, lemma_decode_run,
    lemma_emit_diff, lemma_emit_index, lemma_emit_luma, lemma_emit_rgb, lemma_emit_rgba,
    luma_apply, run_byte,
};
use crate::pixel::{px_hash, wadd, wsub, Pixel};

verus! {

/// `run` copies of one pixel.
pub open spec fn run_pixels(run: int, p: Pixel) -> Seq<Pixel> {
    Seq::new(run as nat, |i: int| p)
}

/// How the encoder's table and the decoder's fully-synchronized table
/// relate: equal slot by slot, except that the slot of the initial
/// pixel may hold it on the decoder's side while the encoder still has
/// the zero pixel there.
pub open spec fn hia_rel(e: Seq<Pixel>, f: Seq<Pixel>) -> bool {
    forall|h: int|
        0 <= h < 64 ==> (#[trigger] f[h] == e[h] || (e[h] == Pixel::zero() && h == px_hash(
            Pixel::initial(),
        ) && f[h] == Pixel::initial()))
}

/// Decoding the encoder's remaining output from a matching state yields
/// the pending run and the remaining pixels.
proof fn lemma_enc_dec(
    pixels: Seq<Pixel>,
    prev: Pixel,
    run: int,
    hia_e: Seq<Pixel>,
    hia_d: Seq<Pixel>,
    pending: Seq<Pixel>,
)
    requires
        0 <= run <= 61,
        hia_e.len() == 64,
        hia_d.len() == 64,
        hia_rel(hia_e, bulk_update(hia_d, pending)),
    ensures
        decode_body(encode_body(pixels, prev, run, hia_e), prev, hia_d, pending) == Some(
            run_pixels(run, prev) + pixels,
        ),
    decreases pixels.len(), 0int,
{
    let f = bulk_update(hia_d, pending);
    lemma_bulk_update_len(hia_d, pending);
    if pixels.len() == 0 {
        if run == 0 {
            lemma_decode_end(prev, hia_d, pending);
            assert(encode_body(pixels, prev, run, hia_e) =~= Seq::<u8>::empty());
            assert(run_pixels(0, prev) + pixels =~= Seq::<Pixel>::empty());
        } else {
            let rb = run_byte(run);
            let bytes = flush_run(run);
            assert(bytes[0] == rb);
            assert(0xc0 <= rb && rb < 0xfe);
            lemma_decode_run(bytes, prev, hia_d, pending);
            assert(bytes.skip(1) =~= Seq::<u8>::empty());
            lemma_decode_end(prev, f, Seq::empty());
            assert((rb - 0xc0) + 1 == run);
            assert(run_pixels(run, prev) + Seq::<Pixel>::empty() =~= run_pixels(run, prev)
                + pixels);
        }
    } else {
        let cur = pixels[0];
        let rest = pixels.skip(1);
        if cur == prev {
            if run == 61 {
                let tailb = encode_body(rest, prev, 0, hia_e);
                let bytes = seq![0xfdu8] + tailb;
                assert(encode_body(pixels, prev, run, hia_e) == bytes);
                assert(bytes[0] == 0xfd);
                lemma_decode_run(bytes, prev, hia_d, pending);
                assert(bytes.skip(1) =~= tailb);
                lemma_enc_dec(rest, prev, 0, hia_e, f, Seq::empty());
                assert(run_pixels(0, prev) + rest =~= rest);
                assert((0xfdu8 - 0xc0) + 1 == 62);
                assert(run_pixels(62, prev) + rest =~= run_pixels(61, prev) + pixels);
            } else {
                lemma_enc_dec(rest, prev, run + 1, hia_e, hia_d, pending);
                assert(run_pixels(run + 1, prev) + rest =~= run_pixels(run, prev) + pixels);
            }
        } else {
            let opb = emit_px(prev, hia_e, cur);
            let tailb = encode_body(rest, cur, 0, emit_state(hia_e, cur));
            if run == 0 {
                assert(encode_body(pixels, prev, run, hia_e) =~= opb + tailb);
                lemma_dec_step(rest, prev, cur, hia_e, hia_d, pending);
                assert(seq![cur] + rest =~= run_pixels(0, prev) + pixels);
            } else {
                let rb = run_byte(run);
                let bytes = flush_run(run) + (opb + tailb);
                assert(encode_body(pixels, prev, run, hia_e) =~= bytes);
                assert(bytes[0] == rb);
                assert(0xc0 <= rb && rb < 0xfe);
                lemma_decode_run(bytes, prev, hia_d, pending);
                assert(bytes.skip(1) =~= opb + tailb);
                assert(bulk_update(f, Seq::<Pixel>::empty()) == f);
                lemma_dec_step(rest, prev, cur, hia_e, f, Seq::empty());
                assert((rb - 0xc0) + 1 == run);
                assert(run_pixels(run, prev) + (seq![cur] + rest) =~= run_pixels(run, prev)
                    + pixels);
            }
        }
    }
}

/// Decoding one emitted op and the encoder's remaining output yields the
/// emitted pixel and the remaining pixels.
proof fn lemma_dec_step(
    rest: Seq<Pixel>,
    prev: Pixel,
    cur: Pixel,
    hia_e: Seq<Pixel>,
    hia_d: Seq<Pixel>,
    pending: Seq<Pixel>,
)
    requires
        cur != prev,
        hia_e.len() == 64,
        hia_d.len() == 64,
        hia_rel(hia_e, bulk_update(hia_d, pending)),
    ensures
        decode_body(
            emit_px(prev, hia_e, cur) + encode_body(rest, cur, 0, emit_state(hia_e, cur)),
            prev,
            hia_d,
            pending,
        ) == Some(seq![cur] + rest),
    decreases rest.len(), 1int,
{
    let f = bulk_update(hia_d, pending);
    lemma_bulk_update_len(hia_d, pending);
    let h = px_hash(cur);
    let hia_e2 = emit_state(hia_e, cur);
    let tailb = encode_body(rest, cur, 0, hia_e2);
    let opb = emit_px(prev, hia_e, cur);
    let bytes = opb + tailb;

    if hia_e[h] == cur {
        // INDEX: the decoder's slot must agree; the seeded-slot
        // exception cannot bite, for the zero pixel hashes to zero, not
        // to the initial pixel's slot.
        lemma_emit_index(prev, hia_e, cur);
        assert(bytes[0] == h as u8);
        assert(px_hash(Pixel::zero()) == 0);
        assert(px_hash(Pixel::initial()) == 53);
        assert(f[h] == cur);
        lemma_decode_index(bytes, prev, hia_d, pending);
        assert(bytes.skip(1) =~= tailb);
        assert(bulk_update(f, seq![cur]) == f.update(h, cur)) by {
            lemma_bulk_update_snoc(f, Seq::empty(), cur);
            assert(Seq::<Pixel>::empty().push(cur) =~= seq![cur]);
            assert(bulk_update(f, Seq::<Pixel>::empty()) == f);
        }
        lemma_bulk_update_len(hia_d, pending);
        assert(hia_rel(hia_e2, bulk_update(f, seq![cur])));
        lemma_enc_dec(rest, cur, 0, hia_e2, f, seq![cur]);
        assert(run_pixels(0, cur) + rest =~= rest);
    } else {
        let pend2 = pending.push(cur);
        assert(bulk_update(hia_d, pend2) == f.update(h, cur)) by {
            lemma_bulk_update_snoc(hia_d, pending, cur);
        }
        assert(hia_rel(hia_e2, f.update(h, cur)));
        if cur.a != prev.a {
            lemma_emit_rgba(prev, hia_e, cur);
            assert(bytes[0] == 0xff);
            assert(bytes[1] == cur.r);
            assert(bytes[2] == cur.g);
            assert(bytes[3] == cur.b);
            assert(bytes[4] == cur.a);
            lemma_decode_rgba(bytes, prev, hia_d, pending);
            assert(bytes.skip(5) =~= tailb);
            lemma_enc_dec(rest, cur, 0, hia_e2, hia_d, pend2);
            assert(run_pixels(0, cur) + rest =~= rest);
        } else {
            let dr = wsub(cur.r as int, prev.r as int);
            let dg = wsub(cur.g as int, prev.g as int);
            let db = wsub(cur.b as int, prev.b as int);
            let dr2 = wadd(dr as int, 2);
            let dg2 = wadd(dg as int, 2);
            let db2 = wadd(db as int, 2);
            if dr2 < 4 && dg2 < 4 && db2 < 4 {
                lemma_emit_diff(prev, hia_e, cur);
                let bb = diff_byte(dr2, dg2, db2);
                assert(bytes[0] == bb);
                assert(bb == 0x40 + dr2 * 16 + dg2 * 4 + db2);
                assert((bb >> 4) & 3 == dr2 && (bb >> 2) & 3 == dg2 && bb & 3 == db2 && 0x40 <= bb
                    && bb < 0x80) by (bit_vector)
                    requires
                        bb == 0x40 + dr2 * 16 + dg2 * 4 + db2,
                        dr2 < 4,
                        dg2 < 4,
                        db2 < 4,
                ;
                lemma_decode_diff(bytes, prev, hia_d, pending);
                assert(diff_apply(prev, bb) == cur) by {
                    lemma_channel_cancel(prev.r, cur.r, 2);
                    lemma_channel_cancel(prev.g, cur.g, 2);
                    lemma_channel_cancel(prev.b, cur.b, 2);
                }
                assert(bytes.skip(1) =~= tailb);
                lemma_enc_dec(rest, cur, 0, hia_e2, hia_d, pend2);
                assert(run_pixels(0, cur) + rest =~= rest);
            } else {
                let dg32 = wadd(dg as int, 32);
                let drg8 = wadd(wsub(dr as int, dg as int) as int, 8);
                let dbg8 = wadd(wsub(db as int, dg as int) as int, 8);
                if dg32 < 64 && drg8 < 16 && dbg8 < 16 {
                    lemma_emit_luma(prev, hia_e, cur);
                    let b0 = (0x80 + dg32) as u8;
                    let b1 = (drg8 * 16 + dbg8) as u8;
                    assert(bytes[0] == b0);
                    assert(bytes[1] == b1);
                    assert(b0 == 0x80 + dg32);
                    assert(b1 == drg8 * 16 + dbg8);
                    assert(b0 & 0x3f == dg32 && 0x80 <= b0 && b0 < 0xc0) by (bit_vector)
                        requires
                            b0 == 0x80 + dg32,
                            dg32 < 64,
                    ;
                    assert(b1 >> 4 == drg8 && b1 & 0xf == dbg8) by (bit_vector)
                        requires
                            b1 == drg8 * 16 + dbg8,
                            drg8 < 16,
                            dbg8 < 16,
                    ;
                    lemma_decode_luma(bytes, prev, hia_d, pending);
                    assert(luma_apply(prev, b0, b1) == cur) by {
                        lemma_luma_cancel(prev, cur, dg32, drg8, dbg8);
                    }
                    assert(bytes.skip(2) =~= tailb);
                    lemma_enc_dec(rest, cur, 0, hia_e2, hia_d, pend2);
                    assert(run_pixels(0, cur) + rest =~= rest);
                } else {
                    lemma_emit_rgb(prev, hia_e, cur);
                    assert(bytes[0] == 0xfe);
                    assert(bytes[1] == cur.r);
                    assert(bytes[2] == cur.g);
                    assert(bytes[3] == cur.b);
                    lemma_decode_rgb(bytes, prev, hia_d, pending);
                    assert(bytes.skip(4) =~= tailb);
                    lemma_enc_dec(rest, cur, 0, hia_e2, hia_d, pend2);
                    assert(run_pixels(0, cur) + rest =~= rest);
                }
            }
        }
    }
}

/// Unbiasing a wrapped biased channel delta and adding it back to the
/// previous channel recovers the current one.
proof fn lemma_channel_cancel(a: u8, x: u8, c: int)
    ensures
        wadd(a as int, (wadd(wsub(x as int, a as int) as int, c) as int) - c) == x,
{
    let w = wsub(x as int, a as int) as int;
    vstd::arithmetic::div_mod::lemma_add_mod_noop_right(-c, w + c, 256);
    vstd::arithmetic::div_mod::lemma_mod_twice(x - a, 256);
    crate::pixel::lemma_wadd_congruence(a as int, (wadd(w, c) as int) - c, x - a);
    vstd::arithmetic::div_mod::lemma_small_mod(x as nat, 256);
}

/// The LUMA fields, unbiased and recombined, recover every channel.
proof fn lemma_luma_cancel(prev: Pixel, cur: Pixel, dg32: u8, drg8: u8, dbg8: u8)
    requires
        dg32 == wadd(wsub(cur.g as int, prev.g as int) as int, 32),
        drg8 == wadd(
            wsub(
                wsub(cur.r as int, prev.r as int) as int,
                wsub(cur.g as int, prev.g as int) as int,
            ) as int,
            8,
        ),
        dbg8 == wadd(
            wsub(
                wsub(cur.b as int, prev.b as int) as int,
                wsub(cur.g as int, prev.g as int) as int,
            ) as int,
            8,
        ),
        dg32 < 64,
        drg8 < 16,
        dbg8 < 16,
        cur.a == prev.a,
    ensures
        luma_apply(prev, (0x80 + dg32) as u8, (drg8 * 16 + dbg8) as u8) == cur,
{
    let dgw = wsub(cur.g as int, prev.g as int);
    let drw = wsub(cur.r as int, prev.r as int);
    let dbw = wsub(cur.b as int, prev.b as int);
    let srg = wsub(drw as int, dgw as int);
    let sbg = wsub(dbw as int, dgw as int);
    let b0 = (0x80 + dg32) as u8;
    let b1 = (drg8 * 16 + dbg8) as u8;
    assert(b0 & 0x3f == dg32) by (bit_vector)
        requires
            b0 == 0x80 + dg32,
            dg32 < 64,
    ;
    assert(b1 >> 4 == drg8 && b1 & 0xf == dbg8) by (bit_vector)
        requires
            b1 == drg8 * 16 + dbg8,
            drg8 < 16,
            dbg8 < 16,
    ;

    // the biased green field stands for the raw green delta
    vstd::arithmetic::div_mod::lemma_add_mod_noop_right(-32, dgw + 32, 256);
    crate::pixel::lemma_unwrap_wsub(cur.g as int, prev.g as int);
    assert((dg32 - 32) % 256 == (cur.g - prev.g) % 256);

    // green
    crate::pixel::lemma_wadd_congruence(prev.g as int, dg32 - 32, cur.g - prev.g);
    vstd::arithmetic::div_mod::lemma_small_mod(cur.g as nat, 256);
    assert(wadd(prev.g as int, dg32 - 32) == cur.g);

    // red: the relative field stands for red-minus-green
    vstd::arithmetic::div_mod::lemma_add_mod_noop_right(-8, srg + 8, 256);
    crate::pixel::lemma_unwrap_wsub(drw as int, dgw as int);
    assert((drg8 - 8) % 256 == (drw - dgw) % 256);
    crate::pixel::lemma_mod_add_congruent(drg8 - 8, dg32 - 32, drw - dgw, dgw as int);
    vstd::arithmetic::div_mod::lemma_small_mod(drw as nat, 256);
    crate::pixel::lemma_unwrap_wsub(cur.r as int, prev.r as int);
    assert(((drg8 - 8) + (dg32 - 32)) % 256 == (cur.r - prev.r) % 256);
    crate::pixel::lemma_wadd_congruence(
        prev.r as int,
        (drg8 - 8) + (dg32 - 32),
        cur.r - prev.r,
    );
    vstd::arithmetic::div_mod::lemma_small_mod(cur.r as nat, 256);
    assert(wadd(prev.r as int, (drg8 - 8) + (dg32 - 32)) == cur.r);

    // blue, as red
    vstd::arithmetic::div_mod::lemma_add_mod_noop_right(-8, sbg + 8, 256);
    crate::pixel::lemma_unwrap_wsub(dbw as int, dgw as int);
    assert((dbg8 - 8) % 256 == (dbw - dgw) % 256);
    crate::pixel::lemma_mod_add_congruent(dbg8 - 8, dg32 - 32, dbw - dgw, dgw as int);
    vstd::arithmetic::div_mod::lemma_small_mod(dbw as nat, 256);
    crate::pixel::lemma_unwrap_wsub(cur.b as int, prev.b as int);
    assert(((dbg8 - 8) + (dg32 - 32)) % 256 == (cur.b - prev.b) % 256);
    crate::pixel::lemma_wadd_congruence(
        prev.b as int,
        (dbg8 - 8) + (dg32 - 32),
        cur.b - prev.b,
    );
    vstd::arithmetic::div_mod::lemma_small_mod(cur.b as nat, 256);
    assert(wadd(prev.b as int, (dbg8 - 8) + (dg32 - 32)) == cur.b);
}

/// Round trip over a body: the ops the encoder emits for any pixel
/// sequence decode back to exactly that sequence.
pub proof fn lemma_body_round_trip(pixels: Seq<Pixel>)
    ensures
        decode_body_spec(encode_body_spec(pixels)) == Some(pixels),
{
    let body = encode_body_spec(pixels);
    let seeded = init_hia().update(px_hash(Pixel::initial()), Pixel::initial());
    assert(px_hash(Pixel::initial()) == 53);
    let hia0 = if body.len() > 0 && 0xc0 <= body[0] && body[0] < 0xfe {
        seeded
    } else {
        init_hia()
    };
    assert(bulk_update(hia0, Seq::<Pixel>::empty()) == hia0);
    assert(init_hia()[53] == Pixel::zero());
    assert(hia_rel(init_hia(), hia0));
    lemma_enc_dec(pixels, Pixel::initial(), 0, init_hia(), hia0, Seq::empty());
    assert(run_pixels(0, Pixel::initial()) + pixels =~= pixels);
}

/// Round trip over a whole stream: for any pixel sequence and any header
/// whose dimensions cover it, decoding the encoded stream yields exactly
/// the pixels back.
pub proof fn lemma_stream_round_trip(pixels: Seq<Pixel>, meta: QOIHeader)
    requires
        pixels.len() == meta.width * meta.height,
        meta.width * meta.height <= usize::MAX,
    ensures
        decode_stream(encode_stream(pixels, meta)) == Ok::<Seq<Pixel>, crate::error::QoiError>(
            pixels,
        ),
{
    let body = encode_body_spec(pixels);
    let bytes = encode_stream(pixels, meta);
    let head = magic_seq() + header_bytes(meta);
    assert(bytes.len() == 22 + body.len());
    lemma_header_round_trip(meta);
    assert(forall|i: int| 0 <= i < 14 ==> bytes[i] == head[i]);
    assert(parse_header_spec(bytes) == Ok::<QOIHeader, crate::error::QoiError>(meta));
    assert(bytes.subrange(bytes.len() - 8, bytes.len() as int) =~= end_marker());
    assert(bytes.subrange(14, bytes.len() - 8) =~= body);
    lemma_body_round_trip(pixels);
}

} // verus!
