//! The encoder: walks the pixels once, aggregating runs and choosing for
//! every other pixel the shortest op the table and the channel deltas
//! allow, and is proved to emit exactly the modeled stream.

use vstd::prelude::*;

use crate::hashing::hashes_rgba;
use crate::header::{header_bytes, magic_seq, QOIHeader};
use crate::hia::{init_hia, HashIndexedArray};
use crate::model::{
    diff_byte, emit_px, emit_state, encode_body, encode_body_spec, encode_stream, flush_run,
};
use crate::pixel::{bytes_to_pixels, pixels_of, px_hash, wadd, wsub, Pixel};

verus! {

/// The encoder's working state: the pixels, their precomputed hashes,
/// the recently-seen table, the cursor and the previous pixel.
pub struct EncodeContext {
    input_pixels: Vec<Pixel>,
    hashes: Vec<u8>,
    hash_index_array: HashIndexedArray,
    position: usize,
    previous_pixel: Pixel,
}

impl EncodeContext {
    /// The pixels being encoded.
    pub closed spec fn pixels(&self) -> Seq<Pixel> {
        self.input_pixels@
    }

    /// The cursor: how many pixels are already consumed.
    pub closed spec fn pos(&self) -> int {
        self.position as int
    }

    /// The last consumed pixel, initially `(0, 0, 0, 255)`.
    pub closed spec fn prev(&self) -> Pixel {
        self.previous_pixel
    }

    /// The recently-seen table.
    pub closed spec fn hia(&self) -> Seq<Pixel> {
        self.hash_index_array@
    }

    /// The hashes cache one hash per pixel and the cursor stays in range.
    #[verifier::opaque]
    pub closed spec fn wf(&self) -> bool {
        &&& self.hashes@.len() == self.input_pixels@.len()
        &&& (forall|i: int|
            0 <= i < self.input_pixels@.len() ==> self.hashes@[i] == px_hash(
                self.input_pixels@[i],
            ))
        &&& self.hash_index_array.wf()
        &&& self.position <= self.input_pixels@.len()
    }

    /// Takes ownership of the pixels and hashes them all up front.
    pub fn new(input_pixels: Vec<Pixel>) -> (r: Self)
        ensures
            r.wf(),
            r.pixels() == input_pixels@,
            r.pos() == 0,
            r.prev() == Pixel::initial(),
            r.hia() == init_hia(),
    {
        proof {
            reveal(EncodeContext::wf);
        }
        let hashes = hashes_rgba(&input_pixels);
        EncodeContext {
            input_pixels,
            hashes,
            hash_index_array: HashIndexedArray::new(),
            position: 0,
            previous_pixel: Pixel { r: 0, g: 0, b: 0, a: 255 },
        }
    }

    pub fn get_pos(&self) -> (r: usize)
        ensures
            r == self.pos(),
    {
        self.position
    }

    /// The pixel under the cursor.
    pub fn get_pixel(&self) -> (r: Pixel)
        requires
            self.wf(),
            self.pos() < self.pixels().len(),
        ensures
            r == self.pixels()[self.pos()],
    {
        proof {
            reveal(EncodeContext::wf);
        }
        self.input_pixels[self.position]
    }

    /// The cached hash of the pixel under the cursor.
    pub fn get_hash(&self) -> (r: u8)
        requires
            self.wf(),
            self.pos() < self.pixels().len(),
        ensures
            r == px_hash(self.pixels()[self.pos()]),
            r < 64,
    {
        proof {
            reveal(EncodeContext::wf);
        }
        self.hashes[self.position]
    }

    pub fn get_previous_pixel(&self) -> (r: Pixel)
        ensures
            r == self.prev(),
    {
        self.previous_pixel
    }

    /// Consumes the pixel under the cursor: it becomes the previous one.
    pub fn update_pos(&mut self)
        requires
            old(self).wf(),
            old(self).pos() < old(self).pixels().len(),
        ensures
            final(self).wf(),
            final(self).pixels() == old(self).pixels(),
            final(self).hia() == old(self).hia(),
            final(self).pos() == old(self).pos() + 1,
            final(self).prev() == old(self).pixels()[old(self).pos()],
    {
        proof {
            reveal(EncodeContext::wf);
        }
        self.previous_pixel = self.input_pixels[self.position];
        let n = self.input_pixels.len();
        proof {
            assert(self.position < n);
        }
        self.position += 1;
    }

    /// Stores the pixel under the cursor into the table at its hash and
    /// hands back the pixel that held the slot before.
    pub fn swap_hash(&mut self) -> (r: Pixel)
        requires
            old(self).wf(),
            old(self).pos() < old(self).pixels().len(),
        ensures
            final(self).wf(),
            final(self).pixels() == old(self).pixels(),
            final(self).pos() == old(self).pos(),
            final(self).prev() == old(self).prev(),
            final(self).hia() == emit_state(
                old(self).hia(),
                old(self).pixels()[old(self).pos()],
            ),
            r == old(self).hia()[px_hash(old(self).pixels()[old(self).pos()])],
    {
        proof {
            reveal(EncodeContext::wf);
        }
        let pixel = self.input_pixels[self.position];
        let (previous, _hash) = self.hash_index_array.push(pixel);
        previous
    }

    /// Emits an RGBA op for the pixel under the cursor.
    pub fn write_rgba(&self, out: &mut Vec<u8>)
        requires
            self.wf(),
            self.pos() < self.pixels().len(),
        ensures
            final(out)@ == old(out)@ + seq![
                0xffu8,
                self.pixels()[self.pos()].r,
                self.pixels()[self.pos()].g,
                self.pixels()[self.pos()].b,
                self.pixels()[self.pos()].a,
            ],
    {
        proof {
            reveal(EncodeContext::wf);
        }
        let px = self.input_pixels[self.position];
        out.push(0xff);
        out.push(px.r);
        out.push(px.g);
        out.push(px.b);
        out.push(px.a);
        proof {
            assert(out@ =~= old(out)@ + seq![0xffu8, px.r, px.g, px.b, px.a]);
        }
    }

    /// Emits an RGB op for the pixel under the cursor; its alpha rides
    /// along implicitly as the previous pixel's.
    pub fn write_rgb(&self, out: &mut Vec<u8>)
        requires
            self.wf(),
            self.pos() < self.pixels().len(),
        ensures
            final(out)@ == old(out)@ + seq![
                0xfeu8,
                self.pixels()[self.pos()].r,
                self.pixels()[self.pos()].g,
                self.pixels()[self.pos()].b,
            ],
    {
        proof {
            reveal(EncodeContext::wf);
        }
        let px = self.input_pixels[self.position];
        out.push(0xfe);
        out.push(px.r);
        out.push(px.g);
        out.push(px.b);
        proof {
            assert(out@ =~= old(out)@ + seq![0xfeu8, px.r, px.g, px.b]);
        }
    }

    /// Emits an INDEX op naming the slot of the pixel under the cursor.
    pub fn write_hash_index(&self, out: &mut Vec<u8>)
        requires
            self.wf(),
            self.pos() < self.pixels().len(),
        ensures
            final(out)@ == old(out)@ + seq![px_hash(self.pixels()[self.pos()]) as u8],
    {
        proof {
            reveal(EncodeContext::wf);
        }
        out.push(self.hashes[self.position]);
        proof {
            assert(out@ =~= old(out)@ + seq![px_hash(self.pixels()[self.pos()]) as u8]);
        }
    }

    /// Emits a DIFF op from the three biased channel deltas (the fourth
    /// entry rides along unused, as the delta quadruple is produced).
    pub fn write_diff(&self, out: &mut Vec<u8>, deltas: [u8; 4])
        requires
            deltas[0] < 4,
            deltas[1] < 4,
            deltas[2] < 4,
        ensures
            final(out)@ == old(out)@ + seq![diff_byte(deltas[0], deltas[1], deltas[2])],
    {
        out.push(0x40u8 + deltas[0] * 16 + deltas[1] * 4 + deltas[2]);
        proof {
            assert(out@ =~= old(out)@ + seq![diff_byte(deltas[0], deltas[1], deltas[2])]);
        }
    }

    /// Emits a LUMA op from the biased green delta and the biased
    /// red-minus-green and blue-minus-green deltas.
    pub fn write_luma(&self, out: &mut Vec<u8>, dg: u8, dr_dg: u8, db_dg: u8)
        requires
            dg < 64,
            dr_dg < 16,
            db_dg < 16,
        ensures
            final(out)@ == old(out)@ + seq![(0x80 + dg) as u8, (dr_dg * 16 + db_dg) as u8],
    {
        out.push(0x80u8 + dg);
        out.push(dr_dg * 16 + db_dg);
        proof {
            assert(out@ =~= old(out)@ + seq![(0x80 + dg) as u8, (dr_dg * 16 + db_dg) as u8]);
        }
    }
}

/// Emits one RUN op for the pending run and clears the counter.
pub fn write_run(pixel_buffer: &mut Vec<u8>, count: &mut u8)
    requires
        1 <= *old(count) <= 62,
    ensures
        final(pixel_buffer)@ == old(pixel_buffer)@ + flush_run(*old(count) as int),
        *final(count) == 0,
{
    pixel_buffer.push(0xbfu8 + *count);
    *count = 0;
    proof {
        assert(pixel_buffer@ =~= old(pixel_buffer)@ + flush_run(*old(count) as int));
    }
}

/// Emits the op for one pixel that did not extend a run, stores it in
/// the table and consumes it.
fn encode_one(ctx: &mut EncodeContext, buf: &mut Vec<u8>)
    requires
        old(ctx).wf(),
        old(ctx).pos() < old(ctx).pixels().len(),
    ensures
        final(ctx).wf(),
        final(ctx).pixels() == old(ctx).pixels(),
        final(ctx).pos() == old(ctx).pos() + 1,
        final(ctx).prev() == old(ctx).pixels()[old(ctx).pos()],
        final(ctx).hia() == emit_state(old(ctx).hia(), old(ctx).pixels()[old(ctx).pos()]),
        final(buf)@ == old(buf)@ + emit_px(
            old(ctx).prev(),
            old(ctx).hia(),
            old(ctx).pixels()[old(ctx).pos()],
        ),
{
    let ghost hia0 = ctx.hia();
    let cur = ctx.get_pixel();
    let prev_at = ctx.swap_hash();
    if cur == prev_at {
        ctx.write_hash_index(buf);
        proof {
            crate::model::lemma_emit_index(ctx.prev(), hia0, cur);
        }
    } else {
        write_explicit(ctx, buf, Ghost(hia0));
    }
    ctx.update_pos();
}

/// Emits the explicit op for a pixel the table does not already hold:
/// RGBA on an alpha change, else DIFF, LUMA or RGB.
fn write_explicit(ctx: &EncodeContext, buf: &mut Vec<u8>, Ghost(hia0): Ghost<Seq<Pixel>>)
    requires
        ctx.wf(),
        ctx.pos() < ctx.pixels().len(),
        hia0[px_hash(ctx.pixels()[ctx.pos()])] != ctx.pixels()[ctx.pos()],
    ensures
        final(buf)@ == old(buf)@ + emit_px(ctx.prev(), hia0, ctx.pixels()[ctx.pos()]),
{
    let cur = ctx.get_pixel();
    let prev = ctx.get_previous_pixel();
    if cur.a != prev.a {
        ctx.write_rgba(buf);
        proof {
            crate::model::lemma_emit_rgba(ctx.prev(), hia0, cur);
        }
    } else {
        write_delta(ctx, buf, Ghost(hia0));
    }
}

/// Emits a DIFF when every channel delta fits two biased bits, a LUMA
/// when the green delta and the red and blue deltas relative to it fit
/// their fields, and a full RGB otherwise.
#[verifier::rlimit(100)]
fn write_delta(ctx: &EncodeContext, buf: &mut Vec<u8>, Ghost(hia0): Ghost<Seq<Pixel>>)
    requires
        ctx.wf(),
        ctx.pos() < ctx.pixels().len(),
        hia0[px_hash(ctx.pixels()[ctx.pos()])] != ctx.pixels()[ctx.pos()],
        ctx.pixels()[ctx.pos()].a == ctx.prev().a,
    ensures
        final(buf)@ == old(buf)@ + emit_px(ctx.prev(), hia0, ctx.pixels()[ctx.pos()]),
{
    let cur = ctx.get_pixel();
    let prev = ctx.get_previous_pixel();
    let dr = cur.r.wrapping_sub(prev.r);
    let dg = cur.g.wrapping_sub(prev.g);
    let db = cur.b.wrapping_sub(prev.b);
    proof {
        crate::pixel::lemma_wrapping_sub_is_wsub(cur.r, prev.r);
        crate::pixel::lemma_wrapping_sub_is_wsub(cur.g, prev.g);
        crate::pixel::lemma_wrapping_sub_is_wsub(cur.b, prev.b);
    }
    let dr2 = dr.wrapping_add(2);
    let dg2 = dg.wrapping_add(2);
    let db2 = db.wrapping_add(2);
    proof {
        crate::pixel::lemma_wrapping_add_is_wadd(dr, 2);
        crate::pixel::lemma_wrapping_add_is_wadd(dg, 2);
        crate::pixel::lemma_wrapping_add_is_wadd(db, 2);
    }
    if dr2 < 4 && dg2 < 4 && db2 < 4 {
        ctx.write_diff(buf, [dr2, dg2, db2, 0]);
        proof {
            crate::model::lemma_emit_diff(ctx.prev(), hia0, cur);
        }
    } else {
        let dg32 = dg.wrapping_add(32);
        let dr_dg = dr.wrapping_sub(dg);
        let db_dg = db.wrapping_sub(dg);
        let dr_dg8 = dr_dg.wrapping_add(8);
        let db_dg8 = db_dg.wrapping_add(8);
        proof {
            crate::pixel::lemma_wrapping_add_is_wadd(dg, 32);
            crate::pixel::lemma_wrapping_sub_is_wsub(dr, dg);
            crate::pixel::lemma_wrapping_sub_is_wsub(db, dg);
            crate::pixel::lemma_wrapping_add_is_wadd(dr_dg, 8);
            crate::pixel::lemma_wrapping_add_is_wadd(db_dg, 8);
        }
        if dg32 < 64 && dr_dg8 < 16 && db_dg8 < 16 {
            ctx.write_luma(buf, dg32, dr_dg8, db_dg8);
            proof {
                crate::model::lemma_emit_luma(ctx.prev(), hia0, cur);
            }
        } else {
            ctx.write_rgb(buf);
            proof {
                crate::model::lemma_emit_rgb(ctx.prev(), hia0, cur);
            }
        }
    }
}

/// Encodes raw RGBA bytes, four to a pixel, into a whole QOI stream
/// appended to `buf`: magic, header, ops, end marker. Returns how many
/// pixels were written, or the mismatched pixel counts when the raw data
/// does not cover the header's `width * height`.
#[verifier::rlimit(100)]
pub fn encode(raw: &Vec<u8>, meta: QOIHeader, buf: &mut Vec<u8>) -> (r: Result<
    usize,
    (usize, usize),
>)
    requires
        raw@.len() % 4 == 0,
        meta.width * meta.height <= usize::MAX,
    ensures
        pixels_of(raw@).len() == meta.width * meta.height ==> {
            &&& r == Ok::<usize, (usize, usize)>((raw@.len() / 4) as usize)
            &&& final(buf)@ == old(buf)@ + encode_stream(pixels_of(raw@), meta)
        },
        pixels_of(raw@).len() != meta.width * meta.height ==> {
            &&& r == Err::<usize, (usize, usize)>(
                (
                    (raw@.len() / 4) as usize,
                    (meta.width * meta.height) as usize,
                ),
            )
            &&& final(buf)@ == old(buf)@
        },
{
    let px_count: usize = raw.len() / 4;
    let size: usize = meta.image_size();
    if px_count != size {
        return Err((px_count, size));
    }
    let ghost pxs = pixels_of(raw@);
    let ghost full = encode_body_spec(pxs);

    buf.push(0x71);
    buf.push(0x6f);
    buf.push(0x69);
    buf.push(0x66);
    let mut header = meta.to_bytes();
    buf.append(&mut header);
    proof {
        assert(buf@ =~= old(buf)@ + magic_seq() + header_bytes(meta));
    }
    let ghost prefix = buf@;

    let mut ctx = EncodeContext::new(bytes_to_pixels(raw));
    let mut run: u8 = 0;
    let ghost mut emitted: Seq<u8> = Seq::empty();
    proof {
        assert(pxs.skip(0) =~= pxs);
        assert(buf@ =~= prefix + emitted);
    }

    while ctx.position < px_count
        invariant
            ctx.wf(),
            ctx.pixels() == pxs,
            pxs.len() == px_count,
            ctx.pos() <= px_count,
            run <= 61,
            buf@ == prefix + emitted,
            full == emitted + encode_body(pxs.skip(ctx.pos()), ctx.prev(), run as int, ctx.hia()),
        decreases px_count - ctx.pos(),
    {
        let ghost pos0 = ctx.pos();
        let ghost rem = pxs.skip(pos0);
        let ghost prev0 = ctx.prev();
        let ghost run0 = run as int;
        let ghost hia0 = ctx.hia();
        let ghost emitted0 = emitted;
        proof {
            assert(rem[0] == pxs[pos0]);
            assert(rem.skip(1) =~= pxs.skip(pos0 + 1));
        }
        let cur = ctx.get_pixel();
        if cur == ctx.get_previous_pixel() {
            run += 1;
            if run == 62 {
                buf.push(0xfd);
                run = 0;
                proof {
                    emitted = emitted + seq![0xfdu8];
                    assert(buf@ =~= prefix + emitted);
                    assert(encode_body(rem, prev0, run0, hia0) == seq![0xfdu8] + encode_body(
                        rem.skip(1),
                        prev0,
                        0,
                        hia0,
                    ));
                    assert(emitted0 + (seq![0xfdu8] + encode_body(rem.skip(1), prev0, 0, hia0))
                        =~= emitted + encode_body(rem.skip(1), prev0, 0, hia0));
                }
            } else {
                proof {
                    assert(encode_body(rem, prev0, run0, hia0) == encode_body(
                        rem.skip(1),
                        prev0,
                        run0 + 1,
                        hia0,
                    ));
                }
            }
            ctx.update_pos();
        } else {
            let ghost flushed = flush_run(run0);
            if run > 0 {
                write_run(buf, &mut run);
            }
            proof {
                emitted = emitted + flushed;
                assert(buf@ =~= prefix + emitted);
            }
            let ghost opspec = emit_px(prev0, hia0, cur);
            encode_one(&mut ctx, buf);
            proof {
                emitted = emitted + opspec;
                assert(buf@ =~= prefix + emitted);
                let tail = encode_body(rem.skip(1), cur, 0, emit_state(hia0, cur));
                assert(encode_body(rem, prev0, run0, hia0) == flushed + opspec + tail);
                assert(emitted0 + (flushed + opspec + tail) =~= emitted + tail);
            }
        }
    }

    proof {
        assert(pxs.skip(ctx.pos()) =~= Seq::<Pixel>::empty());
    }
    if run > 0 {
        let ghost flushed = flush_run(run as int);
        write_run(buf, &mut run);
        proof {
            emitted = emitted + flushed;
        }
    }
    proof {
        assert(emitted =~= full);
        assert(buf@ =~= prefix + full);
    }
    buf.push(0);
    buf.push(0);
    buf.push(0);
    buf.push(0);
    buf.push(0);
    buf.push(0);
    buf.push(0);
    buf.push(1);
    proof {
        assert(buf@ =~= old(buf)@ + encode_stream(pxs, meta));
    }
    Ok(px_count)
}

} // verus!
