//! The decoder: dispatches on each leading byte, reconstructs pixels
//! from the previous pixel and the recently-seen table, and keeps that
//! table synchronized lazily — only a RUN or INDEX op reads it, so only
//! they pay for bringing it up to date.

use vstd::prelude::*;

use crate::error::QoiError;
use crate::header::parse_header;
use crate::hia::{bulk_update, init_hia, HashIndexedArray};
use crate::model::{attach, decode_body, decode_body_spec, decode_stream, diff_apply, luma_apply};
use crate::ops::{is_run, length_from_op_run, op_diff_expand222, op_luma_expand644};
use crate::pixel::{
    lemma_unwrap_wsub, lemma_wadd_congruence, lemma_wadd_of_mod, lemma_wrapping_add_is_wadd,
    lemma_wrapping_sub_is_wsub, lemma_wsub_of_wadd, px_hash, wadd, wsub, Pixel,
};

verus! {

/// Reconstructs the pixel a DIFF byte stands for.
fn diff_pixel(prev: Pixel, b: u8) -> (r: Pixel)
    ensures
        r == diff_apply(prev, b),
{
    let expand = op_diff_expand222(b);
    let r0 = prev.r.wrapping_add(expand[0]).wrapping_sub(2);
    let g0 = prev.g.wrapping_add(expand[1]).wrapping_sub(2);
    let b0 = prev.b.wrapping_add(expand[2]).wrapping_sub(2);
    proof {
        lemma_wrapping_add_is_wadd(prev.r, expand[0]);
        lemma_wrapping_add_is_wadd(prev.g, expand[1]);
        lemma_wrapping_add_is_wadd(prev.b, expand[2]);
        lemma_wrapping_sub_is_wsub(prev.r.wrapping_add(expand[0]), 2);
        lemma_wrapping_sub_is_wsub(prev.g.wrapping_add(expand[1]), 2);
        lemma_wrapping_sub_is_wsub(prev.b.wrapping_add(expand[2]), 2);
        lemma_wsub_of_wadd(prev.r as int, expand[0] as int, 2);
        lemma_wsub_of_wadd(prev.g as int, expand[1] as int, 2);
        lemma_wsub_of_wadd(prev.b as int, expand[2] as int, 2);
    }
    Pixel { r: r0, g: g0, b: b0, a: prev.a }
}

/// Reconstructs the pixel a LUMA op stands for.
fn luma_pixel(prev: Pixel, b0: u8, b1: u8) -> (r: Pixel)
    requires
        0x80 <= b0 < 0xc0,
    ensures
        r == luma_apply(prev, b0, b1),
{
    let expand = op_luma_expand644(b0, b1);
    let rr = prev.r.wrapping_add(expand[0]);
    let rg = prev.g.wrapping_add(expand[1]);
    let rb = prev.b.wrapping_add(expand[2]);
    proof {
        let w = wsub(b0 as int, 168) as int;
        assert(b0 & 0x3f == b0 - 128) by (bit_vector)
            requires
                0x80 <= b0 < 0xc0,
        ;
        lemma_wrapping_add_is_wadd(prev.r, expand[0]);
        lemma_wrapping_add_is_wadd(prev.g, expand[1]);
        lemma_wrapping_add_is_wadd(prev.b, expand[2]);
        lemma_unwrap_wsub(b0 as int, 168);

        // red: the operand nibble plus the wrapped green delta
        let xr = (b1 >> 4) as int;
        vstd::arithmetic::div_mod::lemma_add_mod_noop_right(xr, b0 - 168, 256);
        lemma_wadd_of_mod(prev.r as int, xr + (b0 - 168));
        lemma_wadd_congruence(prev.r as int, (xr + w) % 256, xr + (b0 - 168));
        assert(wadd(prev.r as int, wadd(xr, w) as int) == wadd(
            prev.r as int,
            wadd(xr, w) as int % 256,
        )) by {
            lemma_wadd_of_mod(prev.r as int, wadd(xr, w) as int);
        }

        // green: the wrapped green delta plus its own bias
        vstd::arithmetic::div_mod::lemma_add_mod_noop(b0 - 168, 8, 256);
        vstd::arithmetic::div_mod::lemma_mod_twice(b0 - 168, 256);
        vstd::arithmetic::div_mod::lemma_small_mod(8, 256);
        lemma_wadd_of_mod(prev.g as int, (b0 - 168) + 8);
        lemma_wadd_congruence(prev.g as int, (w + 8) % 256, (b0 - 168) + 8);
        assert(wadd(prev.g as int, wadd(w, 8) as int) == wadd(
            prev.g as int,
            wadd(w, 8) as int % 256,
        )) by {
            lemma_wadd_of_mod(prev.g as int, wadd(w, 8) as int);
        }

        // blue: as red, from the low operand nibble
        let xb = (b1 & 0xf) as int;
        vstd::arithmetic::div_mod::lemma_add_mod_noop_right(xb, b0 - 168, 256);
        lemma_wadd_of_mod(prev.b as int, xb + (b0 - 168));
        lemma_wadd_congruence(prev.b as int, (xb + w) % 256, xb + (b0 - 168));
        assert(wadd(prev.b as int, wadd(xb, w) as int) == wadd(
            prev.b as int,
            wadd(xb, w) as int % 256,
        )) by {
            lemma_wadd_of_mod(prev.b as int, wadd(xb, w) as int);
        }
    }
    Pixel { r: rr, g: rg, b: rb, a: prev.a }
}

/// The decoder's working state: the table, the position of the last
/// table synchronization in the output, the input cursor and the
/// previous pixel.
pub struct DecodeContext {
    hash_index_array: HashIndexedArray,
    last_hash_update: usize,
    input_position: usize,
    previous_pixel: Pixel,
}

impl DecodeContext {
    /// The recently-seen table, as of its last synchronization.
    pub closed spec fn hia(&self) -> Seq<Pixel> {
        self.hash_index_array@
    }

    /// How many output pixels the table already reflects.
    pub closed spec fn last_sync(&self) -> int {
        self.last_hash_update as int
    }

    /// The input cursor.
    pub closed spec fn in_pos(&self) -> int {
        self.input_position as int
    }

    /// The last reconstructed pixel, initially `(0, 0, 0, 255)`.
    pub closed spec fn prev(&self) -> Pixel {
        self.previous_pixel
    }

    pub closed spec fn wf(&self) -> bool {
        self.hash_index_array.wf()
    }

    /// A fresh decoder, its cursor past the 14-byte header.
    pub fn new() -> (r: Self)
        ensures
            r.wf(),
            r.hia() == init_hia(),
            r.last_sync() == 0,
            r.in_pos() == 14,
            r.prev() == Pixel::initial(),
    {
        DecodeContext {
            hash_index_array: HashIndexedArray::new(),
            last_hash_update: 0,
            input_position: 14,
            previous_pixel: Pixel { r: 0, g: 0, b: 0, a: 255 },
        }
    }

    /// Seeds the previous pixel into the table; the special case for a
    /// stream whose first op is a RUN.
    pub fn hia_push_prev(&mut self)
        requires
            old(self).wf(),
        ensures
            final(self).wf(),
            final(self).hia() == old(self).hia().update(
                px_hash(old(self).prev()),
                old(self).prev(),
            ),
            final(self).last_sync() == old(self).last_sync(),
            final(self).in_pos() == old(self).in_pos(),
            final(self).prev() == old(self).prev(),
    {
        let p = self.previous_pixel;
        self.hash_index_array.push(p);
    }

    /// Brings the table up to date with every output pixel it has not
    /// seen yet.
    pub fn update_hia(&mut self, output: &Vec<Pixel>)
        requires
            old(self).wf(),
            old(self).last_sync() <= output@.len(),
        ensures
            final(self).wf(),
            final(self).hia() == bulk_update(
                old(self).hia(),
                output@.subrange(old(self).last_sync(), output@.len() as int),
            ),
            final(self).last_sync() == old(self).last_sync(),
            final(self).in_pos() == old(self).in_pos(),
            final(self).prev() == old(self).prev(),
    {
        let end = output.len();
        self.hash_index_array.update(output, self.last_hash_update, end);
    }

    /// The input cursor.
    pub fn pos(&self) -> (r: usize)
        ensures
            r == self.in_pos(),
    {
        self.input_position
    }

    /// The byte under the cursor.
    pub fn get_byte(&self, input: &Vec<u8>) -> (r: u8)
        requires
            self.in_pos() < input@.len(),
        ensures
            r == input@[self.in_pos()],
    {
        input[self.input_position]
    }

    /// A byte a fixed distance past the cursor.
    pub fn get_byte_offset(&self, input: &Vec<u8>, offset: usize) -> (r: u8)
        requires
            self.in_pos() + offset < input@.len(),
        ensures
            r == input@[self.in_pos() + offset],
    {
        let n = input.len();
        input[self.input_position + offset]
    }
}

/// Whether the last eight input bytes are the end marker.
fn has_end_marker(input: &Vec<u8>) -> (r: bool)
    requires
        input@.len() >= 8,
    ensures
        r == (input@.subrange(input@.len() - 8, input@.len() as int)
            == crate::header::end_marker()),
{
    let len = input.len();
    let ok = input[len - 8] == 0 && input[len - 7] == 0 && input[len - 6] == 0 && input[len - 5]
        == 0 && input[len - 4] == 0 && input[len - 3] == 0 && input[len - 2] == 0 && input[len - 1]
        == 1;
    proof {
        let s = input@.subrange(input@.len() - 8, input@.len() as int);
        if ok {
            assert(s =~= crate::header::end_marker());
        } else {
            assert(s[0] == input@[input@.len() - 8]);
            assert(s[1] == input@[input@.len() - 7]);
            assert(s[2] == input@[input@.len() - 6]);
            assert(s[3] == input@[input@.len() - 5]);
            assert(s[4] == input@[input@.len() - 4]);
            assert(s[5] == input@[input@.len() - 3]);
            assert(s[6] == input@[input@.len() - 2]);
            assert(s[7] == input@[input@.len() - 1]);
        }
    }
    ok
}

/// Decodes a whole QOI stream, appending the pixels to `output` on
/// success; on any error the output is left untouched.
pub fn decode(input: &Vec<u8>, output: &mut Vec<Pixel>) -> (r: Result<(), QoiError>)
    ensures
        match decode_stream(input@) {
            Ok(px) => r == Ok::<(), QoiError>(()) && final(output)@ == old(output)@ + px,
            Err(e) => r == Err::<(), QoiError>(e) && final(output)@ == old(output)@,
        },
{
    let header = match parse_header(input) {
        Ok(h) => h,
        Err(e) => {
            return Err(e);
        },
    };
    let len = input.len();
    if len < 22 {
        return Err(QoiError::TruncatedInput);
    }
    if !has_end_marker(input) {
        return Err(QoiError::BadEndMarker);
    }
    proof {
        vstd::arithmetic::mul::lemma_mul_upper_bound(
            header.width as int,
            0xffff_ffff,
            header.height as int,
            0xffff_ffff,
        );
    }
    let size64 = (header.width as u64) * (header.height as u64);
    if size64 > (usize::MAX as u64) {
        return Err(QoiError::DimensionOverflow);
    }
    let expected: usize = size64 as usize;

    let body_end = len - 8;
    let mut ctx = DecodeContext::new();
    let mut out: Vec<Pixel> = Vec::new();
    let ghost body = input@.subrange(14, body_end as int);
    let ghost dspec = decode_body_spec(body);

    if body_end > 14 {
        let b0 = input[14];
        if is_run(b0) {
            ctx.hia_push_prev();
        }
    }
    let ghost goal = (match dspec {
        None => Err::<Seq<Pixel>, QoiError>(QoiError::TruncatedInput),
        Some(px) => if px.len() == header.width * header.height {
            Ok::<Seq<Pixel>, QoiError>(px)
        } else {
            Err::<Seq<Pixel>, QoiError>(
                QoiError::SizeMismatch {
                    found: px.len() as usize,
                    expected: (header.width * header.height) as usize,
                },
            )
        },
    });
    proof {
        assert(decode_stream(input@) == goal);
        assert(body.len() == body_end - 14);
        if body.len() > 0 {
            assert(body[0] == input@[14]);
        }
        assert(body.skip(0) =~= body);
        assert(out@.subrange(0, 0) =~= Seq::<Pixel>::empty());
        crate::model::lemma_attach_nil(decode_body(body, ctx.prev(), ctx.hia(), Seq::empty()));
    }

    while ctx.input_position < body_end
        invariant
            ctx.wf(),
            14 <= ctx.in_pos() <= body_end,
            body_end == input@.len() - 8,
            input@.len() >= 22,
            body == input@.subrange(14, body_end as int),
            0 <= ctx.last_sync() <= out@.len(),
            decode_stream(input@) == goal,
            goal == (match dspec {
                None => Err::<Seq<Pixel>, QoiError>(QoiError::TruncatedInput),
                Some(px) => if px.len() == header.width * header.height {
                    Ok::<Seq<Pixel>, QoiError>(px)
                } else {
                    Err::<Seq<Pixel>, QoiError>(
                        QoiError::SizeMismatch {
                            found: px.len() as usize,
                            expected: (header.width * header.height) as usize,
                        },
                    )
                },
            }),
            expected == header.width * header.height,
            dspec == attach(
                out@,
                decode_body(
                    body.skip(ctx.in_pos() - 14),
                    ctx.prev(),
                    ctx.hia(),
                    out@.subrange(ctx.last_sync(), out@.len() as int),
                ),
            ),
        decreases body_end - ctx.in_pos(),
    {
        let ghost pos0 = ctx.in_pos();
        let ghost rem = body.skip(pos0 - 14);
        let ghost pend0 = out@.subrange(ctx.last_sync(), out@.len() as int);
        let ghost prev0 = ctx.prev();
        let ghost hia0 = ctx.hia();
        let ghost out0 = out@;
        proof {
            assert(rem.len() == body_end - pos0);
            assert(rem[0] == input@[pos0]);
            crate::hia::lemma_hia_wf_len(&ctx.hash_index_array);
        }
        let b = ctx.get_byte(input);
        if b == 0xff {
            if body_end - ctx.input_position < 5 {
                proof {
                    crate::model::lemma_decode_rgba(rem, prev0, hia0, pend0);
                }
                return Err(QoiError::TruncatedInput);
            }
            let px = Pixel {
                r: ctx.get_byte_offset(input, 1),
                g: ctx.get_byte_offset(input, 2),
                b: ctx.get_byte_offset(input, 3),
                a: ctx.get_byte_offset(input, 4),
            };
            out.push(px);
            ctx.previous_pixel = px;
            ctx.input_position += 5;
            proof {
                assert(rem[1] == input@[pos0 + 1]);
                assert(rem[2] == input@[pos0 + 2]);
                assert(rem[3] == input@[pos0 + 3]);
                assert(rem[4] == input@[pos0 + 4]);
                assert(rem.skip(5) =~= body.skip(pos0 - 14 + 5));
                assert(out@.subrange(ctx.last_sync(), out@.len() as int) =~= pend0.push(px));
                crate::model::lemma_decode_rgba(rem, prev0, hia0, pend0);
                let x = decode_body(rem.skip(5), px, hia0, pend0.push(px));
                assert(decode_body(rem, prev0, hia0, pend0) == attach(seq![px], x));
                crate::model::lemma_attach_assoc(out0, seq![px], x);
                assert(out0 + seq![px] =~= out@);
            }
        } else if b == 0xfe {
            if body_end - ctx.input_position < 4 {
                proof {
                    crate::model::lemma_decode_rgb(rem, prev0, hia0, pend0);
                }
                return Err(QoiError::TruncatedInput);
            }
            let px = Pixel {
                r: ctx.get_byte_offset(input, 1),
                g: ctx.get_byte_offset(input, 2),
                b: ctx.get_byte_offset(input, 3),
                a: ctx.previous_pixel.a,
            };
            out.push(px);
            ctx.previous_pixel = px;
            ctx.input_position += 4;
            proof {
                assert(rem[1] == input@[pos0 + 1]);
                assert(rem[2] == input@[pos0 + 2]);
                assert(rem[3] == input@[pos0 + 3]);
                assert(rem.skip(4) =~= body.skip(pos0 - 14 + 4));
                assert(out@.subrange(ctx.last_sync(), out@.len() as int) =~= pend0.push(px));
                crate::model::lemma_decode_rgb(rem, prev0, hia0, pend0);
                let x = decode_body(rem.skip(4), px, hia0, pend0.push(px));
                assert(decode_body(rem, prev0, hia0, pend0) == attach(seq![px], x));
                crate::model::lemma_attach_assoc(out0, seq![px], x);
                assert(out0 + seq![px] =~= out@);
            }
        } else if b < 0x40 {
            ctx.update_hia(&out);
            ctx.last_hash_update = out.len();
            let cur = ctx.hash_index_array.fetch(b);
            out.push(cur);
            ctx.previous_pixel = cur;
            ctx.input_position += 1;
            proof {
                assert(rem.skip(1) =~= body.skip(pos0 - 14 + 1));
                let synced = bulk_update(hia0, pend0);
                crate::hia::lemma_bulk_update_len(hia0, pend0);
                assert(ctx.hia() == synced);
                assert(out@.subrange(ctx.last_sync(), out@.len() as int) =~= seq![cur]);
                crate::model::lemma_decode_index(rem, prev0, hia0, pend0);
                let x = decode_body(rem.skip(1), cur, synced, seq![cur]);
                assert(decode_body(rem, prev0, hia0, pend0) == attach(seq![cur], x));
                crate::model::lemma_attach_assoc(out0, seq![cur], x);
                assert(out0 + seq![cur] =~= out@);
            }
        } else if b < 0x80 {
            let cur = diff_pixel(ctx.previous_pixel, b);
            out.push(cur);
            ctx.previous_pixel = cur;
            ctx.input_position += 1;
            proof {
                assert(rem.skip(1) =~= body.skip(pos0 - 14 + 1));
                assert(out@.subrange(ctx.last_sync(), out@.len() as int) =~= pend0.push(cur));
                crate::model::lemma_decode_diff(rem, prev0, hia0, pend0);
                let x = decode_body(rem.skip(1), cur, hia0, pend0.push(cur));
                assert(decode_body(rem, prev0, hia0, pend0) == attach(seq![cur], x));
                crate::model::lemma_attach_assoc(out0, seq![cur], x);
                assert(out0 + seq![cur] =~= out@);
            }
        } else if b < 0xc0 {
            if body_end - ctx.input_position < 2 {
                proof {
                    crate::model::lemma_decode_luma(rem, prev0, hia0, pend0);
                }
                return Err(QoiError::TruncatedInput);
            }
            let b2 = ctx.get_byte_offset(input, 1);
            let cur = luma_pixel(ctx.previous_pixel, b, b2);
            out.push(cur);
            ctx.previous_pixel = cur;
            ctx.input_position += 2;
            proof {
                assert(rem[1] == input@[pos0 + 1]);
                assert(rem.skip(2) =~= body.skip(pos0 - 14 + 2));
                assert(out@.subrange(ctx.last_sync(), out@.len() as int) =~= pend0.push(cur));
                crate::model::lemma_decode_luma(rem, prev0, hia0, pend0);
                let x = decode_body(rem.skip(2), cur, hia0, pend0.push(cur));
                assert(decode_body(rem, prev0, hia0, pend0) == attach(seq![cur], x));
                crate::model::lemma_attach_assoc(out0, seq![cur], x);
                assert(out0 + seq![cur] =~= out@);
            }
        } else {
            ctx.update_hia(&out);
            let count = length_from_op_run(b);
            let prevpx = ctx.previous_pixel;
            let mut i: usize = 0;
            while i < count
                invariant
                    i <= count,
                    out@ == out0 + Seq::new(i as nat, |j: int| prevpx),
                decreases count - i,
            {
                out.push(prevpx);
                proof {
                    assert(out@ =~= out0 + Seq::new((i + 1) as nat, |j: int| prevpx));
                }
                i += 1;
            }
            ctx.last_hash_update = out.len();
            ctx.input_position += 1;
            proof {
                assert(b & 0x3f == b - 0xc0) by (bit_vector)
                    requires
                        0xc0 <= b && b < 0xfe,
                ;
                assert(rem.skip(1) =~= body.skip(pos0 - 14 + 1));
                let synced = bulk_update(hia0, pend0);
                crate::hia::lemma_bulk_update_len(hia0, pend0);
                assert(ctx.hia() == synced);
                assert(out@.subrange(ctx.last_sync(), out@.len() as int) =~= Seq::<Pixel>::empty());
                crate::model::lemma_decode_run(rem, prev0, hia0, pend0);
                let x = decode_body(rem.skip(1), prev0, synced, Seq::empty());
                assert(decode_body(rem, prev0, hia0, pend0) == attach(
                    Seq::new((count) as nat, |j: int| prev0),
                    x,
                ));
                crate::model::lemma_attach_assoc(out0, Seq::new(count as nat, |j: int| prev0), x);
                assert(out0 + Seq::new(count as nat, |j: int| prev0) =~= out@);
            }
        }
    }

    proof {
        assert(body.skip(ctx.in_pos() - 14) =~= Seq::<u8>::empty());
        crate::model::lemma_decode_end(ctx.prev(), ctx.hia(), out@.subrange(ctx.last_sync(), out@.len() as int));
        assert(out@ + Seq::<Pixel>::empty() =~= out@);
        assert(dspec == Some(out@));
    }
    if out.len() == expected {
        output.append(&mut out);
        Ok(())
    } else {
        Err(QoiError::SizeMismatch { found: out.len(), expected })
    }
}

} // verus!
