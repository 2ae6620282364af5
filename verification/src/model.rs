//! The mathematical model of the wire format: what byte sequence the
//! encoder's state machine emits for a pixel sequence, and what pixel
//! sequence the decoder's state machine reads back from a byte sequence.
//! The executable coders are proved to compute exactly these functions.

use vstd::prelude::*;

use crate::error::QoiError;
use crate::header::{end_marker, header_bytes, magic_seq, parse_header_spec, QOIHeader};
use crate::hia::{bulk_update, init_hia};
use crate::pixel::{px_hash, wadd, wsub, Pixel};

verus! {

/// The byte that encodes a run of `run` pixels, `1 <= run <= 62`.
pub open spec fn run_byte(run: int) -> u8 {
    (0xbf + run) as u8
}

/// The bytes that flush a pending run counter: one RUN op, or nothing
/// when no run is pending.
pub open spec fn flush_run(run: int) -> Seq<u8> {
    if run == 0 {
        Seq::empty()
    } else {
        seq![run_byte(run)]
    }
}

/// The DIFF byte for three biased two-bit channel deltas.
pub open spec fn diff_byte(dr2: u8, dg2: u8, db2: u8) -> u8 {
    (0x40 + dr2 * 16 + dg2 * 4 + db2) as u8
}

/// The op bytes the encoder emits for one pixel that did not extend a
/// run: INDEX when the table already holds it, else RGBA on an alpha
/// change, else the shortest of DIFF, LUMA and RGB that can carry the
/// channel deltas.
#[verifier::opaque]
pub open spec fn emit_px(prev: Pixel, hia: Seq<Pixel>, cur: Pixel) -> Seq<u8> {
    let h = px_hash(cur);
    if hia[h] == cur {
        seq![h as u8]
    } else if cur.a != prev.a {
        seq![0xffu8, cur.r, cur.g, cur.b, cur.a]
    } else {
        let dr = wsub(cur.r as int, prev.r as int);
        let dg = wsub(cur.g as int, prev.g as int);
        let db = wsub(cur.b as int, prev.b as int);
        let dr2 = wadd(dr as int, 2);
        let dg2 = wadd(dg as int, 2);
        let db2 = wadd(db as int, 2);
        if dr2 < 4 && dg2 < 4 && db2 < 4 {
            seq![diff_byte(dr2, dg2, db2)]
        } else {
            let dg32 = wadd(dg as int, 32);
            let drg8 = wadd(wsub(dr as int, dg as int) as int, 8);
            let dbg8 = wadd(wsub(db as int, dg as int) as int, 8);
            if dg32 < 64 && drg8 < 16 && dbg8 < 16 {
                seq![(0x80 + dg32) as u8, (drg8 * 16 + dbg8) as u8]
            } else {
                seq![0xfeu8, cur.r, cur.g, cur.b]
            }
        }
    }
}

/// The encoder's state after emitting for one pixel that did not extend
/// a run: the pixel becomes previous and enters the table at its hash.
pub open spec fn emit_state(hia: Seq<Pixel>, cur: Pixel) -> Seq<Pixel> {
    hia.update(px_hash(cur), cur)
}

/// The body bytes the encoder emits for the remaining pixels, starting
/// from a previous pixel, a pending run count and a table. A pixel equal
/// to the previous one only bumps the run counter (flushed at 62); any
/// other pixel flushes the pending run and emits its own op.
pub open spec fn encode_body(pixels: Seq<Pixel>, prev: Pixel, run: int, hia: Seq<Pixel>) -> Seq<u8>
    decreases pixels.len(),
{
    if pixels.len() == 0 {
        flush_run(run)
    } else {
        let cur = pixels[0];
        if cur == prev {
            if run == 61 {
                seq![0xfdu8] + encode_body(pixels.skip(1), prev, 0, hia)
            } else {
                encode_body(pixels.skip(1), prev, run + 1, hia)
            }
        } else {
            flush_run(run) + emit_px(prev, hia, cur) + encode_body(
                pixels.skip(1),
                cur,
                0,
                emit_state(hia, cur),
            )
        }
    }
}

/// The body bytes for a whole image.
pub open spec fn encode_body_spec(pixels: Seq<Pixel>) -> Seq<u8> {
    encode_body(pixels, Pixel::initial(), 0, init_hia())
}

/// The whole stream for a whole image: magic, header, body, end marker.
pub open spec fn encode_stream(pixels: Seq<Pixel>, meta: QOIHeader) -> Seq<u8> {
    magic_seq() + header_bytes(meta) + encode_body_spec(pixels) + end_marker()
}

/// The pixel a DIFF byte reconstructs from the previous pixel: each
/// two-bit field is a channel delta biased by 2; alpha is carried over.
pub open spec fn diff_apply(prev: Pixel, b: u8) -> Pixel {
    Pixel {
        r: wadd(prev.r as int, ((b >> 4) & 3) - 2),
        g: wadd(prev.g as int, ((b >> 2) & 3) - 2),
        b: wadd(prev.b as int, (b & 3) - 2),
        a: prev.a,
    }
}

/// The pixel a LUMA op reconstructs: the op byte carries the green delta
/// biased by 32, the operand byte the red and blue deltas relative to
/// the green one, biased by 8; alpha is carried over.
pub open spec fn luma_apply(prev: Pixel, b0: u8, b1: u8) -> Pixel {
    let dg = (b0 & 0x3f) - 32;
    Pixel {
        r: wadd(prev.r as int, ((b1 >> 4) - 8) + dg),
        g: wadd(prev.g as int, dg),
        b: wadd(prev.b as int, ((b1 & 0xf) - 8) + dg),
        a: prev.a,
    }
}

/// The pixels the decoder reads from the remaining body bytes, given the
/// previous pixel, the table as of its last resynchronization, and the
/// pixels appended since then ("pending"): the table is brought up to
/// date only when a RUN or INDEX op needs it, and pixels a RUN appends
/// never enter it. `None` means an op ran past the end of the body.
#[verifier::opaque]
pub open spec fn decode_body(
    bytes: Seq<u8>,
    prev: Pixel,
    hia: Seq<Pixel>,
    pending: Seq<Pixel>,
) -> Option<Seq<Pixel>>
    decreases bytes.len(),
{
    if bytes.len() == 0 {
        Some(Seq::empty())
    } else {
        let b = bytes[0];
        if b == 0xff {
            if bytes.len() >= 5 {
                let cur = Pixel { r: bytes[1], g: bytes[2], b: bytes[3], a: bytes[4] };
                match decode_body(bytes.skip(5), cur, hia, pending.push(cur)) {
                    Some(rest) => Some(seq![cur] + rest),
                    None => None,
                }
            } else {
                None
            }
        } else if b == 0xfe {
            if bytes.len() >= 4 {
                let cur = Pixel { r: bytes[1], g: bytes[2], b: bytes[3], a: prev.a };
                match decode_body(bytes.skip(4), cur, hia, pending.push(cur)) {
                    Some(rest) => Some(seq![cur] + rest),
                    None => None,
                }
            } else {
                None
            }
        } else if b < 0x40 {
            let synced = bulk_update(hia, pending);
            let cur = synced[b as int];
            match decode_body(bytes.skip(1), cur, synced, seq![cur]) {
                Some(rest) => Some(seq![cur] + rest),
                None => None,
            }
        } else if b < 0x80 {
            let cur = diff_apply(prev, b);
            match decode_body(bytes.skip(1), cur, hia, pending.push(cur)) {
                Some(rest) => Some(seq![cur] + rest),
                None => None,
            }
        } else if b < 0xc0 {
            if bytes.len() >= 2 {
                let cur = luma_apply(prev, b, bytes[1]);
                match decode_body(bytes.skip(2), cur, hia, pending.push(cur)) {
                    Some(rest) => Some(seq![cur] + rest),
                    None => None,
                }
            } else {
                None
            }
        } else {
            let count = (b - 0xc0) + 1;
            let synced = bulk_update(hia, pending);
            match decode_body(bytes.skip(1), prev, synced, Seq::empty()) {
                Some(rest) => Some(Seq::new(count as nat, |i: int| prev) + rest),
                None => None,
            }
        }
    }
}

/// The pixels a whole body decodes to. When the body opens with a RUN
/// op, the initial previous pixel is seeded into the table first: the
/// pixels of that run never enter the table on their own, yet a later
/// INDEX may name them.
pub open spec fn decode_body_spec(body: Seq<u8>) -> Option<Seq<Pixel>> {
    let hia0 = if body.len() > 0 && 0xc0 <= body[0] && body[0] < 0xfe {
        init_hia().update(px_hash(Pixel::initial()), Pixel::initial())
    } else {
        init_hia()
    };
    decode_body(body, Pixel::initial(), hia0, Seq::empty())
}

/// What decoding a whole stream yields: the header checks, the end
/// marker check, the body, and the pixel-count check, in that order.
pub open spec fn decode_stream(bytes: Seq<u8>) -> Result<Seq<Pixel>, QoiError> {
    match parse_header_spec(bytes) {
        Err(e) => Err(e),
        Ok(meta) => if bytes.len() < 22 {
            Err(QoiError::TruncatedInput)
        } else if bytes.subrange(bytes.len() - 8, bytes.len() as int) != end_marker() {
            Err(QoiError::BadEndMarker)
        } else if meta.width * meta.height > usize::MAX {
            Err(QoiError::DimensionOverflow)
        } else {
            match decode_body_spec(bytes.subrange(14, bytes.len() - 8)) {
                None => Err(QoiError::TruncatedInput),
                Some(px) => if px.len() == meta.width * meta.height {
                    Ok(px)
                } else {
                    Err(
                        QoiError::SizeMismatch {
                            found: px.len() as usize,
                            expected: (meta.width * meta.height) as usize,
                        },
                    )
                },
            }
        },
    }
}

/// When the table already holds the pixel, the op is a one-byte INDEX.
pub proof fn lemma_emit_index(prev: Pixel, hia: Seq<Pixel>, cur: Pixel)
    requires
        hia[px_hash(cur)] == cur,
    ensures
        emit_px(prev, hia, cur) == seq![px_hash(cur) as u8],
{
    reveal(emit_px);
}

/// When the alpha changed and the table misses, the op is a full RGBA.
pub proof fn lemma_emit_rgba(prev: Pixel, hia: Seq<Pixel>, cur: Pixel)
    requires
        hia[px_hash(cur)] != cur,
        cur.a != prev.a,
    ensures
        emit_px(prev, hia, cur) == seq![0xffu8, cur.r, cur.g, cur.b, cur.a],
{
    reveal(emit_px);
}

/// When every channel delta fits two biased bits, the op is a DIFF.
pub proof fn lemma_emit_diff(prev: Pixel, hia: Seq<Pixel>, cur: Pixel)
    requires
        hia[px_hash(cur)] != cur,
        cur.a == prev.a,
        wadd(wsub(cur.r as int, prev.r as int) as int, 2) < 4,
        wadd(wsub(cur.g as int, prev.g as int) as int, 2) < 4,
        wadd(wsub(cur.b as int, prev.b as int) as int, 2) < 4,
    ensures
        emit_px(prev, hia, cur) == seq![
            diff_byte(
                wadd(wsub(cur.r as int, prev.r as int) as int, 2),
                wadd(wsub(cur.g as int, prev.g as int) as int, 2),
                wadd(wsub(cur.b as int, prev.b as int) as int, 2),
            ),
        ],
{
    reveal(emit_px);
}

/// When a DIFF does not fit but the green delta and the red and blue
/// deltas relative to it fit their fields, the op is a LUMA.
pub proof fn lemma_emit_luma(prev: Pixel, hia: Seq<Pixel>, cur: Pixel)
    requires
        hia[px_hash(cur)] != cur,
        cur.a == prev.a,
        !(wadd(wsub(cur.r as int, prev.r as int) as int, 2) < 4 && wadd(
            wsub(cur.g as int, prev.g as int) as int,
            2,
        ) < 4 && wadd(wsub(cur.b as int, prev.b as int) as int, 2) < 4),
        wadd(wsub(cur.g as int, prev.g as int) as int, 32) < 64,
        wadd(
            wsub(
                wsub(cur.r as int, prev.r as int) as int,
                wsub(cur.g as int, prev.g as int) as int,
            ) as int,
            8,
        ) < 16,
        wadd(
            wsub(
                wsub(cur.b as int, prev.b as int) as int,
                wsub(cur.g as int, prev.g as int) as int,
            ) as int,
            8,
        ) < 16,
    ensures
        emit_px(prev, hia, cur) == seq![
            (0x80 + wadd(wsub(cur.g as int, prev.g as int) as int, 32)) as u8,
            (wadd(
                wsub(
                    wsub(cur.r as int, prev.r as int) as int,
                    wsub(cur.g as int, prev.g as int) as int,
                ) as int,
                8,
            ) * 16 + wadd(
                wsub(
                    wsub(cur.b as int, prev.b as int) as int,
                    wsub(cur.g as int, prev.g as int) as int,
                ) as int,
                8,
            )) as u8,
        ],
{
    reveal(emit_px);
}

/// When neither a DIFF nor a LUMA fits, the op is an RGB; the alpha
/// rides along as the previous pixel's.
pub proof fn lemma_emit_rgb(prev: Pixel, hia: Seq<Pixel>, cur: Pixel)
    requires
        hia[px_hash(cur)] != cur,
        cur.a == prev.a,
        !(wadd(wsub(cur.r as int, prev.r as int) as int, 2) < 4 && wadd(
            wsub(cur.g as int, prev.g as int) as int,
            2,
        ) < 4 && wadd(wsub(cur.b as int, prev.b as int) as int, 2) < 4),
        !(wadd(wsub(cur.g as int, prev.g as int) as int, 32) < 64 && wadd(
            wsub(
                wsub(cur.r as int, prev.r as int) as int,
                wsub(cur.g as int, prev.g as int) as int,
            ) as int,
            8,
        ) < 16 && wadd(
            wsub(
                wsub(cur.b as int, prev.b as int) as int,
                wsub(cur.g as int, prev.g as int) as int,
            ) as int,
            8,
        ) < 16),
    ensures
        emit_px(prev, hia, cur) == seq![0xfeu8, cur.r, cur.g, cur.b],
{
    reveal(emit_px);
}

/// Prefixes every successful decode result; failure stays failure.
pub open spec fn attach(prefix: Seq<Pixel>, o: Option<Seq<Pixel>>) -> Option<Seq<Pixel>> {
    match o {
        Some(rest) => Some(prefix + rest),
        None => None,
    }
}

/// Attaching nothing changes nothing.
pub proof fn lemma_attach_nil(o: Option<Seq<Pixel>>)
    ensures
        attach(Seq::empty(), o) == o,
{
    match o {
        Some(rest) => {
            assert(Seq::<Pixel>::empty() + rest =~= rest);
        },
        None => {},
    }
}

/// Attaching twice is attaching the concatenation.
pub proof fn lemma_attach_assoc(a: Seq<Pixel>, b: Seq<Pixel>, o: Option<Seq<Pixel>>)
    ensures
        attach(a, attach(b, o)) == attach(a + b, o),
{
    match o {
        Some(rest) => {
            assert(a + (b + rest) =~= (a + b) + rest);
        },
        None => {},
    }
}

/// Decoding an exhausted body yields no further pixels.
pub proof fn lemma_decode_end(prev: Pixel, hia: Seq<Pixel>, pending: Seq<Pixel>)
    ensures
        decode_body(Seq::empty(), prev, hia, pending) == Some(Seq::<Pixel>::empty()),
{
    reveal(decode_body);
}

/// Unfolds one RGBA op, or fails on a truncated one.
pub proof fn lemma_decode_rgba(bytes: Seq<u8>, prev: Pixel, hia: Seq<Pixel>, pending: Seq<Pixel>)
    requires
        bytes.len() >= 1,
        bytes[0] == 0xff,
    ensures
        bytes.len() >= 5 ==> decode_body(bytes, prev, hia, pending) == attach(
            seq![Pixel { r: bytes[1], g: bytes[2], b: bytes[3], a: bytes[4] }],
            decode_body(
                bytes.skip(5),
                Pixel { r: bytes[1], g: bytes[2], b: bytes[3], a: bytes[4] },
                hia,
                pending.push(Pixel { r: bytes[1], g: bytes[2], b: bytes[3], a: bytes[4] }),
            ),
        ),
        bytes.len() < 5 ==> decode_body(bytes, prev, hia, pending) == None::<Seq<Pixel>>,
{
    reveal(decode_body);
}

/// Unfolds one RGB op, or fails on a truncated one.
pub proof fn lemma_decode_rgb(bytes: Seq<u8>, prev: Pixel, hia: Seq<Pixel>, pending: Seq<Pixel>)
    requires
        bytes.len() >= 1,
        bytes[0] == 0xfe,
    ensures
        bytes.len() >= 4 ==> decode_body(bytes, prev, hia, pending) == attach(
            seq![Pixel { r: bytes[1], g: bytes[2], b: bytes[3], a: prev.a }],
            decode_body(
                bytes.skip(4),
                Pixel { r: bytes[1], g: bytes[2], b: bytes[3], a: prev.a },
                hia,
                pending.push(Pixel { r: bytes[1], g: bytes[2], b: bytes[3], a: prev.a }),
            ),
        ),
        bytes.len() < 4 ==> decode_body(bytes, prev, hia, pending) == None::<Seq<Pixel>>,
{
    reveal(decode_body);
}

/// Unfolds one INDEX op: the table, synchronized, names the pixel.
pub proof fn lemma_decode_index(bytes: Seq<u8>, prev: Pixel, hia: Seq<Pixel>, pending: Seq<Pixel>)
    requires
        bytes.len() >= 1,
        bytes[0] < 0x40,
    ensures
        decode_body(bytes, prev, hia, pending) == attach(
            seq![bulk_update(hia, pending)[bytes[0] as int]],
            decode_body(
                bytes.skip(1),
                bulk_update(hia, pending)[bytes[0] as int],
                bulk_update(hia, pending),
                seq![bulk_update(hia, pending)[bytes[0] as int]],
            ),
        ),
{
    reveal(decode_body);
}

/// Unfolds one DIFF op.
pub proof fn lemma_decode_diff(bytes: Seq<u8>, prev: Pixel, hia: Seq<Pixel>, pending: Seq<Pixel>)
    requires
        bytes.len() >= 1,
        0x40 <= bytes[0] < 0x80,
    ensures
        decode_body(bytes, prev, hia, pending) == attach(
            seq![diff_apply(prev, bytes[0])],
            decode_body(
                bytes.skip(1),
                diff_apply(prev, bytes[0]),
                hia,
                pending.push(diff_apply(prev, bytes[0])),
            ),
        ),
{
    reveal(decode_body);
}

/// Unfolds one LUMA op, or fails on a truncated one.
pub proof fn lemma_decode_luma(bytes: Seq<u8>, prev: Pixel, hia: Seq<Pixel>, pending: Seq<Pixel>)
    requires
        bytes.len() >= 1,
        0x80 <= bytes[0] < 0xc0,
    ensures
        bytes.len() >= 2 ==> decode_body(bytes, prev, hia, pending) == attach(
            seq![luma_apply(prev, bytes[0], bytes[1])],
            decode_body(
                bytes.skip(2),
                luma_apply(prev, bytes[0], bytes[1]),
                hia,
                pending.push(luma_apply(prev, bytes[0], bytes[1])),
            ),
        ),
        bytes.len() < 2 ==> decode_body(bytes, prev, hia, pending) == None::<Seq<Pixel>>,
{
    reveal(decode_body);
}

/// Unfolds one RUN op: the previous pixel, repeated; the table is
/// synchronized and the repeats never enter it.
pub proof fn lemma_decode_run(bytes: Seq<u8>, prev: Pixel, hia: Seq<Pixel>, pending: Seq<Pixel>)
    requires
        bytes.len() >= 1,
        0xc0 <= bytes[0],
        bytes[0] < 0xfe,
    ensures
        decode_body(bytes, prev, hia, pending) == attach(
            Seq::new(((bytes[0] - 0xc0) + 1) as nat, |i: int| prev),
            decode_body(bytes.skip(1), prev, bulk_update(hia, pending), Seq::empty()),
        ),
{
    reveal(decode_body);
}

/// Every encoded stream ends in the eight-byte end marker.
pub proof fn lemma_end_marker_invariant(pixels: Seq<Pixel>, meta: QOIHeader)
    ensures
        encode_stream(pixels, meta).len() >= 8,
        encode_stream(pixels, meta).subrange(
            encode_stream(pixels, meta).len() - 8,
            encode_stream(pixels, meta).len() as int,
        ) == end_marker(),
{
    let bytes = encode_stream(pixels, meta);
    assert(bytes.subrange(bytes.len() - 8, bytes.len() as int) =~= end_marker());
}

/// A run of identical pixels neither reads nor writes the table: what
/// the encoder emits for it does not depend on the table at all, and
/// whatever follows the run continues from the table unchanged.
pub proof fn lemma_run_no_hia_update(
    pixels: Seq<Pixel>,
    prev: Pixel,
    run: int,
    hia: Seq<Pixel>,
    hia2: Seq<Pixel>,
)
    requires
        forall|i: int| 0 <= i < pixels.len() ==> pixels[i] == prev,
    ensures
        encode_body(pixels, prev, run, hia) == encode_body(pixels, prev, run, hia2),
    decreases pixels.len(),
{
    if pixels.len() > 0 {
        assert(pixels[0] == prev);
        assert(forall|i: int|
            0 <= i < pixels.skip(1).len() ==> #[trigger] pixels.skip(1)[i] == pixels[i + 1]);
        if run == 61 {
            lemma_run_no_hia_update(pixels.skip(1), prev, 0, hia, hia2);
        } else {
            lemma_run_no_hia_update(pixels.skip(1), prev, run + 1, hia, hia2);
        }
    }
}

} // verus!
