//! The six QOI ops: tag constants, classification of a leading byte, and
//! the bit-level expansion of DIFF and LUMA operand fields.

use vstd::prelude::*;

use crate::pixel::{wadd, wsub};

verus! {

pub const QOI_OP_RGBA: u8 = 0xff;

pub const QOI_OP_RGB: u8 = 0xfe;

pub const QOI_OP_INDEX: u8 = 0x00;

pub const QOI_OP_DIFF: u8 = 0x40;

pub const QOI_OP_LUMA: u8 = 0x80;

pub const QOI_OP_RUN: u8 = 0xc0;

/// Whether a leading byte is a RUN op: the top quarter of the byte range
/// short of the two explicit RGB and RGBA tags.
pub fn is_run(byte: u8) -> (r: bool)
    ensures
        r == (0xc0 <= byte && byte < 0xfe),
{
    QOI_OP_RUN <= byte && byte < QOI_OP_RGB
}

/// The run length a RUN byte stands for: its low six bits plus one.
pub fn length_from_op_run(op_run: u8) -> (r: usize)
    ensures
        r == (op_run & 0x3f) + 1,
        1 <= r <= 64,
    {
    proof {
        assert(op_run & 0x3f < 64) by (bit_vector);
    }
    (op_run & 0x3f) as usize + 1
}

/// Expands a DIFF byte into its three biased two-bit channel deltas
/// (and a zero alpha delta).
pub fn op_diff_expand222(x: u8) -> (r: [u8; 4])
    ensures
        r[0] == (x >> 4) & 3,
        r[1] == (x >> 2) & 3,
        r[2] == x & 3,
        r[3] == 0,
{
    [(x >> 4) & 3, (x >> 2) & 3, x & 3, 0]
}

/// Expands a LUMA op byte and its operand byte into the four raw channel
/// deltas, each already unbiased, ready to add to the previous pixel.
/// The green delta biased by minus eight is what both split fields need
/// added, so it is computed once from the op byte alone.
pub fn op_luma_expand644(op_and_dg: u8, byte_2: u8) -> (r: [u8; 4])
    ensures
        r[0] == wadd((byte_2 >> 4) as int, wsub(op_and_dg as int, 168) as int),
        r[1] == wadd(wsub(op_and_dg as int, 168) as int, 8),
        r[2] == wadd((byte_2 & 0xf) as int, wsub(op_and_dg as int, 168) as int),
        r[3] == 0,
{
    let dg_m8 = op_and_dg.wrapping_sub(168u8);
    proof {
        assert(op_and_dg.wrapping_sub(168u8) == wsub(op_and_dg as int, 168));
    }
    [
        (byte_2 >> 4).wrapping_add(dg_m8),
        dg_m8.wrapping_add(8u8),
        (byte_2 & 0xf).wrapping_add(dg_m8),
        0,
    ]
}

/// What a 16-lane equality mask says about the run at the current lane.
pub enum RunResult {
    /// The run covers every remaining lane; it may continue past them.
    AtLeast(usize),
    /// The run ends within the remaining lanes.
    Exactly(usize),
}

/// Counts the consecutive set bits of `mask` from bit zero, looking only
/// at the `16 - rotation` lanes not yet consumed. A full window means
/// the run may extend past the window.
pub fn run_length(mask: u16, rotation: u8) -> (r: RunResult)
    requires
        rotation < 16,
    ensures
        match r {
            RunResult::AtLeast(n) => {
                &&& n == 16 - rotation
                &&& forall|j: u16| j < 16 - rotation ==> #[trigger] ((mask >> j) & 1) == 1
            },
            RunResult::Exactly(n) => {
                &&& n < 16 - rotation
                &&& forall|j: u16| j < n ==> #[trigger] ((mask >> j) & 1) == 1
                &&& ((mask >> (n as u16)) & 1) == 0
            },
        },
{
    let window: usize = 16 - (rotation as usize);
    let mut n: usize = 0;
    while n < window && (mask >> (n as u16)) & 1 == 1
        invariant
            n <= window,
            window == 16 - rotation,
            forall|j: u16| j < n ==> #[trigger] ((mask >> j) & 1) == 1,
        decreases window - n,
    {
        n += 1;
    }
    if n == window {
        RunResult::AtLeast(n)
    } else {
        proof {
            let m = mask;
            let k = n as u16;
            assert((m >> k) & 1 == 0 || (m >> k) & 1 == 1) by (bit_vector);
        }
        RunResult::Exactly(n)
    }
}

} // verus!
