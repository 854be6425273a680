//! Quantization to 8 bits by the exact scale: values are measured in steps of the scale before it is
//! rounded to 16 bits. [`crate::quant::quantize_f32_to_q8_0`] measures them in steps of the scale as
//! it is stored.

use vstd::prelude::*;
use crate::bytes::push_all;
use crate::dtype::{block_count, blocks_for};
use crate::float::{
    is_narrow, is_rounded, largest, largest_magnitude, FloatUnit, ONE, ONE_TWENTY_SEVEN,
};
use crate::quant::{
    block_part, byte_step, clamp, is_scale, is_step, lemma_block_in, scale_in, Q8_0Block,
};

verus! {

/// `scale` and `qs` are a block of at most 32 values of 8 bits each. The steps are multiples of the
/// scale before it is rounded. What lies behind the values is 0.
pub open spec fn is_exact_block<U: FloatUnit>(
    u: &U,
    values: Seq<u32>,
    scale: u16,
    qs: Seq<u8>,
) -> bool {
    exists|s: u32|
        {
            &&& #[trigger] is_scale(u, largest(values), ONE_TWENTY_SEVEN, s)
            &&& is_narrow(u, s, scale)
            &&& forall|i: int|
                0 <= i < values.len() ==> is_step(
                    u,
                    values[i],
                    s,
                    -128,
                    127,
                    #[trigger] byte_step(qs, i),
                )
            &&& forall|i: int| values.len() <= i < 32 ==> #[trigger] qs[i] == 0
        }
}

/// The first `n` blocks of `d` hold the first values.
pub open spec fn exact_blocks<U: FloatUnit>(u: &U, values: Seq<u32>, d: Seq<u8>, n: nat) -> bool {
    forall|b: int|
        0 <= b < n ==> is_exact_block(
            u,
            #[trigger] block_part(values, b),
            scale_in(d, 34 * b),
            d.subrange(34 * b + 2, 34 * b + 34),
        )
}

fn exact_block<U: FloatUnit>(src: &[u32], unit: &U) -> (b: Q8_0Block)
    requires
        src@.len() <= 32,
    ensures
        is_exact_block(unit, src@, b.scale, b.qs@),
{
    let top: u32 = largest_magnitude(src);
    let s: u32 = if top > 0 {
        unit.divide(top, ONE_TWENTY_SEVEN)
    } else {
        ONE
    };
    let scale: u16 = unit.narrow(s);
    let mut qs: [u8; 32] = [0u8; 32];
    let mut i: usize = 0;
    while i < src.len()
        invariant
            i <= src@.len() <= 32,
            forall|k: int|
                0 <= k < i ==> is_step(
                    unit,
                    src@[k],
                    s,
                    -128,
                    127,
                    #[trigger] byte_step(qs@, k),
                ),
            forall|k: int| i <= k < 32 ==> #[trigger] qs@[k] == 0,
        decreases src@.len() - i,
    {
        let ghost before = qs@;
        let q: i32 = unit.round_quotient(src[i], s);
        let v: u8 = (clamp(q, -128, 127) + 128) as u8;
        qs[i] = v;
        proof {
            assert(qs@ == before.update(i as int, v));
            assert(is_rounded(unit, src@[i as int], s, q));
            assert forall|k: int| 0 <= k < i + 1 implies is_step(
                unit,
                src@[k],
                s,
                -128,
                127,
                #[trigger] byte_step(qs@, k),
            ) by {
                if k < i {
                    assert(byte_step(before, k) == byte_step(qs@, k));
                }
            }
        }
        i = i + 1;
    }
    assert(is_scale(unit, largest(src@), ONE_TWENTY_SEVEN, s));
    Q8_0Block { scale, qs }
}

/// Quantizes values into blocks of 8-bit values, by the exact scale of each block. The last block
/// may be of fewer values.
pub fn quantize_f32_to_q8_0<U: FloatUnit>(data: &[u32], unit: &U) -> (out: Vec<u8>)
    ensures
        out@.len() == 34 * block_count(data@.len()),
        exact_blocks(unit, data@, out@, block_count(data@.len())),
{
    let mut out: Vec<u8> = Vec::new();
    let n: usize = blocks_for(data.len());
    let size: usize = data.len();
    let mut b: usize = 0;
    while b < n
        invariant
            b <= n == block_count(size as nat),
            size == data@.len(),
            out@.len() == 34 * b,
            exact_blocks(unit, data@, out@, b as nat),
        decreases n - b,
    {
        let end: usize = if size - 32 * b > 32 {
            32 * b + 32
        } else {
            size
        };
        let src = vstd::slice::slice_subrange(data, 32 * b, end);
        assert(src@ == block_part(data@, b as int));
        let block = exact_block(src, unit);
        let ghost before = out@;
        push_all(&mut out, block.to_bytes().as_slice());
        proof {
            lemma_block_in(out@, before, block.scale, block.qs@);
            assert forall|k: int| 0 <= k < b + 1 implies is_exact_block(
                unit,
                #[trigger] block_part(data@, k),
                scale_in(out@, 34 * k),
                out@.subrange(34 * k + 2, 34 * k + 34),
            ) by {
                if k < b {
                    assert(out@.subrange(34 * k, 34 * k + 2) =~= before.subrange(
                        34 * k,
                        34 * k + 2,
                    ));
                    assert(out@.subrange(34 * k + 2, 34 * k + 34) =~= before.subrange(
                        34 * k + 2,
                        34 * k + 34,
                    ));
                }
            }
        }
        b = b + 1;
    }
    out
}

} // verus!
