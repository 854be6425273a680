//! Block quantization: 32 values per block, as small integers with a common 16-bit scale.

use vstd::prelude::*;
use crate::bytes::{le_bytes, le_value, push_all, push_le, read_le};
use crate::bytes::{lemma_le_round_trip, lemma_le_value_bound, lemma_pow256_values};
use crate::dtype::{block_count, blocks_for};
use crate::float::{
    is_narrow, is_quotient, is_rounded, is_scaled, is_wide, largest, largest_magnitude, FloatUnit,
    ONE, ONE_TWENTY_SEVEN, SEVEN,
};

verus! {

/// `v`, or the nearer of `lo` and `hi` where it is not between them.
pub open spec fn clamped(v: int, lo: int, hi: int) -> int {
    if v < lo {
        lo
    } else if v > hi {
        hi
    } else {
        v
    }
}

pub(crate) fn clamp(v: i32, lo: i32, hi: i32) -> (r: i32)
    requires
        lo <= hi,
    ensures
        r == clamped(v as int, lo as int, hi as int),
{
    if v < lo {
        lo
    } else if v > hi {
        hi
    } else {
        v
    }
}

/// A block of 32 values of 4 bits each: the pattern of the scale and the packed values, of which
/// byte `i` holds value `2 * i` in its low half and value `2 * i + 1` in its high half.
#[derive(Debug, Clone, Copy)]
pub struct Q4_0Block {
    pub scale: u16,
    pub qs: [u8; 16],
}

/// A block of 32 values of 8 bits each: the pattern of the scale and the values.
#[derive(Debug, Clone, Copy)]
pub struct Q8_0Block {
    pub scale: u16,
    pub qs: [u8; 32],
}

/// Value `i` of packed 4-bit values, as a multiple of the scale.
pub open spec fn nibble_step(qs: Seq<u8>, i: int) -> int {
    if i % 2 == 0 {
        qs[i / 2] % 16 - 8
    } else {
        qs[i / 2] / 16 - 8
    }
}

/// Value `i` of 8-bit values, as a multiple of the scale.
pub open spec fn byte_step(qs: Seq<u8>, i: int) -> int {
    qs[i] - 128
}

/// `s` is the scale for values up to the magnitude `top`: the quotient by `unit`, or 1 where all
/// values are 0.
pub open spec fn is_scale<U: FloatUnit>(u: &U, top: u32, unit: u32, s: u32) -> bool {
    if top > 0 {
        is_quotient(u, top, unit, s)
    } else {
        s == ONE
    }
}

/// `step` is `v` divided by `s`, rounded, and limited to `lo..=hi`.
pub open spec fn is_step<U: FloatUnit>(
    u: &U,
    v: u32,
    s: u32,
    lo: int,
    hi: int,
    step: int,
) -> bool {
    exists|q: i32| #[trigger] is_rounded(u, v, s, q) && step == clamped(q as int, lo, hi)
}

/// `scale` and `qs` are a block of 32 values of 4 bits each.
pub open spec fn is_q4_block<U: FloatUnit>(
    u: &U,
    values: Seq<u32>,
    scale: u16,
    qs: Seq<u8>,
) -> bool {
    exists|s: u32|
        {
            &&& #[trigger] is_scale(u, largest(values), SEVEN, s)
            &&& is_narrow(u, s, scale)
            &&& forall|i: int|
                0 <= i < 32 ==> is_step(u, values[i], s, -8, 7, #[trigger] nibble_step(qs, i))
        }
}

/// `scale` and `qs` are a block of at most 32 values of 8 bits each. The steps are multiples of
/// the scale as it is stored. What lies behind the values is 0.
pub open spec fn is_q8_block<U: FloatUnit>(
    u: &U,
    values: Seq<u32>,
    scale: u16,
    qs: Seq<u8>,
) -> bool {
    exists|s: u32, w: u32|
        {
            &&& #[trigger] is_scale(u, largest(values), ONE_TWENTY_SEVEN, s)
            &&& is_narrow(u, s, scale)
            &&& #[trigger] is_wide(u, scale, w)
            &&& forall|i: int|
                0 <= i < values.len() ==> is_step(
                    u,
                    values[i],
                    w,
                    -127,
                    127,
                    #[trigger] byte_step(qs, i),
                )
            &&& forall|i: int| values.len() <= i < 32 ==> #[trigger] qs[i] == 0
        }
}

impl Q4_0Block {
    /// Values per block.
    pub const BLOCK_SIZE: usize = 32;

    /// Bytes per block.
    pub const BLOCK_BYTES: usize = 18;

    /// The block as bytes.
    pub open spec fn encoding(self) -> Seq<u8> {
        le_bytes(self.scale as nat, 2) + self.qs@
    }

    /// Quantizes 32 values into this block.
    pub fn quantize<U: FloatUnit>(&mut self, src: &[u32], unit: &U)
        requires
            src@.len() == 32,
        ensures
            is_q4_block(unit, src@, final(self).scale, final(self).qs@),
    {
        let top: u32 = largest_magnitude(src);
        let s: u32 = if top > 0 {
            unit.divide(top, SEVEN)
        } else {
            ONE
        };
        self.scale = unit.narrow(s);
        let ghost scale = self.scale;
        let mut i: usize = 0;
        while i < 16
            invariant
                i <= 16,
                src@.len() == 32,
                self.scale == scale,
                forall|k: int|
                    0 <= k < 2 * i ==> is_step(
                        unit,
                        src@[k],
                        s,
                        -8,
                        7,
                        #[trigger] nibble_step(self.qs@, k),
                    ),
            decreases 16 - i,
        {
            let ghost before = self.qs@;
            let q0: i32 = unit.round_quotient(src[2 * i], s);
            let q1: i32 = unit.round_quotient(src[2 * i + 1], s);
            let lo: u8 = (clamp(q0, -8, 7) + 8) as u8;
            let hi: u8 = (clamp(q1, -8, 7) + 8) as u8;
            self.qs[i] = lo + 16 * hi;
            proof {
                assert(self.qs@ == before.update(i as int, (lo + 16 * hi) as u8));
                assert forall|k: int| 0 <= k < 2 * i + 2 implies is_step(
                    unit,
                    src@[k],
                    s,
                    -8,
                    7,
                    #[trigger] nibble_step(self.qs@, k),
                ) by {
                    if k < 2 * i {
                        assert(nibble_step(before, k) == nibble_step(self.qs@, k));
                    } else if k == 2 * i {
                        assert(is_rounded(unit, src@[k], s, q0));
                    } else {
                        assert(is_rounded(unit, src@[k], s, q1));
                    }
                }
            }
            i = i + 1;
        }
        assert(is_scale(unit, largest(src@), SEVEN, s));
    }

    /// Value `i` as a multiple of the scale.
    pub fn step(&self, i: usize) -> (r: i32)
        requires
            i < 32,
        ensures
            r == nibble_step(self.qs@, i as int),
            -8 <= r <= 7,
    {
        let byte: u8 = self.qs[i / 2];
        if i % 2 == 0 {
            (byte % 16) as i32 - 8
        } else {
            (byte / 16) as i32 - 8
        }
    }

    /// Writes the 32 values of this block into `dst` from `dst_offset` on.
    pub fn dequantize_into<U: FloatUnit>(&self, dst: &mut [u32], dst_offset: usize, unit: &U)
        requires
            dst_offset + 32 <= old(dst)@.len(),
        ensures
            final(dst)@.len() == old(dst)@.len(),
            forall|i: int|
                0 <= i < old(dst)@.len() && !(dst_offset <= i < dst_offset + 32)
                    ==> #[trigger] final(dst)@[i] == old(dst)@[i],
            is_unpacked(
                unit,
                self.scale,
                nibble_steps(self.qs@),
                final(dst)@.subrange(dst_offset as int, dst_offset + 32),
            ),
    {
        let mut block: [u32; 32] = [0u32; 32];
        self.dequantize(&mut block, unit);
        put_block(dst, dst_offset, &block);
    }

    /// The 32 values of this block.
    pub fn dequantize<U: FloatUnit>(&self, dst: &mut [u32; 32], unit: &U)
        ensures
            is_unpacked(unit, self.scale, nibble_steps(self.qs@), final(dst)@),
    {
        let w: u32 = unit.widen(self.scale);
        let mut i: usize = 0;
        while i < 32
            invariant
                i <= 32,
                forall|k: int|
                    0 <= k < i ==> is_scaled(
                        unit,
                        nibble_steps(self.qs@)[k],
                        w,
                        #[trigger] dst@[k],
                    ),
            decreases 32 - i,
        {
            let ghost before = dst@;
            let v: u32 = unit.scale(self.step(i), w);
            dst[i] = v;
            assert(dst@ == before.update(i as int, v));
            i = i + 1;
        }
        assert(is_wide(unit, self.scale, w));
    }

    /// The block as bytes.
    pub fn to_bytes(&self) -> (out: Vec<u8>)
        ensures
            out@ == self.encoding(),
    {
        let mut out: Vec<u8> = Vec::new();
        push_le(&mut out, self.scale as u64, 2);
        push_all(&mut out, self.qs.as_slice());
        assert(out@ =~= self.encoding());
        out
    }

    /// The block in the 18 bytes at `at`.
    pub fn from_bytes(data: &[u8], at: usize) -> (b: Q4_0Block)
        requires
            at + 18 <= data@.len(),
        ensures
            b.encoding() == data@.subrange(at as int, at + 18),
            b.scale == scale_in(data@, at as int),
            b.qs@ == data@.subrange(at + 2, at + 18),
    {
        let size: usize = data.len();
        let scale: u16 = read_scale(data, at);
        let mut qs: [u8; 16] = [0u8; 16];
        let mut i: usize = 0;
        while i < 16
            invariant
                i <= 16,
                at + 18 <= size == data@.len(),
                forall|k: int| 0 <= k < i ==> #[trigger] qs@[k] == data@[at + 2 + k],
            decreases 16 - i,
        {
            qs[i] = data[at + 2 + i];
            i = i + 1;
        }
        assert(qs@ =~= data@.subrange(at + 2, at + 18));
        proof {
            lemma_scale_in(data@, at as int);
            assert(data@.subrange(at as int, at + 18) =~= data@.subrange(at as int, at + 2)
                + data@.subrange(at + 2, at + 18));
        }
        Q4_0Block { scale, qs }
    }
}

impl Q8_0Block {
    /// Values per block.
    pub const BLOCK_SIZE: usize = 32;

    /// Bytes per block.
    pub const BLOCK_BYTES: usize = 34;

    /// The block as bytes.
    pub open spec fn encoding(self) -> Seq<u8> {
        le_bytes(self.scale as nat, 2) + self.qs@
    }

    /// Quantizes at most 32 values into a block.
    pub fn quantize<U: FloatUnit>(src: &[u32], unit: &U) -> (b: Q8_0Block)
        requires
            src@.len() <= 32,
        ensures
            is_q8_block(unit, src@, b.scale, b.qs@),
    {
        let top: u32 = largest_magnitude(src);
        let s: u32 = if top > 0 {
            unit.divide(top, ONE_TWENTY_SEVEN)
        } else {
            ONE
        };
        let scale: u16 = unit.narrow(s);
        let w: u32 = unit.widen(scale);
        let mut qs: [u8; 32] = [0u8; 32];
        let mut i: usize = 0;
        while i < src.len()
            invariant
                i <= src@.len() <= 32,
                forall|k: int|
                    0 <= k < i ==> is_step(
                        unit,
                        src@[k],
                        w,
                        -127,
                        127,
                        #[trigger] byte_step(qs@, k),
                    ),
                forall|k: int| i <= k < 32 ==> #[trigger] qs@[k] == 0,
            decreases src@.len() - i,
        {
            let ghost before = qs@;
            let q: i32 = unit.round_quotient(src[i], w);
            let v: u8 = (clamp(q, -127, 127) + 128) as u8;
            qs[i] = v;
            proof {
                assert(qs@ == before.update(i as int, v));
                assert(is_rounded(unit, src@[i as int], w, q));
                assert forall|k: int| 0 <= k < i + 1 implies is_step(
                    unit,
                    src@[k],
                    w,
                    -127,
                    127,
                    #[trigger] byte_step(qs@, k),
                ) by {
                    if k < i {
                        assert(byte_step(before, k) == byte_step(qs@, k));
                    }
                }
            }
            i = i + 1;
        }
        assert(is_scale(unit, largest(src@), ONE_TWENTY_SEVEN, s) && is_wide(unit, scale, w));
        Q8_0Block { scale, qs }
    }

    /// Value `i` as a multiple of the scale.
    pub fn step(&self, i: usize) -> (r: i32)
        requires
            i < 32,
        ensures
            r == byte_step(self.qs@, i as int),
            -128 <= r <= 127,
    {
        self.qs[i] as i32 - 128
    }

    /// The 32 values of this block.
    pub fn dequantize<U: FloatUnit>(&self, dst: &mut [u32; 32], unit: &U)
        ensures
            is_unpacked(unit, self.scale, byte_steps(self.qs@), final(dst)@),
    {
        let w: u32 = unit.widen(self.scale);
        let mut i: usize = 0;
        while i < 32
            invariant
                i <= 32,
                forall|k: int|
                    0 <= k < i ==> is_scaled(unit, byte_steps(self.qs@)[k], w, #[trigger] dst@[k]),
            decreases 32 - i,
        {
            let ghost before = dst@;
            let v: u32 = unit.scale(self.step(i), w);
            dst[i] = v;
            assert(dst@ == before.update(i as int, v));
            i = i + 1;
        }
        assert(is_wide(unit, self.scale, w));
    }

    /// Writes the 32 values of this block into `dst` from `dst_offset` on.
    pub fn dequantize_into<U: FloatUnit>(&self, dst: &mut [u32], dst_offset: usize, unit: &U)
        requires
            dst_offset + 32 <= old(dst)@.len(),
        ensures
            final(dst)@.len() == old(dst)@.len(),
            forall|i: int|
                0 <= i < old(dst)@.len() && !(dst_offset <= i < dst_offset + 32)
                    ==> #[trigger] final(dst)@[i] == old(dst)@[i],
            is_unpacked(
                unit,
                self.scale,
                byte_steps(self.qs@),
                final(dst)@.subrange(dst_offset as int, dst_offset + 32),
            ),
    {
        let mut block: [u32; 32] = [0u32; 32];
        self.dequantize(&mut block, unit);
        put_block(dst, dst_offset, &block);
    }

    /// The block as bytes.
    pub fn to_bytes(&self) -> (out: Vec<u8>)
        ensures
            out@ == self.encoding(),
    {
        let mut out: Vec<u8> = Vec::new();
        push_le(&mut out, self.scale as u64, 2);
        push_all(&mut out, self.qs.as_slice());
        assert(out@ =~= self.encoding());
        out
    }

    /// The block in the 34 bytes at `at`.
    pub fn from_bytes(data: &[u8], at: usize) -> (b: Q8_0Block)
        requires
            at + 34 <= data@.len(),
        ensures
            b.encoding() == data@.subrange(at as int, at + 34),
            b.scale == scale_in(data@, at as int),
            b.qs@ == data@.subrange(at + 2, at + 34),
    {
        let size: usize = data.len();
        let scale: u16 = read_scale(data, at);
        let mut qs: [u8; 32] = [0u8; 32];
        let mut i: usize = 0;
        while i < 32
            invariant
                i <= 32,
                at + 34 <= size == data@.len(),
                forall|k: int| 0 <= k < i ==> #[trigger] qs@[k] == data@[at + 2 + k],
            decreases 32 - i,
        {
            qs[i] = data[at + 2 + i];
            i = i + 1;
        }
        assert(qs@ =~= data@.subrange(at + 2, at + 34));
        proof {
            lemma_scale_in(data@, at as int);
            assert(data@.subrange(at as int, at + 34) =~= data@.subrange(at as int, at + 2)
                + data@.subrange(at + 2, at + 34));
        }
        Q8_0Block { scale, qs }
    }
}

/// The pattern of the scale at position `at`.
pub open spec fn scale_in(d: Seq<u8>, at: int) -> u16 {
    le_value(d.subrange(at, at + 2)) as u16
}

proof fn lemma_scale_in(d: Seq<u8>, at: int)
    requires
        0 <= at,
        at + 2 <= d.len(),
    ensures
        scale_in(d, at) == le_value(d.subrange(at, at + 2)),
        le_bytes(scale_in(d, at) as nat, 2) == d.subrange(at, at + 2),
{
    lemma_le_value_bound(d.subrange(at, at + 2));
    lemma_pow256_values();
    crate::bytes::lemma_le_value_bytes(d.subrange(at, at + 2));
}

pub(crate) fn read_scale(data: &[u8], at: usize) -> (s: u16)
    requires
        at + 2 <= data@.len(),
    ensures
        s == scale_in(data@, at as int),
{
    proof {
        lemma_scale_in(data@, at as int);
    }
    read_le(data, at, 2) as u16
}

/// The 32 values of packed 4-bit values, as multiples of the scale.
pub open spec fn nibble_steps(qs: Seq<u8>) -> Seq<i32> {
    Seq::new(32, |i: int| nibble_step(qs, i) as i32)
}

/// The 32 values of 8-bit values, as multiples of the scale.
pub open spec fn byte_steps(qs: Seq<u8>) -> Seq<i32> {
    Seq::new(32, |i: int| byte_step(qs, i) as i32)
}

/// Copies the values of a block into `dst` from `at` on.
fn put_block(dst: &mut [u32], at: usize, block: &[u32; 32])
    requires
        at + 32 <= old(dst)@.len(),
    ensures
        final(dst)@.len() == old(dst)@.len(),
        forall|i: int|
            0 <= i < old(dst)@.len() && !(at <= i < at + 32) ==> #[trigger] final(dst)@[i] == old(
                dst,
            )@[i],
        final(dst)@.subrange(at as int, at + 32) == block@,
{
    let ghost start = dst@;
    let size: usize = dst.len();
    let mut i: usize = 0;
    while i < 32
        invariant
            i <= 32,
            at + 32 <= dst@.len() == size == start.len(),
            forall|k: int| at <= k < at + i ==> #[trigger] dst@[k] == block@[k - at],
            forall|k: int|
                0 <= k < start.len() && !(at <= k < at + 32) ==> #[trigger] dst@[k] == start[k],
        decreases 32 - i,
    {
        dst[at + i] = block[i];
        i = i + 1;
    }
    assert(dst@.subrange(at as int, at + 32) =~= block@);
}

/// `out` holds the values of a block: each of `steps`, times the scale.
pub open spec fn is_unpacked<U: FloatUnit>(
    u: &U,
    scale: u16,
    steps: Seq<i32>,
    out: Seq<u32>,
) -> bool {
    out.len() == steps.len() && exists|w: u32|
        {
            &&& #[trigger] is_wide(u, scale, w)
            &&& forall|i: int| 0 <= i < steps.len() ==> is_scaled(u, steps[i], w, #[trigger] out[i])
        }
}

/// Block `b` of 32 values, filled up with zeros behind the last value.
pub open spec fn block_values(values: Seq<u32>, b: int) -> Seq<u32> {
    Seq::new(
        32,
        |j: int|
            if 32 * b + j < values.len() {
                values[32 * b + j]
            } else {
                0
            },
    )
}

/// Block `b` of at most 32 values.
pub open spec fn block_part(values: Seq<u32>, b: int) -> Seq<u32> {
    values.subrange(
        32 * b,
        if 32 * b + 32 < values.len() {
            32 * b + 32
        } else {
            values.len() as int
        },
    )
}

/// `d` holds `values` in blocks of 4-bit values.
pub open spec fn is_q4_data<U: FloatUnit>(u: &U, values: Seq<u32>, d: Seq<u8>) -> bool {
    d.len() == 18 * block_count(values.len()) && q4_blocks(u, values, d, block_count(values.len()))
}

/// The first `n` blocks of `d` hold the first values, in 4 bits each.
pub open spec fn q4_blocks<U: FloatUnit>(u: &U, values: Seq<u32>, d: Seq<u8>, n: nat) -> bool {
    forall|b: int|
        0 <= b < n ==> is_q4_block(
            u,
            #[trigger] block_values(values, b),
            scale_in(d, 18 * b),
            d.subrange(18 * b + 2, 18 * b + 18),
        )
}

/// `d` holds `values` in blocks of 8-bit values.
pub open spec fn is_q8_data<U: FloatUnit>(u: &U, values: Seq<u32>, d: Seq<u8>) -> bool {
    d.len() == 34 * block_count(values.len()) && q8_blocks(u, values, d, block_count(values.len()))
}

/// The first `n` blocks of `d` hold the first values, in 8 bits each.
pub open spec fn q8_blocks<U: FloatUnit>(u: &U, values: Seq<u32>, d: Seq<u8>, n: nat) -> bool {
    forall|b: int|
        0 <= b < n ==> is_q8_block(
            u,
            #[trigger] block_part(values, b),
            scale_in(d, 34 * b),
            d.subrange(34 * b + 2, 34 * b + 34),
        )
}

pub(crate) proof fn lemma_block_in(d: Seq<u8>, before: Seq<u8>, scale: u16, qs: Seq<u8>)
    requires
        d == before + (le_bytes(scale as nat, 2) + qs),
    ensures
        d.len() == before.len() + 2 + qs.len(),
        scale_in(d, before.len() as int) == scale,
        d.subrange(before.len() as int + 2, d.len() as int) == qs,
{
    lemma_pow256_values();
    lemma_le_round_trip(scale as nat, 2);
    let at = before.len() as int;
    assert(d.subrange(at, at + 2) =~= le_bytes(scale as nat, 2));
    assert(d.subrange(at + 2, d.len() as int) =~= qs);
}

/// Quantizes values into blocks of 4-bit values. The last block is filled up with zeros.
pub fn quantize_f32_to_q4_0<U: FloatUnit>(data: &[u32], unit: &U) -> (out: Vec<u8>)
    ensures
        is_q4_data(unit, data@, out@),
{
    let mut out: Vec<u8> = Vec::new();
    let n: usize = blocks_for(data.len());
    let size: usize = data.len();
    let mut b: usize = 0;
    while b < n
        invariant
            b <= n == block_count(size as nat),
            size == data@.len(),
            out@.len() == 18 * b,
            q4_blocks(unit, data@, out@, b as nat),
        decreases n - b,
    {
        let mut src: [u32; 32] = [0u32; 32];
        let mut j: usize = 0;
        while j < 32 && 32 * b + j < size
            invariant
                j <= 32,
                b < n == block_count(size as nat),
                size == data@.len(),
                forall|k: int| 0 <= k < j ==> #[trigger] src@[k] == data@[32 * b + k],
                forall|k: int| j <= k < 32 ==> #[trigger] src@[k] == 0,
                j > 0 ==> 32 * b + j <= size,
            decreases 32 - j,
        {
            src[j] = data[32 * b + j];
            j = j + 1;
        }
        assert(src@ =~= block_values(data@, b as int));
        let mut block = Q4_0Block { scale: 0, qs: [0u8; 16] };
        block.quantize(src.as_slice(), unit);
        let ghost before = out@;
        push_all(&mut out, block.to_bytes().as_slice());
        proof {
            lemma_block_in(out@, before, block.scale, block.qs@);
            assert forall|k: int| 0 <= k < b + 1 implies is_q4_block(
                unit,
                #[trigger] block_values(data@, k),
                scale_in(out@, 18 * k),
                out@.subrange(18 * k + 2, 18 * k + 18),
            ) by {
                if k < b {
                    assert(out@.subrange(18 * k, 18 * k + 2) =~= before.subrange(
                        18 * k,
                        18 * k + 2,
                    ));
                    assert(out@.subrange(18 * k + 2, 18 * k + 18) =~= before.subrange(
                        18 * k + 2,
                        18 * k + 18,
                    ));
                }
            }
        }
        b = b + 1;
    }
    out
}

/// Quantizes values into blocks of 8-bit values.
pub fn quantize_f32_to_q8_0<U: FloatUnit>(data: &[u32], unit: &U) -> (out: Vec<u8>)
    ensures
        is_q8_data(unit, data@, out@),
{
    let mut out: Vec<u8> = Vec::new();
    let n: usize = blocks_for(data.len());
    let size: usize = data.len();
    let mut b: usize = 0;
    while b < n
        invariant
            b <= n == block_count(size as nat),
            size == data@.len(),
            out@.len() == 34 * b,
            q8_blocks(unit, data@, out@, b as nat),
        decreases n - b,
    {
        let end: usize = if size - 32 * b > 32 {
            32 * b + 32
        } else {
            size
        };
        let src = vstd::slice::slice_subrange(data, 32 * b, end);
        assert(src@ == block_part(data@, b as int));
        let block = Q8_0Block::quantize(src, unit);
        let ghost before = out@;
        push_all(&mut out, block.to_bytes().as_slice());
        proof {
            lemma_block_in(out@, before, block.scale, block.qs@);
            assert forall|k: int| 0 <= k < b + 1 implies is_q8_block(
                unit,
                #[trigger] block_part(data@, k),
                scale_in(out@, 34 * k),
                out@.subrange(34 * k + 2, 34 * k + 34),
            ) by {
                if k < b {
                    assert(out@.subrange(34 * k, 34 * k + 2) =~= before.subrange(
                        34 * k,
                        34 * k + 2,
                    ));
                    assert(out@.subrange(34 * k + 2, 34 * k + 34) =~= before.subrange(
                        34 * k + 2,
                        34 * k + 34,
                    ));
                }
            }
        }
        b = b + 1;
    }
    out
}

/// `out` holds the values of the 4-bit block `b` of `d`.
pub open spec fn is_q4_unpacked<U: FloatUnit>(u: &U, d: Seq<u8>, b: int, out: Seq<u32>) -> bool {
    is_unpacked(
        u,
        scale_in(d, 18 * b),
        nibble_steps(d.subrange(18 * b + 2, 18 * b + 18)),
        out,
    )
}

/// `out` holds the values of the 8-bit block `b` of `d`.
pub open spec fn is_q8_unpacked<U: FloatUnit>(u: &U, d: Seq<u8>, b: int, out: Seq<u32>) -> bool {
    is_unpacked(u, scale_in(d, 34 * b), byte_steps(d.subrange(34 * b + 2, 34 * b + 34)), out)
}

/// The values of `count` 4-bit blocks from block `first` on.
fn unpack_q4<U: FloatUnit>(data: &[u8], first: usize, count: usize, unit: &U) -> (out: Vec<u32>)
    requires
        18 * (first + count) <= data@.len(),
    ensures
        out@.len() == 32 * count,
        forall|i: int|
            0 <= i < count ==> is_q4_unpacked(
                unit,
                data@,
                first + i,
                #[trigger] out@.subrange(32 * i, 32 * i + 32),
            ),
{
    let size: usize = data.len();
    let mut out: Vec<u32> = Vec::new();
    let mut b: usize = 0;
    while b < count
        invariant
            b <= count,
            18 * (first + count) <= size == data@.len(),
            out@.len() == 32 * b,
            forall|i: int|
                0 <= i < b ==> is_q4_unpacked(
                    unit,
                    data@,
                    first + i,
                    #[trigger] out@.subrange(32 * i, 32 * i + 32),
                ),
        decreases count - b,
    {
        let mut values: [u32; 32] = [0u32; 32];
        let block = Q4_0Block::from_bytes(data, 18 * (first + b));
        block.dequantize(&mut values, unit);
        let ghost before = out@;
        out.extend_from_slice(values.as_slice());
        proof {
            assert(out@ =~= before + values@);
            assert forall|i: int| 0 <= i < b + 1 implies is_q4_unpacked(
                unit,
                data@,
                first + i,
                #[trigger] out@.subrange(32 * i, 32 * i + 32),
            ) by {
                if i < b {
                    assert(out@.subrange(32 * i, 32 * i + 32) =~= before.subrange(
                        32 * i,
                        32 * i + 32,
                    ));
                } else {
                    assert(out@.subrange(32 * i, 32 * i + 32) =~= values@);
                }
            }
        }
        b = b + 1;
    }
    out
}

/// The values of `count` 8-bit blocks from block `first` on.
fn unpack_q8<U: FloatUnit>(data: &[u8], first: usize, count: usize, unit: &U) -> (out: Vec<u32>)
    requires
        34 * (first + count) <= data@.len(),
    ensures
        out@.len() == 32 * count,
        forall|i: int|
            0 <= i < count ==> is_q8_unpacked(
                unit,
                data@,
                first + i,
                #[trigger] out@.subrange(32 * i, 32 * i + 32),
            ),
{
    let size: usize = data.len();
    let mut out: Vec<u32> = Vec::new();
    let mut b: usize = 0;
    while b < count
        invariant
            b <= count,
            34 * (first + count) <= size == data@.len(),
            out@.len() == 32 * b,
            forall|i: int|
                0 <= i < b ==> is_q8_unpacked(
                    unit,
                    data@,
                    first + i,
                    #[trigger] out@.subrange(32 * i, 32 * i + 32),
                ),
        decreases count - b,
    {
        let mut values: [u32; 32] = [0u32; 32];
        let block = Q8_0Block::from_bytes(data, 34 * (first + b));
        block.dequantize(&mut values, unit);
        let ghost before = out@;
        out.extend_from_slice(values.as_slice());
        proof {
            assert(out@ =~= before + values@);
            assert forall|i: int| 0 <= i < b + 1 implies is_q8_unpacked(
                unit,
                data@,
                first + i,
                #[trigger] out@.subrange(32 * i, 32 * i + 32),
            ) by {
                if i < b {
                    assert(out@.subrange(32 * i, 32 * i + 32) =~= before.subrange(
                        32 * i,
                        32 * i + 32,
                    ));
                } else {
                    assert(out@.subrange(32 * i, 32 * i + 32) =~= values@);
                }
            }
        }
        b = b + 1;
    }
    out
}

/// The values of all whole 4-bit blocks of `q4_data`.
pub fn dequantize_q4_0<U: FloatUnit>(q4_data: &[u8], unit: &U) -> (out: Vec<u32>)
    requires
        q4_data@.len() / 18 * 32 <= usize::MAX,
    ensures
        out@.len() == q4_data@.len() / 18 * 32,
        forall|b: int|
            0 <= b < q4_data@.len() / 18 ==> is_q4_unpacked(
                unit,
                q4_data@,
                b,
                #[trigger] out@.subrange(32 * b, 32 * b + 32),
            ),
{
    unpack_q4(q4_data, 0, q4_data.len() / 18, unit)
}

/// The values of all whole 8-bit blocks of `q8_data`.
pub fn dequantize_q8_0<U: FloatUnit>(q8_data: &[u8], unit: &U) -> (out: Vec<u32>)
    ensures
        out@.len() == q8_data@.len() / 34 * 32,
        forall|b: int|
            0 <= b < q8_data@.len() / 34 ==> is_q8_unpacked(
                unit,
                q8_data@,
                b,
                #[trigger] out@.subrange(32 * b, 32 * b + 32),
            ),
{
    unpack_q8(q8_data, 0, q8_data.len() / 34, unit)
}

/// Row `row_idx` of a matrix of 4-bit blocks with rows of `row_width` values, a multiple of 32.
pub fn q4_0_extract_row<U: FloatUnit>(
    q4_data: &[u8],
    row_idx: usize,
    row_width: usize,
    unit: &U,
) -> (out: Vec<u32>)
    requires
        row_width % 32 == 0,
        18 * ((row_idx + 1) * (row_width / 32)) <= q4_data@.len(),
    ensures
        out@.len() == row_width,
        forall|i: int|
            0 <= i < row_width / 32 ==> is_q4_unpacked(
                unit,
                q4_data@,
                row_idx * (row_width / 32) + i,
                #[trigger] out@.subrange(32 * i, 32 * i + 32),
            ),
{
    let per_row: usize = row_width / 32;
    let size: usize = q4_data.len();
    proof {
        assert((row_idx + 1) * per_row == row_idx * per_row + per_row) by (nonlinear_arith);
    }
    unpack_q4(q4_data, row_idx * per_row, per_row, unit)
}

/// Row `row_idx` of a matrix of 8-bit blocks with rows of `row_width` values, a multiple of 32.
pub fn q8_0_extract_row<U: FloatUnit>(
    q8_data: &[u8],
    row_idx: usize,
    row_width: usize,
    unit: &U,
) -> (out: Vec<u32>)
    requires
        row_width % 32 == 0,
        34 * ((row_idx + 1) * (row_width / 32)) <= q8_data@.len(),
    ensures
        out@.len() == row_width,
        forall|i: int|
            0 <= i < row_width / 32 ==> is_q8_unpacked(
                unit,
                q8_data@,
                row_idx * (row_width / 32) + i,
                #[trigger] out@.subrange(32 * i, 32 * i + 32),
            ),
{
    let per_row: usize = row_width / 32;
    let size: usize = q8_data.len();
    proof {
        assert((row_idx + 1) * per_row == row_idx * per_row + per_row) by (nonlinear_arith);
    }
    unpack_q8(q8_data, row_idx * per_row, per_row, unit)
}

/// What quantizing to 4 bits and unpacking gives back: each value is a step between -8 and 7,
/// the value's rounded quotient by the scale, times the stored scale.
pub proof fn law_q4_round_trip<U: FloatUnit>(
    u: &U,
    values: Seq<u32>,
    d: Seq<u8>,
    out: Seq<u32>,
    i: int,
)
    requires
        is_q4_data(u, values, d),
        0 <= i < values.len(),
        is_q4_unpacked(u, d, i / 32, out),
    ensures
        exists|s: u32, step: i32, h: u16, w: u32|
            {
                &&& #[trigger] is_scale(u, largest(block_values(values, i / 32)), SEVEN, s)
                &&& #[trigger] is_narrow(u, s, h)
                &&& #[trigger] is_wide(u, h, w)
                &&& is_step(u, values[i], s, -8, 7, step as int)
                &&& #[trigger] is_scaled(u, step, w, out[i % 32])
            },
{
    let b = i / 32;
    let v = block_values(values, b);
    let h = scale_in(d, 18 * b);
    let qs = d.subrange(18 * b + 2, 18 * b + 18);
    assert(is_q4_block(u, v, h, qs));
    let s = choose|s: u32|
        {
            &&& #[trigger] is_scale(u, largest(v), SEVEN, s)
            &&& is_narrow(u, s, h)
            &&& forall|k: int|
                0 <= k < 32 ==> is_step(u, v[k], s, -8, 7, #[trigger] nibble_step(qs, k))
        };
    let w = choose|w: u32|
        {
            &&& #[trigger] is_wide(u, h, w)
            &&& forall|k: int|
                0 <= k < nibble_steps(qs).len() ==> is_scaled(
                    u,
                    nibble_steps(qs)[k],
                    w,
                    #[trigger] out[k],
                )
        };
    let step = nibble_steps(qs)[i % 32];
    assert(v[i % 32] == values[i]);
    assert(is_step(u, v[i % 32], s, -8, 7, nibble_step(qs, i % 32)));
    assert(is_scaled(u, step, w, out[i % 32]));
}

/// What quantizing to 8 bits and unpacking gives back: each value is a step between -127 and
/// 127, the value's rounded quotient by the stored scale, times that scale.
pub proof fn law_q8_round_trip<U: FloatUnit>(
    u: &U,
    values: Seq<u32>,
    d: Seq<u8>,
    out: Seq<u32>,
    i: int,
)
    requires
        is_q8_data(u, values, d),
        0 <= i < values.len(),
        is_q8_unpacked(u, d, i / 32, out),
    ensures
        exists|w: u32, w2: u32, step: i32|
            {
                &&& #[trigger] is_wide(u, scale_in(d, 34 * (i / 32)), w)
                &&& is_step(u, values[i], w, -127, 127, step as int)
                &&& #[trigger] is_wide(u, scale_in(d, 34 * (i / 32)), w2)
                &&& #[trigger] is_scaled(u, step, w2, out[i % 32])
            },
{
    let b = i / 32;
    let v = block_part(values, b);
    let h = scale_in(d, 34 * b);
    let qs = d.subrange(34 * b + 2, 34 * b + 34);
    assert(is_q8_block(u, v, h, qs));
    let (s, w) = choose|s: u32, w: u32|
        {
            &&& #[trigger] is_scale(u, largest(v), ONE_TWENTY_SEVEN, s)
            &&& is_narrow(u, s, h)
            &&& #[trigger] is_wide(u, h, w)
            &&& forall|k: int|
                0 <= k < v.len() ==> is_step(
                    u,
                    v[k],
                    w,
                    -127,
                    127,
                    #[trigger] byte_step(qs, k),
                )
            &&& forall|k: int| v.len() <= k < 32 ==> #[trigger] qs[k] == 0
        };
    let w2 = choose|w2: u32|
        {
            &&& #[trigger] is_wide(u, h, w2)
            &&& forall|k: int|
                0 <= k < byte_steps(qs).len() ==> is_scaled(
                    u,
                    byte_steps(qs)[k],
                    w2,
                    #[trigger] out[k],
                )
        };
    let step = byte_steps(qs)[i % 32];
    assert(v[i % 32] == values[i]);
    assert(is_step(u, v[i % 32], w, -127, 127, byte_step(qs, i % 32)));
    assert(is_scaled(u, step, w2, out[i % 32]));
}

/// A rounded quotient `k`, limited to `lo..=hi`.
pub open spec fn limited(k: int, lo: int, hi: int) -> int {
    if k < lo {
        lo
    } else if k > hi {
        hi
    } else {
        k
    }
}

/// How 32 values are packed into 4 bits each: where `s` is a seventh of the largest magnitude and `k` is
/// value `i` divided by `s`, rounded, half a byte holds `k + 8`, with `k` limited to -8 to 7. Of two values
/// that share a byte the first stands in its lower half.
pub proof fn law_half_bytes_hold_rounded_quotients<U: FloatUnit>(
    u: &U,
    values: Seq<u32>,
    scale: u16,
    qs: Seq<u8>,
    s: u32,
    k: int,
    i: int,
)
    requires
        values.len() == 32,
        is_q4_block(u, values, scale, qs),
        0 <= i < 32,
        largest(values) > 0,
        forall|r: u32| #[trigger] is_quotient(u, largest(values), SEVEN, r) ==> r == s,
        forall|q: i32| #[trigger] is_rounded(u, values[i], s, q) ==> q == k,
    ensures
        is_narrow(u, s, scale),
        i % 2 == 0 ==> qs[i / 2] % 16 == limited(k, -8, 7) + 8,
        i % 2 == 1 ==> qs[i / 2] / 16 == limited(k, -8, 7) + 8,
{
    let t = choose|t: u32|
        {
            &&& #[trigger] is_scale(u, largest(values), SEVEN, t)
            &&& is_narrow(u, t, scale)
            &&& forall|j: int|
                0 <= j < 32 ==> is_step(u, values[j], t, -8, 7, #[trigger] nibble_step(qs, j))
        };
    assert(t == s);
    assert(is_step(u, values[i], s, -8, 7, nibble_step(qs, i)));
}

/// How values are packed into bytes: where `s` is the largest magnitude divided by 127, stored as the 16-bit
/// value whose 32-bit value is `w`, and `k` is value `i` divided by `w`, rounded, byte `i` holds `k + 128`,
/// with `k` limited to -127 to 127.
pub proof fn law_bytes_hold_rounded_quotients<U: FloatUnit>(
    u: &U,
    values: Seq<u32>,
    scale: u16,
    qs: Seq<u8>,
    s: u32,
    w: u32,
    k: int,
    i: int,
)
    requires
        is_q8_block(u, values, scale, qs),
        0 <= i < values.len() <= 32,
        largest(values) > 0,
        forall|r: u32| #[trigger] is_quotient(u, largest(values), ONE_TWENTY_SEVEN, r) ==> r == s,
        forall|r: u32| #[trigger] is_wide(u, scale, r) ==> r == w,
        forall|q: i32| #[trigger] is_rounded(u, values[i], w, q) ==> q == k,
    ensures
        is_narrow(u, s, scale),
        qs[i] == limited(k, -127, 127) + 128,
{
    let (t, v) = choose|t: u32, v: u32|
        {
            &&& #[trigger] is_scale(u, largest(values), ONE_TWENTY_SEVEN, t)
            &&& is_narrow(u, t, scale)
            &&& #[trigger] is_wide(u, scale, v)
            &&& forall|j: int|
                0 <= j < values.len() ==> is_step(
                    u,
                    values[j],
                    v,
                    -127,
                    127,
                    #[trigger] byte_step(qs, j),
                )
            &&& forall|j: int| values.len() <= j < 32 ==> #[trigger] qs[j] == 0
        };
    assert(is_step(u, values[i], w, -127, 127, byte_step(qs, i)));
}

/// A value that is -8 to 7 times a seventh of the largest magnitude of its block comes back as it was: what
/// is packed into 4 bits is unpacked again.
pub proof fn law_multiples_of_the_scale_come_back<U: FloatUnit>(
    u: &U,
    values: Seq<u32>,
    d: Seq<u8>,
    out: Seq<u32>,
    s: u32,
    k: Seq<i32>,
    i: int,
)
    requires
        is_q4_data(u, values, d),
        0 <= i < values.len(),
        k.len() == values.len(),
        is_q4_unpacked(u, d, i / 32, out),
        largest(block_values(values, i / 32)) > 0,
        forall|r: u32| #[trigger]
            is_quotient(u, largest(block_values(values, i / 32)), SEVEN, r) ==> r == s,
        forall|h: u16, w: u32| #[trigger] is_narrow(u, s, h) && #[trigger] is_wide(u, h, w) ==> w == s,
        -8 <= k[i] <= 7,
        forall|q: i32| #[trigger] is_rounded(u, values[i], s, q) ==> q == k[i],
        forall|r: u32| #[trigger] is_scaled(u, k[i], s, r) ==> r == values[i],
    ensures
        out[i % 32] == values[i],
{
    law_q4_round_trip(u, values, d, out, i);
    let (t, step, h, w) = choose|t: u32, step: i32, h: u16, w: u32|
        {
            &&& #[trigger] is_scale(u, largest(block_values(values, i / 32)), SEVEN, t)
            &&& #[trigger] is_narrow(u, t, h)
            &&& #[trigger] is_wide(u, h, w)
            &&& is_step(u, values[i], t, -8, 7, step as int)
            &&& #[trigger] is_scaled(u, step, w, out[i % 32])
        };
    assert(t == s);
    assert(w == s);
    assert(step == k[i]);
}

} // verus!
