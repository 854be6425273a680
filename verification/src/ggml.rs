//! The block types of GGML tensors that are stored in 32 bits: how their bytes give values.
//!
//! A block holds 32 or 256 values as small integers, with a 16-bit scale. In the larger blocks each
//! run of 16 or 32 values has a scale of its own, in steps of that of the block, and in some of them
//! a smallest value.

use vstd::prelude::*;
use crate::float::{is_difference, is_scaled, is_sum, is_wide, FloatUnit};
use crate::quant::{read_scale, scale_in};

verus! {

/// Whether a tensor type is one of blocks that are handled here: Q5_0, Q5_1, Q8_1 and Q2_K to Q6_K.
pub open spec fn is_block_type(t: u32) -> bool {
    t == 6 || t == 7 || t == 9 || 10 <= t <= 14
}

/// Values of a block.
pub open spec fn block_values_of(t: u32) -> nat {
    if t < 10 {
        32
    } else {
        256
    }
}

/// Bytes of a block.
pub open spec fn block_bytes_of(t: u32) -> nat {
    if t == 6 {
        22
    } else if t == 7 {
        24
    } else if t == 9 {
        36
    } else if t == 10 {
        84
    } else if t == 11 {
        110
    } else if t == 12 {
        144
    } else if t == 13 {
        176
    } else {
        210
    }
}

/// Values and bytes of a block.
pub fn block_size(t: u32) -> (r: (usize, usize))
    ensures
        r.0 == block_values_of(t),
        r.1 == block_bytes_of(t),
{
    match t {
        6 => (32, 22),
        7 => (32, 24),
        9 => (32, 36),
        10 => (256, 84),
        11 => (256, 110),
        12 => (256, 144),
        13 => (256, 176),
        _ => (
            if t < 10 {
                32
            } else {
                256
            },
            210,
        ),
    }
}

/// How a value of a block is made of integers and 16-bit scales.
#[derive(Debug, Clone, Copy, PartialEq, Eq, Structural)]
pub enum Element {
    /// A step times a scale.
    Scaled(u16, i32),
    /// A step times a scale, and a smallest value added.
    Raised(u16, i32, u16),
    /// A step times a scale, which is itself a step times a scale.
    Nested(u16, i32, i32),
    /// The same, with a smallest value taken away, which is a step times a scale too.
    Lowered(u16, i32, i32, u16, i32),
}

/// `r` can be the value that an element makes.
pub open spec fn is_element_value<U: FloatUnit>(u: &U, e: Element, r: u32) -> bool {
    match e {
        Element::Scaled(d, q) => exists|w: u32| #[trigger]
            is_wide(u, d, w) && is_scaled(u, q, w, r),
        Element::Raised(d, q, m) => exists|w: u32, low: u32, p: u32|
            {
                &&& #[trigger] is_wide(u, d, w)
                &&& #[trigger] is_wide(u, m, low)
                &&& #[trigger] is_scaled(u, q, w, p)
                &&& is_sum(u, p, low, r)
            },
        Element::Nested(d, s, q) => exists|w: u32, scale: u32|
            {
                &&& #[trigger] is_wide(u, d, w)
                &&& #[trigger] is_scaled(u, s, w, scale)
                &&& is_scaled(u, q, scale, r)
            },
        Element::Lowered(d, s, q, m, t) => exists|w: u32, scale: u32, v: u32, low: u32, p: u32|
            {
                &&& #[trigger] is_wide(u, d, w)
                &&& #[trigger] is_scaled(u, s, w, scale)
                &&& #[trigger] is_wide(u, m, v)
                &&& #[trigger] is_scaled(u, t, v, low)
                &&& #[trigger] is_scaled(u, q, scale, p)
                &&& is_difference(u, p, low, r)
            },
    }
}

fn element_value<U: FloatUnit>(e: Element, unit: &U) -> (r: u32)
    ensures
        is_element_value(unit, e, r),
{
    match e {
        Element::Scaled(d, q) => {
            let w: u32 = unit.widen(d);
            let r: u32 = unit.scale(q, w);
            assert(is_wide(unit, d, w));
            r
        },
        Element::Raised(d, q, m) => {
            let w: u32 = unit.widen(d);
            let low: u32 = unit.widen(m);
            let p: u32 = unit.scale(q, w);
            let r: u32 = unit.plus(p, low);
            assert(is_wide(unit, d, w) && is_wide(unit, m, low) && is_scaled(unit, q, w, p));
            r
        },
        Element::Nested(d, s, q) => {
            let w: u32 = unit.widen(d);
            let scale: u32 = unit.scale(s, w);
            let r: u32 = unit.scale(q, scale);
            assert(is_wide(unit, d, w) && is_scaled(unit, s, w, scale));
            r
        },
        Element::Lowered(d, s, q, m, t) => {
            let w: u32 = unit.widen(d);
            let scale: u32 = unit.scale(s, w);
            let v: u32 = unit.widen(m);
            let low: u32 = unit.scale(t, v);
            let p: u32 = unit.scale(q, scale);
            let r: u32 = unit.minus(p, low);
            assert(is_wide(unit, d, w) && is_scaled(unit, s, w, scale));
            assert(is_wide(unit, m, v) && is_scaled(unit, t, v, low));
            assert(is_scaled(unit, q, scale, p));
            r
        },
    }
}

/// Bit `i` of a byte.
pub open spec fn bit(b: u8, i: int) -> int {
    if i == 0 {
        b as int % 2
    } else if i == 1 {
        b as int / 2 % 2
    } else if i == 2 {
        b as int / 4 % 2
    } else if i == 3 {
        b as int / 8 % 2
    } else if i == 4 {
        b as int / 16 % 2
    } else if i == 5 {
        b as int / 32 % 2
    } else if i == 6 {
        b as int / 64 % 2
    } else {
        b as int / 128
    }
}

fn read_bit(b: u8, i: usize) -> (r: i32)
    requires
        i < 8,
    ensures
        r == bit(b, i as int),
        0 <= r <= 1,
{
    let v: u8 = match i {
        0 => b % 2,
        1 => b / 2 % 2,
        2 => b / 4 % 2,
        3 => b / 8 % 2,
        4 => b / 16 % 2,
        5 => b / 32 % 2,
        6 => b / 64 % 2,
        _ => b / 128,
    };
    v as i32
}

/// The two bits from bit `2 * i` of a byte on.
pub open spec fn two_bits(b: u8, i: int) -> int {
    bit(b, 2 * i) + 2 * bit(b, 2 * i + 1)
}

fn read_two_bits(b: u8, i: usize) -> (r: i32)
    requires
        i < 4,
    ensures
        r == two_bits(b, i as int),
        0 <= r <= 3,
{
    read_bit(b, 2 * i) + 2 * read_bit(b, 2 * i + 1)
}

/// The lower or the upper half of a byte.
pub open spec fn half_byte(b: u8, upper: bool) -> int {
    if upper {
        b as int / 16
    } else {
        b as int % 16
    }
}

fn read_half(b: u8, upper: bool) -> (r: i32)
    ensures
        r == half_byte(b, upper),
        0 <= r <= 15,
{
    if upper {
        (b / 16) as i32
    } else {
        (b % 16) as i32
    }
}

/// A byte as a number with a sign.
pub open spec fn signed_byte(b: u8) -> int {
    if b < 128 {
        b as int
    } else {
        b - 256
    }
}

fn read_signed_byte(b: u8) -> (r: i32)
    ensures
        r == signed_byte(b),
        -128 <= r <= 127,
{
    if b < 128 {
        b as i32
    } else {
        b as i32 - 256
    }
}

/// Value `i` of the 5-bit values whose fifth bits stand from `at` on and whose other bits behind
/// them: those of the first half of the values in the lower halves of the bytes.
pub open spec fn five_bits(b: Seq<u8>, at: int, i: int) -> int {
    half_byte(b[at + 4 + i % 16], i >= 16) + 16 * bit(b[at + i / 8], i % 8)
}

/// Scale `i` of the eight 6-bit scales that stand in 12 bytes from `at` on with eight 6-bit minima.
pub open spec fn six_bit_scale(b: Seq<u8>, at: int, i: int) -> int {
    if i < 4 {
        b[at + i] as int % 64
    } else {
        half_byte(b[at + i + 4], false) + 16 * two_bits(b[at + i - 4], 3)
    }
}

/// Minimum `i` of them.
pub open spec fn six_bit_minimum(b: Seq<u8>, at: int, i: int) -> int {
    if i < 4 {
        b[at + i + 4] as int % 64
    } else {
        half_byte(b[at + i + 4], true) + 16 * two_bits(b[at + i], 3)
    }
}

/// Scale `i` of the 16 6-bit scales that stand in 12 bytes from `at` on: four bits in the first eight
/// bytes, two in the last four. A scale of 32 stands for 0.
pub open spec fn centred_scale(b: Seq<u8>, at: int, i: int) -> int {
    half_byte(b[at + i % 8], i >= 8) + 16 * two_bits(b[at + 8 + i % 4], i / 4) - 32
}

/// Value `i` of 2-bit values from `at` on: 32 bytes hold 128 of them, those of each run of 32 in the
/// same two bits.
pub open spec fn layered_bits(b: Seq<u8>, at: int, i: int) -> int {
    two_bits(b[at + 32 * (i / 128) + i % 32], i % 128 / 32)
}

/// Value `i` of 4-bit values from `at` on: 32 bytes hold 64 of them, the first 32 in the lower halves.
pub open spec fn layered_halves(b: Seq<u8>, at: int, i: int) -> int {
    half_byte(b[at + 32 * (i / 64) + i % 32], i % 64 >= 32)
}

/// Value `i` of a block.
pub open spec fn element(t: u32, b: Seq<u8>, i: int) -> Element {
    if t == 6 {
        Element::Scaled(scale_in(b, 0), (five_bits(b, 2, i) - 16) as i32)
    } else if t == 7 {
        Element::Raised(scale_in(b, 0), five_bits(b, 4, i) as i32, scale_in(b, 2))
    } else if t == 9 {
        Element::Scaled(scale_in(b, 0), signed_byte(b[4 + i]) as i32)
    } else if t == 10 {
        Element::Lowered(
            scale_in(b, 80),
            half_byte(b[i / 16], false) as i32,
            layered_bits(b, 16, i) as i32,
            scale_in(b, 82),
            half_byte(b[i / 16], true) as i32,
        )
    } else if t == 11 {
        Element::Nested(
            scale_in(b, 108),
            centred_scale(b, 96, i / 16) as i32,
            (layered_bits(b, 32, i) - 4 * (1 - bit(b[i % 32], i / 32))) as i32,
        )
    } else if t == 12 {
        Element::Lowered(
            scale_in(b, 0),
            six_bit_scale(b, 4, i / 32) as i32,
            layered_halves(b, 16, i) as i32,
            scale_in(b, 2),
            six_bit_minimum(b, 4, i / 32) as i32,
        )
    } else if t == 13 {
        Element::Lowered(
            scale_in(b, 0),
            six_bit_scale(b, 4, i / 32) as i32,
            (layered_halves(b, 48, i) + 16 * bit(b[16 + i % 32], i / 32)) as i32,
            scale_in(b, 2),
            six_bit_minimum(b, 4, i / 32) as i32,
        )
    } else {
        Element::Nested(
            scale_in(b, 208),
            signed_byte(b[192 + i / 16]) as i32,
            (half_byte(b[64 * (i / 128) + i % 64], i % 128 >= 64) + 16 * two_bits(
                b[128 + 32 * (i / 128) + i % 32],
                i % 128 / 32,
            ) - 32) as i32,
        )
    }
}

fn read_five_bits(b: &[u8], at: usize, i: usize) -> (r: i32)
    requires
        i < 32,
        at + 20 <= b@.len(),
    ensures
        r == five_bits(b@, at as int, i as int),
        0 <= r <= 31,
{
    let size: usize = b.len();
    read_half(b[at + 4 + i % 16], i >= 16) + 16 * read_bit(b[at + i / 8], i % 8)
}

fn read_six_bits(b: &[u8], at: usize, i: usize, minimum: bool) -> (r: i32)
    requires
        i < 8,
        at + 12 <= b@.len(),
    ensures
        r == if minimum {
            six_bit_minimum(b@, at as int, i as int)
        } else {
            six_bit_scale(b@, at as int, i as int)
        },
        0 <= r <= 63,
{
    let size: usize = b.len();
    if i < 4 {
        if minimum {
            (b[at + i + 4] % 64) as i32
        } else {
            (b[at + i] % 64) as i32
        }
    } else if minimum {
        read_half(b[at + i + 4], true) + 16 * read_two_bits(b[at + i], 3)
    } else {
        read_half(b[at + i + 4], false) + 16 * read_two_bits(b[at + i - 4], 3)
    }
}

fn read_centred_scale(b: &[u8], at: usize, i: usize) -> (r: i32)
    requires
        i < 16,
        at + 12 <= b@.len(),
    ensures
        r == centred_scale(b@, at as int, i as int),
        -32 <= r <= 31,
{
    let size: usize = b.len();
    read_half(b[at + i % 8], i >= 8) + 16 * read_two_bits(b[at + 8 + i % 4], i / 4) - 32
}

fn read_layered_bits(b: &[u8], at: usize, i: usize) -> (r: i32)
    requires
        i < 256,
        at + 64 <= b@.len(),
    ensures
        r == layered_bits(b@, at as int, i as int),
        0 <= r <= 3,
{
    let size: usize = b.len();
    read_two_bits(b[at + 32 * (i / 128) + i % 32], i % 128 / 32)
}

fn read_layered_halves(b: &[u8], at: usize, i: usize) -> (r: i32)
    requires
        i < 256,
        at + 128 <= b@.len(),
    ensures
        r == layered_halves(b@, at as int, i as int),
        0 <= r <= 15,
{
    let size: usize = b.len();
    read_half(b[at + 32 * (i / 64) + i % 32], i % 64 >= 32)
}

/// Value `i` of a block.
fn read_element(t: u32, b: &[u8], i: usize) -> (r: Element)
    requires
        is_block_type(t),
        b@.len() == block_bytes_of(t),
        i < block_values_of(t),
    ensures
        r == element(t, b@, i as int),
{
    match t {
        6 => Element::Scaled(read_scale(b, 0), read_five_bits(b, 2, i) - 16),
        7 => Element::Raised(read_scale(b, 0), read_five_bits(b, 4, i), read_scale(b, 2)),
        9 => Element::Scaled(read_scale(b, 0), read_signed_byte(b[4 + i])),
        10 => Element::Lowered(
            read_scale(b, 80),
            read_half(b[i / 16], false),
            read_layered_bits(b, 16, i),
            read_scale(b, 82),
            read_half(b[i / 16], true),
        ),
        11 => Element::Nested(
            read_scale(b, 108),
            read_centred_scale(b, 96, i / 16),
            read_layered_bits(b, 32, i) - 4 * (1 - read_bit(b[i % 32], i / 32)),
        ),
        12 => Element::Lowered(
            read_scale(b, 0),
            read_six_bits(b, 4, i / 32, false),
            read_layered_halves(b, 16, i),
            read_scale(b, 2),
            read_six_bits(b, 4, i / 32, true),
        ),
        13 => Element::Lowered(
            read_scale(b, 0),
            read_six_bits(b, 4, i / 32, false),
            read_layered_halves(b, 48, i) + 16 * read_bit(b[16 + i % 32], i / 32),
            read_scale(b, 2),
            read_six_bits(b, 4, i / 32, true),
        ),
        _ => Element::Nested(
            read_scale(b, 208),
            read_signed_byte(b[192 + i / 16]),
            read_half(b[64 * (i / 128) + i % 64], i % 128 >= 64) + 16 * read_two_bits(
                b[128 + 32 * (i / 128) + i % 32],
                i % 128 / 32,
            ) - 32,
        ),
    }
}

/// `r` can be value `i` of the blocks in `data`.
pub open spec fn is_block_value<U: FloatUnit>(
    u: &U,
    t: u32,
    data: Seq<u8>,
    i: int,
    r: u32,
) -> bool {
    let bytes = block_bytes_of(t);
    let b = i / block_values_of(t) as int;
    is_element_value(
        u,
        element(t, data.subrange(bytes * b, bytes * b + bytes), i % block_values_of(t) as int),
        r,
    )
}

/// How many values the whole blocks in `len` bytes hold.
pub open spec fn values_in(t: u32, len: nat) -> nat {
    block_values_of(t) * (len / block_bytes_of(t))
}

/// The values of the whole blocks in `data`.
pub fn dequantize_ggml_generic<U: FloatUnit>(data: &[u8], t: u32, unit: &U) -> (values: Vec<u32>)
    requires
        is_block_type(t),
        values_in(t, data@.len()) <= usize::MAX,
    ensures
        values@.len() == values_in(t, data@.len()),
        forall|i: int|
            0 <= i < values@.len() ==> is_block_value(unit, t, data@, i, #[trigger] values@[i]),
{
    let size: usize = data.len();
    let (n, bytes) = block_size(t);
    let blocks: usize = size / bytes;
    let mut values: Vec<u32> = Vec::new();
    let mut b: usize = 0;
    while b < blocks
        invariant
            is_block_type(t),
            n == block_values_of(t),
            bytes == block_bytes_of(t),
            b <= blocks == size / bytes,
            size == data@.len(),
            n * blocks <= usize::MAX,
            values@.len() == n * b,
            forall|i: int|
                0 <= i < values@.len() ==> is_block_value(unit, t, data@, i, #[trigger] values@[i]),
        decreases blocks - b,
    {
        assert(bytes * b + bytes <= size && 0 <= bytes * b) by (nonlinear_arith)
            requires
                b + 1 <= size / bytes,
                bytes > 0,
        ;
        let block = vstd::slice::slice_subrange(data, bytes * b, bytes * b + bytes);
        let mut j: usize = 0;
        while j < n
            invariant
                is_block_type(t),
                n == block_values_of(t),
                bytes == block_bytes_of(t),
                j <= n,
                b < blocks,
                n * blocks <= usize::MAX,
                block@ == data@.subrange(bytes * b, bytes * b + bytes),
                block@.len() == bytes,
                values@.len() == n * b + j,
                forall|i: int|
                    0 <= i < values@.len() ==> is_block_value(
                        unit,
                        t,
                        data@,
                        i,
                        #[trigger] values@[i],
                    ),
            decreases n - j,
        {
            let v: u32 = element_value(read_element(t, block, j), unit);
            let ghost before = values@;
            values.push(v);
            proof {
                let i = n * b + j;
                vstd::arithmetic::div_mod::lemma_fundamental_div_mod_converse(
                    i,
                    n as int,
                    b as int,
                    j as int,
                );
                assert(is_block_value(unit, t, data@, i, v));
                assert forall|k: int| 0 <= k < values@.len() implies is_block_value(
                    unit,
                    t,
                    data@,
                    k,
                    #[trigger] values@[k],
                ) by {
                    if k < before.len() {
                        assert(values@[k] == before[k]);
                    }
                }
            }
            j = j + 1;
        }
        assert(n * (b + 1) == n * b + n) by (nonlinear_arith);
        b = b + 1;
    }
    values
}

} // verus!
