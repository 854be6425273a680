//! Floating-point values as bit patterns: 16-bit ones in a `u16`, 32-bit ones in a `u32`, 64-bit ones
//! in a `u64`.

use vstd::prelude::*;

verus! {

/// Arithmetic on floating-point values, which the caller brings. Nothing is assumed of what the
/// methods return: a contract over them says which values went through which method, in which
/// order.
pub trait FloatUnit {
    /// The sum `a + b`.
    fn plus(&self, a: u32, b: u32) -> u32;

    /// The difference `a - b`.
    fn minus(&self, a: u32, b: u32) -> u32;

    /// The product `a * b`.
    fn times(&self, a: u32, b: u32) -> u32;

    /// The quotient `a / b`.
    fn divide(&self, a: u32, b: u32) -> u32;

    /// The square root.
    fn root(&self, a: u32) -> u32;

    /// The exponential function.
    fn exponential(&self, a: u32) -> u32;

    /// `a` to the power `b`.
    fn power(&self, a: u32, b: u32) -> u32;

    /// The cosine.
    fn cosine(&self, a: u32) -> u32;

    /// The sine.
    fn sine(&self, a: u32) -> u32;

    /// The larger of two values.
    fn larger(&self, a: u32, b: u32) -> u32;

    /// A whole number as a value.
    fn number(&self, n: usize) -> u32;

    /// The quotient `a / b`, rounded to an integer.
    fn round_quotient(&self, a: u32, b: u32) -> i32;

    /// The product of an integer and a value.
    fn scale(&self, step: i32, by: u32) -> u32;

    /// A 32-bit value as a 16-bit one.
    fn narrow(&self, single: u32) -> u16;

    /// A 16-bit value as a 32-bit one.
    fn widen(&self, half: u16) -> u32;

    /// A 32-bit value as a 64-bit one.
    fn double(&self, single: u32) -> u64;

    /// A 64-bit value as a 32-bit one.
    fn single(&self, double: u64) -> u32;

    /// A whole number as a 64-bit value.
    fn double_number(&self, n: usize) -> u64;

    /// The sum `a + b` of 64-bit values.
    fn double_plus(&self, a: u64, b: u64) -> u64;

    /// The product `a * b` of 64-bit values.
    fn double_times(&self, a: u64, b: u64) -> u64;

    /// The quotient `a / b` of 64-bit values.
    fn double_divide(&self, a: u64, b: u64) -> u64;

    /// The square root of a 64-bit value.
    fn double_root(&self, a: u64) -> u64;

    /// A 32-bit value in decimal.
    fn single_text(&self, bits: u32) -> String;

    /// A 64-bit value in decimal.
    fn double_text(&self, bits: u64) -> String;

    /// The 32-bit value that a text writes, if it writes one.
    fn read_single(&self, text: &str) -> Option<u32>;

    /// The whole part of the number that a text writes, if it writes one.
    fn whole_part(&self, text: &str) -> Option<u64>;
}

/// `r` can be the sum of `a` and `b`.
pub open spec fn is_sum<U: FloatUnit>(u: &U, a: u32, b: u32, r: u32) -> bool {
    call_ensures(U::plus, (u, a, b), r)
}

/// `r` can be the difference of `a` and `b`.
pub open spec fn is_difference<U: FloatUnit>(u: &U, a: u32, b: u32, r: u32) -> bool {
    call_ensures(U::minus, (u, a, b), r)
}

/// `r` can be the square root of `a`.
pub open spec fn is_root<U: FloatUnit>(u: &U, a: u32, r: u32) -> bool {
    call_ensures(U::root, (u, a), r)
}

/// `r` can be the exponential function of `a`.
pub open spec fn is_exponential<U: FloatUnit>(u: &U, a: u32, r: u32) -> bool {
    call_ensures(U::exponential, (u, a), r)
}

/// `r` can be `a` to the power `b`.
pub open spec fn is_power<U: FloatUnit>(u: &U, a: u32, b: u32, r: u32) -> bool {
    call_ensures(U::power, (u, a, b), r)
}

/// `r` can be the cosine of `a`.
pub open spec fn is_cosine<U: FloatUnit>(u: &U, a: u32, r: u32) -> bool {
    call_ensures(U::cosine, (u, a), r)
}

/// `r` can be the sine of `a`.
pub open spec fn is_sine<U: FloatUnit>(u: &U, a: u32, r: u32) -> bool {
    call_ensures(U::sine, (u, a), r)
}

/// `r` can be the larger of `a` and `b`.
pub open spec fn is_larger<U: FloatUnit>(u: &U, a: u32, b: u32, r: u32) -> bool {
    call_ensures(U::larger, (u, a, b), r)
}

/// `r` can be the value of the whole number `n`.
pub open spec fn is_number<U: FloatUnit>(u: &U, n: usize, r: u32) -> bool {
    call_ensures(U::number, (u, n), r)
}

/// `r` can be the value of the count `n`.
pub open spec fn is_count<U: FloatUnit>(u: &U, n: int, r: u32) -> bool {
    is_number(u, n as usize, r)
}

/// `r` can be the product of `a` and `b`.
pub open spec fn is_product<U: FloatUnit>(u: &U, a: u32, b: u32, r: u32) -> bool {
    call_ensures(U::times, (u, a, b), r)
}

/// `r` can be the sum of the products of `xs` and `ys`, added up from 0 in their order.
pub open spec fn is_dot<U: FloatUnit>(u: &U, xs: Seq<u32>, ys: Seq<u32>, r: u32) -> bool
    decreases xs.len(),
{
    if xs.len() == 0 {
        r == 0
    } else {
        exists|before: u32, p: u32|
            {
                &&& is_dot(u, xs.drop_last(), ys.drop_last(), before)
                &&& is_product(u, xs.last(), ys.last(), p)
                &&& #[trigger] is_term(u, before, p, r)
            }
    }
}

/// `r` can be the sum of `a` and `b`: one step of adding up.
pub open spec fn is_term<U: FloatUnit>(u: &U, a: u32, b: u32, r: u32) -> bool {
    is_sum(u, a, b, r)
}

/// One more product in a sum of products.
pub proof fn lemma_dot_step<U: FloatUnit>(
    u: &U,
    xs: Seq<u32>,
    ys: Seq<u32>,
    x: u32,
    y: u32,
    before: u32,
    p: u32,
    r: u32,
)
    requires
        is_dot(u, xs, ys, before),
        is_product(u, x, y, p),
        is_sum(u, before, p, r),
    ensures
        is_dot(u, xs.push(x), ys.push(y), r),
{
    assert(xs.push(x).drop_last() =~= xs);
    assert(ys.push(y).drop_last() =~= ys);
    assert(is_term(u, before, p, r));
}

/// `r` can be the quotient of `a` and `b`.
pub open spec fn is_quotient<U: FloatUnit>(u: &U, a: u32, b: u32, r: u32) -> bool {
    call_ensures(U::divide, (u, a, b), r)
}

/// `r` can be the rounded quotient of `a` and `b`.
pub open spec fn is_rounded<U: FloatUnit>(u: &U, a: u32, b: u32, r: i32) -> bool {
    call_ensures(U::round_quotient, (u, a, b), r)
}

/// `r` can be the product of the integer `step` and `by`.
pub open spec fn is_scaled<U: FloatUnit>(u: &U, step: i32, by: u32, r: u32) -> bool {
    call_ensures(U::scale, (u, step, by), r)
}

/// `r` can be the 16-bit value of `a`.
pub open spec fn is_narrow<U: FloatUnit>(u: &U, a: u32, r: u16) -> bool {
    call_ensures(U::narrow, (u, a), r)
}

/// `r` can be the 32-bit value of `a`.
pub open spec fn is_wide<U: FloatUnit>(u: &U, a: u16, r: u32) -> bool {
    call_ensures(U::widen, (u, a), r)
}

/// `r` can be the 64-bit value of `a`.
pub open spec fn is_double<U: FloatUnit>(u: &U, a: u32, r: u64) -> bool {
    call_ensures(U::double, (u, a), r)
}

/// `r` can be the 32-bit value of the 64-bit value `a`.
pub open spec fn is_single<U: FloatUnit>(u: &U, a: u64, r: u32) -> bool {
    call_ensures(U::single, (u, a), r)
}

/// `r` can be the 64-bit value of the count `n`.
pub open spec fn is_double_count<U: FloatUnit>(u: &U, n: int, r: u64) -> bool {
    call_ensures(U::double_number, (u, n as usize), r)
}

/// `r` can be the sum of `a` and `b` in 64 bits.
pub open spec fn is_double_sum<U: FloatUnit>(u: &U, a: u64, b: u64, r: u64) -> bool {
    call_ensures(U::double_plus, (u, a, b), r)
}

/// `r` can be the product of `a` and `b` in 64 bits.
pub open spec fn is_double_product<U: FloatUnit>(u: &U, a: u64, b: u64, r: u64) -> bool {
    call_ensures(U::double_times, (u, a, b), r)
}

/// `r` can be the quotient of `a` and `b` in 64 bits.
pub open spec fn is_double_quotient<U: FloatUnit>(u: &U, a: u64, b: u64, r: u64) -> bool {
    call_ensures(U::double_divide, (u, a, b), r)
}

/// `r` can be the square root of `a` in 64 bits.
pub open spec fn is_double_root<U: FloatUnit>(u: &U, a: u64, r: u64) -> bool {
    call_ensures(U::double_root, (u, a), r)
}

/// `s` can be the 32-bit value `bits` in decimal.
pub open spec fn is_single_text<U: FloatUnit>(u: &U, bits: u32, s: Seq<char>) -> bool {
    exists|t: String| #[trigger] call_ensures(U::single_text, (u, bits), t) && t@ == s
}

/// `s` can be the 64-bit value `bits` in decimal.
pub open spec fn is_double_text<U: FloatUnit>(u: &U, bits: u64, s: Seq<char>) -> bool {
    exists|t: String| #[trigger] call_ensures(U::double_text, (u, bits), t) && t@ == s
}

/// `r` can be the 32-bit value that `s` writes.
pub open spec fn is_read_single<U: FloatUnit>(u: &U, s: Seq<char>, r: Option<u32>) -> bool {
    exists|t: &str| #[trigger] call_ensures(U::read_single, (u, t), r) && t@ == s
}

/// `r` can be the whole part of the number that `s` writes.
pub open spec fn is_whole_part<U: FloatUnit>(u: &U, s: Seq<char>, r: Option<u64>) -> bool {
    exists|t: &str| #[trigger] call_ensures(U::whole_part, (u, t), r) && t@ == s
}

/// The pattern of 1.
pub const ONE: u32 = 0x3F80_0000;

/// The pattern of 7.
pub const SEVEN: u32 = 0x40E0_0000;

/// The pattern of 127.
pub const ONE_TWENTY_SEVEN: u32 = 0x42FE_0000;

/// The pattern of negative infinity.
pub const NEGATIVE_INFINITY: u32 = 0xFF80_0000;

/// The pattern of the negative: the sign bit flipped.
pub open spec fn negative(bits: u32) -> u32 {
    if bits >= 0x8000_0000 {
        (bits - 0x8000_0000) as u32
    } else {
        (bits + 0x8000_0000) as u32
    }
}

/// The negative.
pub fn negate(bits: u32) -> (r: u32)
    ensures
        r == negative(bits),
{
    if bits >= 0x8000_0000 {
        bits - 0x8000_0000
    } else {
        bits + 0x8000_0000
    }
}

/// The pattern of the absolute value: the sign bit cleared.
pub open spec fn magnitude(bits: u32) -> u32 {
    if bits >= 0x8000_0000 {
        (bits - 0x8000_0000) as u32
    } else {
        bits
    }
}

/// Whether the pattern is no number.
pub open spec fn is_nan(bits: u32) -> bool {
    magnitude(bits) > 0x7F80_0000
}

/// Whether all patterns are numbers.
pub open spec fn all_numbers(s: Seq<u32>) -> bool {
    forall|i: int| 0 <= i < s.len() ==> !is_nan(#[trigger] s[i])
}

/// Whether the pattern is a number that is not infinite.
pub open spec fn is_finite(bits: u32) -> bool {
    magnitude(bits) < 0x7F80_0000
}

/// The largest magnitude among those of `values` that are numbers, 0 where none is. Magnitudes
/// are ordered as their patterns are.
pub open spec fn largest(values: Seq<u32>) -> u32
    decreases values.len(),
{
    if values.len() == 0 {
        0
    } else {
        let rest = largest(values.drop_last());
        let m = magnitude(values.last());
        if !is_nan(values.last()) && m > rest {
            m
        } else {
            rest
        }
    }
}

/// The largest magnitude among the numbers of `values`.
pub fn largest_magnitude(values: &[u32]) -> (r: u32)
    ensures
        r == largest(values@),
{
    let mut best: u32 = 0;
    let mut i: usize = 0;
    assert(values@.take(0) =~= Seq::<u32>::empty());
    while i < values.len()
        invariant
            i <= values@.len(),
            best == largest(values@.take(i as int)),
        decreases values@.len() - i,
    {
        let v: u32 = values[i];
        let m: u32 = if v >= 0x8000_0000 {
            v - 0x8000_0000
        } else {
            v
        };
        assert(values@.take(i + 1).drop_last() =~= values@.take(i as int));
        if m <= 0x7F80_0000 && m > best {
            best = m;
        }
        i = i + 1;
    }
    assert(values@.take(i as int) =~= values@);
    best
}

/// No number exceeds the largest magnitude.
pub proof fn law_largest_bounds_all(values: Seq<u32>, i: int)
    requires
        0 <= i < values.len(),
        !is_nan(values[i]),
    ensures
        magnitude(values[i]) <= largest(values) <= 0x7F80_0000,
    decreases values.len(),
{
    lemma_largest_is_number(values);
    if i < values.len() - 1 {
        law_largest_bounds_all(values.drop_last(), i);
    }
}

/// The largest magnitude is that of one of the numbers, unless it is 0.
pub proof fn law_largest_is_one_of_all(values: Seq<u32>)
    ensures
        largest(values) > 0 ==> exists|i: int|
            0 <= i < values.len() && !is_nan(values[i]) && magnitude(#[trigger] values[i])
                == largest(values),
    decreases values.len(),
{
    if values.len() > 0 && largest(values) > 0 {
        let front = values.drop_last();
        law_largest_is_one_of_all(front);
        if largest(values) == largest(front) {
            let i = choose|i: int|
                0 <= i < front.len() && !is_nan(front[i]) && magnitude(#[trigger] front[i])
                    == largest(front);
            assert(magnitude(values[i]) == largest(values));
        } else {
            assert(magnitude(values[values.len() - 1]) == largest(values));
        }
    }
}

proof fn lemma_largest_is_number(values: Seq<u32>)
    ensures
        largest(values) <= 0x7F80_0000,
    decreases values.len(),
{
    if values.len() > 0 {
        lemma_largest_is_number(values.drop_last());
    }
}

/// The pattern of the 32-bit value of a brain float: its 16 bits are the upper ones.
pub open spec fn brain_single(bf: u16) -> u32 {
    (bf * 0x1_0000) as u32
}

/// Widens a brain float.
pub fn bf16_to_f32(bf: u16) -> (single: u32)
    ensures
        single == brain_single(bf),
{
    bf as u32 * 0x1_0000
}

/// The largest 32-bit number.
pub const LARGEST: u32 = 0x7F7F_FFFF;

/// The place of a pattern among the numbers: numbers are ordered as their places are, and both
/// zeros have the same place.
pub open spec fn place(bits: u32) -> int {
    if bits >= 0x8000_0000 {
        -(bits - 0x8000_0000)
    } else {
        bits as int
    }
}

/// Whether `a` is less than `b`. What is no number is neither less than a number nor greater.
pub open spec fn below(a: u32, b: u32) -> bool {
    !is_nan(a) && !is_nan(b) && place(a) < place(b)
}

/// Whether `a` is less than `b` or equal to it.
pub open spec fn at_most(a: u32, b: u32) -> bool {
    !is_nan(a) && !is_nan(b) && place(a) <= place(b)
}

pub(crate) fn place_of(bits: u32) -> (r: i64)
    ensures
        r == place(bits),
{
    if bits >= 0x8000_0000 {
        -((bits - 0x8000_0000) as i64)
    } else {
        bits as i64
    }
}

fn no_number(bits: u32) -> (r: bool)
    ensures
        r == is_nan(bits),
{
    if bits >= 0x8000_0000 {
        bits - 0x8000_0000 > 0x7F80_0000
    } else {
        bits > 0x7F80_0000
    }
}

/// Whether `a` is less than `b`.
pub fn is_below(a: u32, b: u32) -> (r: bool)
    ensures
        r == below(a, b),
{
    !no_number(a) && !no_number(b) && place_of(a) < place_of(b)
}

/// Whether `a` is less than `b` or equal to it.
pub fn is_at_most(a: u32, b: u32) -> (r: bool)
    ensures
        r == at_most(a, b),
{
    !no_number(a) && !no_number(b) && place_of(a) <= place_of(b)
}

} // verus!
