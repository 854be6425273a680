//! The choice of the next token: a generator of random numbers, and sampling by temperature from
//! the most likely tokens.

use vstd::multiset::Multiset;
use vstd::prelude::*;
use crate::float::{
    all_numbers, at_most, below, is_at_most, is_below, is_count, is_exponential, is_nan, is_product,
    is_quotient, is_sum, place, place_of, FloatUnit, LARGEST, ONE,
};
use crate::kernels::{copy_values, is_total};

verus! {

/// What follows a state of the generator.
pub open spec fn xorshift(x: u64) -> u64 {
    let a = x ^ (x << 13u64);
    let b = a ^ (a >> 7u64);
    b ^ (b << 17u64)
}

/// A generator of pseudo-random numbers.
#[derive(Debug, Clone, Copy)]
pub struct XorShift64 {
    pub state: u64,
}

impl XorShift64 {
    /// A generator that begins with a seed, or with 1 in place of 0.
    pub fn new(seed: u64) -> (r: XorShift64)
        ensures
            r.state == if seed == 0 {
                1
            } else {
                seed
            },
    {
        XorShift64 {
            state: if seed == 0 {
                1
            } else {
                seed
            },
        }
    }

    /// The next number, which is the next state too.
    pub fn next(&mut self) -> (r: u64)
        ensures
            r == xorshift(old(self).state),
            final(self).state == r,
    {
        let x: u64 = self.state;
        let a: u64 = x ^ (x << 13u64);
        let b: u64 = a ^ (a >> 7u64);
        let c: u64 = b ^ (b << 17u64);
        self.state = c;
        c
    }

    /// The next number in 0..1, made of the upper 24 bits of the next number.
    pub fn next_f32<U: FloatUnit>(&mut self, unit: &U) -> (r: u32)
        ensures
            final(self).state == xorshift(old(self).state),
            is_draw(unit, xorshift(old(self).state), r),
    {
        let bits: u64 = self.next() >> 40u64;
        assert(bits == xorshift(old(self).state) >> 40u64);
        proof {
            law_draw_is_small(xorshift(old(self).state));
        }
        let n: u32 = unit.number(bits as usize);
        let r: u32 = unit.divide(n, TWO_TO_24);
        assert(is_count(unit, bits as int, n));
        r
    }
}

/// The pattern of 2^24.
pub const TWO_TO_24: u32 = 0x4B80_0000;

/// `r` can be the upper 24 bits of `x`, divided by 2^24.
pub open spec fn is_draw<U: FloatUnit>(u: &U, x: u64, r: u32) -> bool {
    exists|n: u32| #[trigger] is_count(u, (x >> 40u64) as int, n) && is_quotient(u, n, TWO_TO_24, r)
}

/// The upper 24 bits of a number are below 2^24, so that what is drawn from them is below 1.
pub proof fn law_draw_is_small(x: u64)
    ensures
        x >> 40u64 < 0x100_0000,
{
    assert(x >> 40u64 < 0x100_0000) by (bit_vector);
}

/// The generator never reaches 0, from which it could not go on.
pub proof fn law_generator_never_stops(x: u64)
    requires
        x != 0,
    ensures
        xorshift(x) != 0,
{
    let a = x ^ (x << 13u64);
    let b = a ^ (a >> 7u64);
    assert(a != 0) by (bit_vector)
        requires
            x != 0,
            a == x ^ (x << 13u64),
    ;
    assert(b != 0) by (bit_vector)
        requires
            a != 0,
            b == a ^ (a >> 7u64),
    ;
    assert(b ^ (b << 17u64) != 0) by (bit_vector)
        requires
            b != 0,
    ;
}

/// Two states with the same successor are the same, so that no two seeds above 0 give the same
/// numbers.
pub proof fn law_generator_keeps_seeds_apart(x: u64, y: u64)
    requires
        xorshift(x) == xorshift(y),
    ensures
        x == y,
{
    let a = x ^ (x << 13u64);
    let b = a ^ (a >> 7u64);
    let c = y ^ (y << 13u64);
    let d = c ^ (c >> 7u64);
    assert(b == d) by (bit_vector)
        requires
            b ^ (b << 17u64) == d ^ (d << 17u64),
    ;
    assert(a == c) by (bit_vector)
        requires
            a ^ (a >> 7u64) == c ^ (c >> 7u64),
    ;
    assert(x == y) by (bit_vector)
        requires
            x ^ (x << 13u64) == y ^ (y << 13u64),
    ;
}

/// No value has a greater one behind it.
pub open spec fn falls(s: Seq<u32>) -> bool {
    forall|i: int, j: int| 0 <= i < j < s.len() ==> place(s[i]) >= place(s[j])
}

/// `r` is `s` in falling order.
pub open spec fn is_falling_order(s: Seq<u32>, r: Seq<u32>) -> bool {
    r.to_multiset() == s.to_multiset() && falls(r)
}

fn merge(a: &[u32], b: &[u32]) -> (r: Vec<u32>)
    requires
        falls(a@),
        falls(b@),
    ensures
        falls(r@),
        r@.to_multiset() == a@.to_multiset().add(b@.to_multiset()),
{
    broadcast use vstd::seq_lib::group_to_multiset_ensures;

    let mut r: Vec<u32> = Vec::new();
    let mut i: usize = 0;
    let mut j: usize = 0;
    assert(a@.take(0) =~= Seq::<u32>::empty());
    assert(b@.take(0) =~= Seq::<u32>::empty());
    assert(r@.to_multiset() =~= a@.take(0).to_multiset().add(b@.take(0).to_multiset()));
    while i < a.len() || j < b.len()
        invariant
            i <= a@.len(),
            j <= b@.len(),
            falls(a@),
            falls(b@),
            falls(r@),
            r@.to_multiset() == a@.take(i as int).to_multiset().add(
                b@.take(j as int).to_multiset(),
            ),
            forall|k: int, l: int|
                0 <= k < r@.len() && i <= l < a@.len() ==> place(#[trigger] r@[k]) >= place(
                    #[trigger] a@[l],
                ),
            forall|k: int, l: int|
                0 <= k < r@.len() && j <= l < b@.len() ==> place(#[trigger] r@[k]) >= place(
                    #[trigger] b@[l],
                ),
        decreases a@.len() - i + b@.len() - j,
    {
        let from_a: bool = j >= b.len() || (i < a.len() && place_of(a[i]) >= place_of(b[j]));
        if from_a {
            let ghost before = r@;
            r.push(a[i]);
            proof {
                vstd::seq_lib::to_multiset_build(before, a@[i as int]);
                assert(a@.take(i + 1) =~= a@.take(i as int).push(a@[i as int]));
                vstd::seq_lib::to_multiset_build(a@.take(i as int), a@[i as int]);
                assert(r@.to_multiset() =~= a@.take(i + 1).to_multiset().add(
                    b@.take(j as int).to_multiset(),
                ));
            }
            i = i + 1;
        } else {
            let ghost before = r@;
            r.push(b[j]);
            proof {
                vstd::seq_lib::to_multiset_build(before, b@[j as int]);
                assert(b@.take(j + 1) =~= b@.take(j as int).push(b@[j as int]));
                vstd::seq_lib::to_multiset_build(b@.take(j as int), b@[j as int]);
                assert(r@.to_multiset() =~= a@.take(i as int).to_multiset().add(
                    b@.take(j + 1).to_multiset(),
                ));
            }
            j = j + 1;
        }
    }
    assert(a@.take(i as int) =~= a@);
    assert(b@.take(j as int) =~= b@);
    r
}

/// The values in falling order.
pub fn sort_falling(s: &[u32]) -> (r: Vec<u32>)
    ensures
        is_falling_order(s@, r@),
        r@.len() == s@.len(),
    decreases s@.len(),
{
    let n: usize = s.len();
    if n < 2 {
        return copy_values(s);
    }
    let mid: usize = n / 2;
    let left = vstd::slice::slice_subrange(s, 0, mid);
    let right = vstd::slice::slice_subrange(s, mid, n);
    let a = sort_falling(left);
    let b = sort_falling(right);
    let r = merge(a.as_slice(), b.as_slice());
    proof {
        broadcast use vstd::seq_lib::group_to_multiset_ensures;

        assert(s@ =~= left@ + right@);
        vstd::seq_lib::lemma_multiset_commutative(left@, right@);
        assert(r@.to_multiset().len() == r@.len());
        assert(s@.to_multiset().len() == s@.len());
    }
    r
}

/// The values, with 0 in place of those below a threshold.
pub open spec fn cut_below(s: Seq<u32>, threshold: u32) -> Seq<u32> {
    Seq::new(
        s.len(),
        |i: int|
            if below(s[i], threshold) {
                0
            } else {
                s[i]
            },
    )
}

fn cut(s: &mut Vec<u32>, threshold: u32)
    ensures
        final(s)@ == cut_below(old(s)@, threshold),
{
    let n: usize = s.len();
    let ghost start = s@;
    let mut i: usize = 0;
    while i < n
        invariant
            i <= n == s@.len() == start.len(),
            forall|k: int|
                0 <= k < i ==> #[trigger] s@[k] == if below(start[k], threshold) {
                    0
                } else {
                    start[k]
                },
            forall|k: int| i <= k < n ==> #[trigger] s@[k] == start[k],
        decreases n - i,
    {
        if is_below(s[i], threshold) {
            s[i] = 0;
        }
        i = i + 1;
    }
    assert(s@ =~= cut_below(start, threshold));
}

/// The place of the last of the greatest values, taken one after another: a value takes the place of
/// the greatest so far unless it is less. 0 where there is none.
pub open spec fn greatest(s: Seq<u32>) -> int
    decreases s.len(),
{
    if s.len() <= 1 {
        0
    } else {
        let best = greatest(s.drop_last());
        if below(s.last(), s[best]) {
            best
        } else {
            s.len() - 1
        }
    }
}

/// Where all values are numbers, none exceeds the greatest, and those behind it are less.
pub proof fn law_greatest_exceeds_all(s: Seq<u32>, i: int)
    requires
        0 <= i < s.len(),
        forall|k: int| 0 <= k < s.len() ==> !is_nan(#[trigger] s[k]),
    ensures
        0 <= greatest(s) < s.len(),
        place(s[i]) <= place(s[greatest(s)]),
        i > greatest(s) ==> place(s[i]) < place(s[greatest(s)]),
    decreases s.len(),
{
    if s.len() > 1 {
        let front = s.drop_last();
        law_greatest_exceeds_all(front, 0);
        if i < s.len() - 1 {
            law_greatest_exceeds_all(front, i);
            assert(front[i] == s[i]);
        }
        assert(front[greatest(front)] == s[greatest(front)]);
    }
}

fn find_greatest(s: &[u32]) -> (r: usize)
    ensures
        r == greatest(s@),
        s@.len() > 0 ==> r < s@.len(),
{
    let mut best: usize = 0;
    let mut i: usize = 1;
    if s.len() == 0 {
        return 0;
    }
    assert(greatest(s@.take(1)) == 0);
    while i < s.len()
        invariant
            1 <= i <= s@.len(),
            best == greatest(s@.take(i as int)),
            best < i,
        decreases s@.len() - i,
    {
        assert(s@.take(i + 1).drop_last() =~= s@.take(i as int));
        if !is_below(s[i], s[best]) {
            best = i;
        }
        i = i + 1;
    }
    assert(s@.take(i as int) =~= s@);
    best
}

fn total<U: FloatUnit>(s: &[u32], unit: &U) -> (r: u32)
    ensures
        is_total(unit, s@, r),
{
    let mut r: u32 = 0;
    let mut i: usize = 0;
    assert(s@.take(0) =~= Seq::<u32>::empty());
    while i < s.len()
        invariant
            i <= s@.len(),
            is_total(unit, s@.take(i as int), r),
        decreases s@.len() - i,
    {
        let next: u32 = unit.plus(r, s[i]);
        assert(s@.take(i + 1).drop_last() =~= s@.take(i as int));
        assert(is_sum(unit, r, s@.take(i + 1).last(), next));
        r = next;
        i = i + 1;
    }
    assert(s@.take(i as int) =~= s@);
    r
}

/// `r` can be the weight of a token with a logit, at a temperature whose inverse is `inv`.
pub open spec fn is_heated<U: FloatUnit>(u: &U, logit: u32, inv: u32, r: u32) -> bool {
    exists|m: u32| #[trigger] is_product(u, logit, inv, m) && is_exponential(u, m, r)
}

/// `w` can be the weights of all tokens at a temperature. Without a temperature above 0 the logits
/// are the weights.
pub open spec fn is_weighting<U: FloatUnit>(
    u: &U,
    logits: Seq<u32>,
    temperature: u32,
    w: Seq<u32>,
) -> bool {
    if below(0, temperature) {
        &&& w.len() == logits.len()
        &&& exists|inv: u32|
            {
                &&& #[trigger] is_quotient(u, ONE, temperature, inv)
                &&& forall|i: int|
                    0 <= i < w.len() ==> is_heated(u, logits[i], inv, #[trigger] w[i])
            }
    } else {
        w == logits
    }
}

fn weigh<U: FloatUnit>(logits: &[u32], temperature: u32, unit: &U) -> (w: Vec<u32>)
    ensures
        is_weighting(unit, logits@, temperature, w@),
        w@.len() == logits@.len(),
{
    if !is_below(0, temperature) {
        return copy_values(logits);
    }
    let inv: u32 = unit.divide(ONE, temperature);
    let mut w: Vec<u32> = Vec::new();
    while w.len() < logits.len()
        invariant
            w@.len() <= logits@.len(),
            forall|i: int|
                0 <= i < w@.len() ==> is_heated(unit, logits@[i], inv, #[trigger] w@[i]),
        decreases logits@.len() - w@.len(),
    {
        let m: u32 = unit.times(logits[w.len()], inv);
        let r: u32 = unit.exponential(m);
        assert(is_product(unit, logits@[w@.len() as int], inv, m));
        w.push(r);
    }
    assert(is_quotient(unit, ONE, temperature, inv));
    w
}

/// `r` can be `w` with all but the `k` greatest weights, and those equal to the last of them, set to
/// 0. Nothing is cut where `k` is 0 or there are no more than `k`.
pub open spec fn is_top_k(w: Seq<u32>, k: int, r: Seq<u32>) -> bool {
    if 0 < k < w.len() {
        exists|order: Seq<u32>|
            #[trigger] is_falling_order(w, order) && r == cut_below(w, order[k - 1])
    } else {
        r == w
    }
}

fn keep_top_k(w: &mut Vec<u32>, k: usize)
    ensures
        is_top_k(old(w)@, k as int, final(w)@),
        final(w)@.len() == old(w)@.len(),
{
    if k > 0 && k < w.len() {
        let order = sort_falling(w.as_slice());
        assert(is_falling_order(w@, order@));
        cut(w, order[k - 1]);
    }
}

/// `c` can be the share of a sum so far with the share of `p` added.
pub open spec fn is_next_share<U: FloatUnit>(u: &U, before: u32, p: u32, sum: u32, c: u32) -> bool {
    exists|q: u32| #[trigger] is_quotient(u, p, sum, q) && is_sum(u, before, q, c)
}

fn next_share<U: FloatUnit>(before: u32, p: u32, sum: u32, unit: &U) -> (c: u32)
    ensures
        is_next_share(unit, before, p, sum, c),
{
    let q: u32 = unit.divide(p, sum);
    assert(is_quotient(unit, p, sum, q));
    unit.plus(before, q)
}

/// `c` can be the shares of the weights, added up: after each of them.
pub open spec fn are_shares<U: FloatUnit>(u: &U, w: Seq<u32>, sum: u32, c: Seq<u32>) -> bool {
    &&& c.len() <= w.len()
    &&& forall|i: int|
        0 <= i < c.len() ==> is_next_share(
            u,
            if i == 0 {
                0
            } else {
                c[i - 1]
            },
            w[i],
            sum,
            #[trigger] c[i],
        )
}

/// `r` can be the weight at which the shares, added up in falling order, exceed `top_p`, or the
/// largest number where they never do.
pub open spec fn is_nucleus<U: FloatUnit>(
    u: &U,
    order: Seq<u32>,
    sum: u32,
    top_p: u32,
    r: u32,
) -> bool {
    exists|c: Seq<u32>|
        {
            &&& #[trigger] are_shares(u, order, sum, c)
            &&& forall|i: int| 0 <= i < c.len() - 1 ==> !below(top_p, #[trigger] c[i])
            &&& if c.len() > 0 && below(top_p, c.last()) {
                r == order[c.len() - 1]
            } else {
                c.len() == order.len() && r == LARGEST
            }
        }
}

fn nucleus<U: FloatUnit>(order: &[u32], sum: u32, top_p: u32, unit: &U) -> (r: u32)
    ensures
        is_nucleus(unit, order@, sum, top_p, r),
{
    let ghost mut c: Seq<u32> = Seq::empty();
    let mut last: u32 = 0;
    let mut i: usize = 0;
    while i < order.len()
        invariant
            i <= order@.len(),
            c.len() == i,
            last == if i == 0 {
                0
            } else {
                c[i - 1]
            },
            are_shares(unit, order@, sum, c),
            forall|k: int| 0 <= k < c.len() ==> !below(top_p, #[trigger] c[k]),
        decreases order@.len() - i,
    {
        let next: u32 = next_share(last, order[i], sum, unit);
        let ghost more = c.push(next);
        assert(are_shares(unit, order@, sum, more)) by {
            assert forall|k: int| 0 <= k < more.len() implies is_next_share(
                unit,
                if k == 0 {
                    0
                } else {
                    more[k - 1]
                },
                order@[k],
                sum,
                #[trigger] more[k],
            ) by {
                if k < i {
                    assert(more[k] == c[k]);
                }
            }
        }
        if is_below(top_p, next) {
            assert(more.last() == next);
            return order[i];
        }
        proof {
            c = more;
        }
        last = next;
        i = i + 1;
    }
    LARGEST
}

/// `r` can be `w` cut to the most likely tokens that together exceed the share `top_p`. Nothing is
/// cut where `top_p` is not below 1 or the weights do not add up to more than 0.
pub open spec fn is_top_p<U: FloatUnit>(u: &U, w: Seq<u32>, top_p: u32, r: Seq<u32>) -> bool {
    if below(top_p, ONE) {
        exists|sum: u32|
            {
                &&& #[trigger] is_total(u, w, sum)
                &&& is_top_share(u, w, sum, top_p, r)
            }
    } else {
        r == w
    }
}

/// The same for a known sum of the weights.
pub open spec fn is_top_share<U: FloatUnit>(
    u: &U,
    w: Seq<u32>,
    sum: u32,
    top_p: u32,
    r: Seq<u32>,
) -> bool {
    if below(0, sum) {
        exists|order: Seq<u32>, threshold: u32|
            {
                &&& #[trigger] is_falling_order(w, order)
                &&& #[trigger] is_nucleus(u, order, sum, top_p, threshold)
                &&& r == cut_below(w, threshold)
            }
    } else {
        r == w
    }
}

fn keep_top_p<U: FloatUnit>(w: &mut Vec<u32>, top_p: u32, unit: &U)
    ensures
        is_top_p(unit, old(w)@, top_p, final(w)@),
        final(w)@.len() == old(w)@.len(),
{
    if is_below(top_p, ONE) {
        let sum: u32 = total(w.as_slice(), unit);
        if is_below(0, sum) {
            let order = sort_falling(w.as_slice());
            let threshold: u32 = nucleus(order.as_slice(), sum, top_p, unit);
            assert(is_falling_order(w@, order@));
            assert(is_nucleus(unit, order@, sum, top_p, threshold));
            cut(w, threshold);
        }
        assert(is_top_share(unit, old(w)@, sum, top_p, w@));
    }
}

/// `r` can be the token whose share of the sum a number `draw` in 0..1 falls into, or the greatest
/// where it falls behind them all.
pub open spec fn is_pick<U: FloatUnit>(u: &U, w: Seq<u32>, sum: u32, draw: u32, r: int) -> bool {
    exists|c: Seq<u32>|
        {
            &&& #[trigger] are_shares(u, w, sum, c)
            &&& forall|i: int| 0 <= i < c.len() - 1 ==> !below(draw, #[trigger] c[i])
            &&& if c.len() > 0 && below(draw, c.last()) {
                r == c.len() - 1
            } else {
                c.len() == w.len() && r == greatest(w)
            }
        }
}

fn pick<U: FloatUnit>(w: &[u32], sum: u32, draw: u32, unit: &U) -> (r: usize)
    ensures
        is_pick(unit, w@, sum, draw, r as int),
        w@.len() > 0 ==> r < w@.len(),
{
    let ghost mut c: Seq<u32> = Seq::empty();
    let mut last: u32 = 0;
    let mut i: usize = 0;
    while i < w.len()
        invariant
            i <= w@.len(),
            c.len() == i,
            last == if i == 0 {
                0
            } else {
                c[i - 1]
            },
            are_shares(unit, w@, sum, c),
            forall|k: int| 0 <= k < c.len() ==> !below(draw, #[trigger] c[k]),
        decreases w@.len() - i,
    {
        let next: u32 = next_share(last, w[i], sum, unit);
        let ghost more = c.push(next);
        assert(are_shares(unit, w@, sum, more)) by {
            assert forall|k: int| 0 <= k < more.len() implies is_next_share(
                unit,
                if k == 0 {
                    0
                } else {
                    more[k - 1]
                },
                w@[k],
                sum,
                #[trigger] more[k],
            ) by {
                if k < i {
                    assert(more[k] == c[k]);
                }
            }
        }
        if is_below(draw, next) {
            assert(more.last() == next);
            return i;
        }
        proof {
            c = more;
        }
        last = next;
        i = i + 1;
    }
    find_greatest(w)
}

/// `w` can be the weights that are left of the logits.
pub open spec fn is_left<U: FloatUnit>(
    u: &U,
    logits: Seq<u32>,
    temperature: u32,
    top_p: u32,
    top_k: int,
    w: Seq<u32>,
) -> bool {
    exists|all: Seq<u32>, some: Seq<u32>|
        {
            &&& #[trigger] is_weighting(u, logits, temperature, all)
            &&& #[trigger] is_top_k(all, top_k, some)
            &&& is_top_p(u, some, top_p, w)
        }
}

/// `token` can be what is chosen from the weights that are left, from state `state` of the generator,
/// and `next` its state then. Where the weights do not add up to more than 0, the greatest logit is
/// chosen and nothing is drawn.
pub open spec fn is_choice<U: FloatUnit>(
    u: &U,
    logits: Seq<u32>,
    w: Seq<u32>,
    sum: u32,
    state: u64,
    next: u64,
    token: u32,
) -> bool {
    if at_most(sum, 0) {
        next == state && token == greatest(logits)
    } else {
        next == xorshift(state) && exists|draw: u32|
            {
                &&& #[trigger] is_draw(u, xorshift(state), draw)
                &&& is_pick(u, w, sum, draw, token as int)
            }
    }
}

/// The temperature at which nothing is left to chance.
pub open spec fn is_frozen(temperature: u32) -> bool {
    temperature == 0 || temperature == 0x8000_0000
}

/// `token` can be sampled from logits, from state `state` of the generator, and `next` its state
/// then. At temperature 0 it is the greatest logit, and nothing is drawn.
#[verifier::opaque]
pub open spec fn is_sample<U: FloatUnit>(
    u: &U,
    logits: Seq<u32>,
    temperature: u32,
    top_p: u32,
    top_k: int,
    state: u64,
    next: u64,
    token: u32,
) -> bool {
    if is_frozen(temperature) {
        next == state && token == greatest(logits)
    } else {
        exists|w: Seq<u32>, sum: u32|
            {
                &&& #[trigger] is_left(u, logits, temperature, top_p, top_k, w)
                &&& #[trigger] is_total(u, w, sum)
                &&& is_choice(u, logits, w, sum, state, next, token)
            }
    }
}

/// Samples a token from logits: what is left of their weights at a temperature, of the `top_k` greatest
/// and of those that make up `top_p` of the whole. At temperature 0 the greatest logit is taken.
pub fn sample_token<U: FloatUnit>(
    logits: &[u32],
    temperature: u32,
    top_p: u32,
    top_k: usize,
    rng: &mut XorShift64,
    unit: &U,
) -> (token: u32)
    requires
        logits@.len() <= u32::MAX,
    ensures
        is_sample(
            unit,
            logits@,
            temperature,
            top_p,
            top_k as int,
            old(rng).state,
            final(rng).state,
            token,
        ),
        is_frozen(temperature) ==> token == greatest(logits@) && *final(rng) == *old(rng),
        logits@.len() > 0 ==> token < logits@.len(),
        logits@.len() == 0 ==> token == 0,
{
    proof {
        reveal(is_sample);
    }
    if temperature == 0 || temperature == 0x8000_0000 {
        return find_greatest(logits) as u32;
    }
    let mut w = weigh(logits, temperature, unit);
    let ghost all = w@;
    keep_top_k(&mut w, top_k);
    let ghost some = w@;
    keep_top_p(&mut w, top_p, unit);
    assert(is_left(unit, logits@, temperature, top_p, top_k as int, w@)) by {
        assert(is_weighting(unit, logits@, temperature, all));
        assert(is_top_k(all, top_k as int, some));
    }
    let sum: u32 = total(w.as_slice(), unit);
    assert(is_total(unit, w@, sum));
    if is_at_most(sum, 0) {
        return find_greatest(logits) as u32;
    }
    let draw: u32 = rng.next_f32(unit);
    let r: usize = pick(w.as_slice(), sum, draw, unit);
    assert(is_draw(unit, xorshift(old(rng).state), draw));
    r as u32
}

/// Both patterns are no numbers, or both are the same number.
pub open spec fn same_number(a: u32, b: u32) -> bool {
    if is_nan(a) {
        is_nan(b)
    } else {
        !is_nan(b) && place(a) == place(b)
    }
}

/// The arithmetic of a unit treats 0 as usual: adding it changes nothing, it has no share of a sum,
/// and neither weights nor draws are below it. What is no number stays none.
pub open spec fn has_usual_zero<U: FloatUnit>(u: &U) -> bool {
    &&& forall|a: u32, c: u32| #[trigger] is_sum(u, a, 0, c) ==> same_number(a, c)
    &&& forall|a: u32, b: u32, c: u32| is_nan(b) && #[trigger] is_sum(u, a, b, c) ==> is_nan(c)
    &&& forall|s: u32, q: u32| #[trigger]
        is_quotient(u, 0, s, q) ==> if is_nan(s) {
            is_nan(q)
        } else {
            below(0, s) ==> q == 0
        }
    &&& forall|a: u32, r: u32| #[trigger]
        is_exponential(u, a, r) ==> is_nan(r) || r < 0x8000_0000
    &&& forall|x: u64, d: u32| #[trigger] is_draw(u, x, d) ==> !below(d, 0)
}

/// How many of the values have a place above `p`.
pub open spec fn count_above(s: Seq<u32>, p: int) -> nat
    decreases s.len(),
{
    if s.len() == 0 {
        0
    } else {
        count_above(s.drop_last(), p) + if place(s.last()) > p {
            1nat
        } else {
            0nat
        }
    }
}

proof fn lemma_count_of_multiset(s: Seq<u32>, p: int)
    ensures
        count_above(s, p) == s.to_multiset().filter(|v: u32| place(v) > p).len(),
    decreases s.len(),
{
    broadcast use vstd::seq_lib::group_to_multiset_ensures;
    broadcast use vstd::multiset::group_multiset_axioms;

    let f = |v: u32| place(v) > p;
    if s.len() == 0 {
        assert(s.to_multiset().filter(f) =~= Multiset::<u32>::empty());
    } else {
        let front = s.drop_last();
        let last = s.last();
        lemma_count_of_multiset(front, p);
        assert(front.push(last) =~= s);
        vstd::seq_lib::to_multiset_build(front, last);
        if f(last) {
            assert(s.to_multiset().filter(f) =~= front.to_multiset().filter(f).insert(last));
        } else {
            assert(s.to_multiset().filter(f) =~= front.to_multiset().filter(f));
        }
    }
}

proof fn lemma_count_bounds(s: Seq<u32>, p: int, n: int)
    requires
        0 <= n,
        forall|j: int| n <= j < s.len() ==> place(#[trigger] s[j]) <= p,
    ensures
        count_above(s, p) <= n,
    decreases s.len(),
{
    if s.len() > n {
        assert(place(s[s.len() - 1]) <= p);
        assert forall|j: int| n <= j < s.drop_last().len() implies place(#[trigger] s.drop_last()[j])
            <= p by {
            assert(place(s[j]) <= p);
        }
        lemma_count_bounds(s.drop_last(), p, n);
    } else if s.len() > 0 {
        lemma_count_bounds(s.drop_last(), p, n - 1);
    }
}

proof fn lemma_one_not_above(s: Seq<u32>, p: int, i: int)
    requires
        0 <= i < s.len(),
        place(s[i]) <= p,
    ensures
        count_above(s, p) < s.len(),
    decreases s.len(),
{
    if i < s.len() - 1 {
        lemma_one_not_above(s.drop_last(), p, i);
    } else {
        lemma_count_bounds(s.drop_last(), p, s.len() - 1);
    }
}

/// Fewer than `k` weights are greater than one that is among the `k` greatest.
proof fn lemma_kept_is_high(w: Seq<u32>, k: int, r: Seq<u32>, i: int)
    requires
        k > 0,
        0 <= i < w.len(),
        all_numbers(w),
        is_top_k(w, k, r),
        r[i] != 0,
    ensures
        count_above(w, place(w[i])) < k,
        r[i] == w[i],
{
    let p = place(w[i]);
    if k < w.len() {
        let order = choose|order: Seq<u32>|
            #[trigger] is_falling_order(w, order) && r == cut_below(w, order[k - 1]);
        broadcast use vstd::seq_lib::group_to_multiset_ensures;

        assert(order.len() == w.len()) by {
            assert(order.to_multiset().len() == w.to_multiset().len());
        }
        assert(!is_nan(order[k - 1])) by {
            assert(order.contains(order[k - 1]));
            assert(w.to_multiset().count(order[k - 1]) > 0);
            assert(w.contains(order[k - 1]));
        }
        assert(place(order[k - 1]) <= p);
        assert forall|j: int| k - 1 <= j < order.len() implies place(#[trigger] order[j]) <= p by {
            if j > k - 1 {
                assert(place(order[k - 1]) >= place(order[j]));
            }
        }
        lemma_count_bounds(order, p, k - 1);
        lemma_count_of_multiset(order, p);
        lemma_count_of_multiset(w, p);
    } else {
        lemma_one_not_above(w, p, i);
    }
}

proof fn lemma_total_of_zeros<U: FloatUnit>(u: &U, w: Seq<u32>, sum: u32)
    requires
        has_usual_zero(u),
        forall|i: int| 0 <= i < w.len() ==> #[trigger] w[i] == 0,
        is_total(u, w, sum),
    ensures
        same_number(0, sum),
    decreases w.len(),
{
    if w.len() > 0 {
        let before = choose|before: u32|
            is_total(u, w.drop_last(), before) && #[trigger] is_sum(u, before, w.last(), sum);
        assert(w[w.len() - 1] == 0);
        assert forall|i: int| 0 <= i < w.drop_last().len() implies #[trigger] w.drop_last()[i]
            == 0 by {
            assert(w[i] == 0);
        }
        lemma_total_of_zeros(u, w.drop_last(), before);
    }
}

/// Where there is something to choose from, what is chosen was not cut.
proof fn lemma_pick_is_left<U: FloatUnit>(u: &U, w: Seq<u32>, sum: u32, draw: u32, r: int)
    requires
        has_usual_zero(u),
        w.len() > 0,
        all_numbers(w),
        forall|i: int| 0 <= i < w.len() ==> #[trigger] w[i] < 0x8000_0000,
        is_total(u, w, sum),
        !at_most(sum, 0),
        !below(draw, 0),
        is_pick(u, w, sum, draw, r),
    ensures
        0 <= r < w.len(),
        w[r] != 0,
{
    let c = choose|c: Seq<u32>|
        {
            &&& #[trigger] are_shares(u, w, sum, c)
            &&& forall|i: int| 0 <= i < c.len() - 1 ==> !below(draw, #[trigger] c[i])
            &&& if c.len() > 0 && below(draw, c.last()) {
                r == c.len() - 1
            } else {
                c.len() == w.len() && r == greatest(w)
            }
        };
    if c.len() > 0 && below(draw, c.last()) {
        if w[r] == 0 {
            let before = if r == 0 {
                0u32
            } else {
                c[r - 1]
            };
            assert(is_next_share(u, before, w[r], sum, c[r]));
            let q = choose|q: u32| #[trigger] is_quotient(u, 0, sum, q) && is_sum(u, before, q, c[r]);
            if !is_nan(sum) {
                assert(q == 0);
                assert(same_number(before, c[r]));
                if r > 0 {
                    assert(!below(draw, c[r - 1]));
                }
            }
            assert(false);
        }
    } else {
        if forall|i: int| 0 <= i < w.len() ==> #[trigger] w[i] == 0 {
            lemma_total_of_zeros(u, w, sum);
            assert(false);
        }
        let j = choose|j: int| 0 <= j < w.len() && #[trigger] w[j] != 0;
        law_greatest_exceeds_all(w, j);
    }
}

/// A sampled token is the greatest logit, or fewer than `top_k` tokens have a greater weight. With a
/// `top_k` of 1 none has.
pub proof fn law_sample_is_of_the_top_k<U: FloatUnit>(
    u: &U,
    logits: Seq<u32>,
    temperature: u32,
    top_p: u32,
    top_k: int,
    state: u64,
    next: u64,
    token: u32,
)
    requires
        has_usual_zero(u),
        below(0, temperature),
        top_k > 0,
        logits.len() > 0,
        is_sample(u, logits, temperature, top_p, top_k, state, next, token),
    ensures
        token == greatest(logits) || exists|w: Seq<u32>|
            {
                &&& #[trigger] is_weighting(u, logits, temperature, w)
                &&& all_numbers(w) ==> token < w.len() && count_above(
                    w,
                    place(w[token as int]),
                ) < top_k
            },
{
    reveal(is_sample);
    let (w, sum) = choose|w: Seq<u32>, sum: u32|
        {
            &&& #[trigger] is_left(u, logits, temperature, top_p, top_k, w)
            &&& #[trigger] is_total(u, w, sum)
            &&& is_choice(u, logits, w, sum, state, next, token)
        };
    let (all, some) = choose|all: Seq<u32>, some: Seq<u32>|
        {
            &&& #[trigger] is_weighting(u, logits, temperature, all)
            &&& #[trigger] is_top_k(all, top_k, some)
            &&& is_top_p(u, some, top_p, w)
        };
    if !at_most(sum, 0) && all_numbers(all) {
        let draw = choose|draw: u32|
            {
                &&& #[trigger] is_draw(u, xorshift(state), draw)
                &&& is_pick(u, w, sum, draw, token as int)
            };
        let inv = choose|inv: u32|
            {
                &&& #[trigger] is_quotient(u, ONE, temperature, inv)
                &&& forall|i: int|
                    0 <= i < all.len() ==> is_heated(u, logits[i], inv, #[trigger] all[i])
            };
        assert forall|i: int| 0 <= i < all.len() implies #[trigger] all[i] < 0x8000_0000 by {
            assert(is_heated(u, logits[i], inv, all[i]));
        }
        assert(some.len() == all.len() && w.len() == all.len());
        assert forall|i: int| 0 <= i < all.len() implies (#[trigger] some[i] == 0 || some[i]
            == all[i]) by {
        }
        assert forall|i: int| 0 <= i < all.len() implies (#[trigger] w[i] == 0 || w[i] == some[i])
            by {
        }
        assert forall|i: int| 0 <= i < w.len() implies !is_nan(#[trigger] w[i]) && w[i]
            < 0x8000_0000 by {
            assert(!is_nan(all[i]) && all[i] < 0x8000_0000);
        }
        lemma_pick_is_left(u, w, sum, draw, token as int);
        lemma_kept_is_high(all, top_k, some, token as int);
    }
}

/// `r` can be the shares of weights in a sum, added up one after another from 0.
pub open spec fn is_joint_share<U: FloatUnit>(u: &U, w: Seq<u32>, sum: u32, r: u32) -> bool
    decreases w.len(),
{
    if w.len() == 0 {
        r == 0
    } else {
        exists|before: u32, q: u32|
            {
                &&& is_joint_share(u, w.drop_last(), sum, before)
                &&& is_quotient(u, w.last(), sum, q)
                &&& #[trigger] is_sum(u, before, q, r)
            }
    }
}

proof fn lemma_joint_share<U: FloatUnit>(u: &U, w: Seq<u32>, sum: u32, c: Seq<u32>, m: int)
    requires
        are_shares(u, w, sum, c),
        0 < m <= c.len(),
    ensures
        is_joint_share(u, w.take(m), sum, c[m - 1]),
    decreases m,
{
    let before = if m == 1 {
        0
    } else {
        c[m - 2]
    };
    assert(is_next_share(u, before, w[m - 1], sum, c[m - 1]));
    assert(w.take(m).drop_last() =~= w.take(m - 1));
    assert(w.take(m).last() == w[m - 1]);
    if m > 1 {
        lemma_joint_share(u, w, sum, c, m - 1);
    } else {
        assert(w.take(0) =~= Seq::<u32>::empty());
    }
    let q = choose|q: u32| #[trigger]
        is_quotient(u, w[m - 1], sum, q) && is_sum(u, before, q, c[m - 1]);
    assert(is_joint_share(u, w.take(m).drop_last(), sum, before));
    assert(is_quotient(u, w.take(m).last(), sum, q));
    assert(is_sum(u, before, q, c[m - 1]));
}

proof fn lemma_order_of_numbers(w: Seq<u32>, order: Seq<u32>)
    requires
        all_numbers(w),
        is_falling_order(w, order),
    ensures
        order.len() == w.len(),
        all_numbers(order),
{
    broadcast use vstd::seq_lib::group_to_multiset_ensures;

    assert(order.to_multiset().len() == w.to_multiset().len());
    assert forall|i: int| 0 <= i < order.len() implies !is_nan(#[trigger] order[i]) by {
        assert(order.contains(order[i]));
        assert(w.to_multiset().count(order[i]) > 0);
        assert(w.contains(order[i]));
    }
}

/// With a `top_p` below 1, what is left are the fewest greatest weights whose shares together exceed
/// it: the first `m` in falling order do, the first `m - 1` do not, and those weights are left that
/// are not less than the last of them. Where all shares together do not exceed it, no weight below
/// the largest number is left.
pub proof fn law_nucleus_is_the_fewest<U: FloatUnit>(u: &U, w: Seq<u32>, top_p: u32, r: Seq<u32>)
    requires
        all_numbers(w),
        below(top_p, ONE),
        is_top_p(u, w, top_p, r),
    ensures
        r.len() == w.len(),
        exists|sum: u32| #[trigger]
            is_total(u, w, sum) && if below(0, sum) {
                exists|order: Seq<u32>| #[trigger]
                    is_falling_order(w, order) && is_fewest(u, w, order, sum, top_p, r)
            } else {
                r == w
            },
{
    let sum = choose|sum: u32|
        {
            &&& #[trigger] is_total(u, w, sum)
            &&& is_top_share(u, w, sum, top_p, r)
        };
    if below(0, sum) {
        let (order, threshold) = choose|order: Seq<u32>, threshold: u32|
            {
                &&& #[trigger] is_falling_order(w, order)
                &&& #[trigger] is_nucleus(u, order, sum, top_p, threshold)
                &&& r == cut_below(w, threshold)
            };
        lemma_order_of_numbers(w, order);
        let c = choose|c: Seq<u32>|
            {
                &&& #[trigger] are_shares(u, order, sum, c)
                &&& forall|i: int| 0 <= i < c.len() - 1 ==> !below(top_p, #[trigger] c[i])
                &&& if c.len() > 0 && below(top_p, c.last()) {
                    threshold == order[c.len() - 1]
                } else {
                    c.len() == order.len() && threshold == LARGEST
                }
            };
        let m = c.len() as int;
        if c.len() > 0 && below(top_p, c.last()) {
            assert(exceeds(u, order, sum, top_p, m)) by {
                lemma_joint_share(u, order, sum, c, m);
            }
            if m > 1 {
                lemma_joint_share(u, order, sum, c, m - 1);
                assert(!below(top_p, c[m - 2]));
                assert(falls_short(u, order, sum, top_p, m - 1));
            }
            assert forall|i: int| 0 <= i < w.len() implies (#[trigger] r[i]) == if place(w[i])
                >= place(order[m - 1]) {
                w[i]
            } else {
                0
            } by {
                assert(!is_nan(order[m - 1]) && !is_nan(w[i]));
            }
            assert(0 < m <= order.len());
            assert(is_kept_from(w, order, m, r));
            assert(is_cut_at(u, w, order, sum, top_p, r, m));
        } else {
            assert forall|k: int| 0 < k <= order.len() implies #[trigger] falls_short(
                u,
                order,
                sum,
                top_p,
                k,
            ) by {
                lemma_joint_share(u, order, sum, c, k);
                if k < c.len() {
                    assert(!below(top_p, c[k - 1]));
                }
            }
        }
        assert(is_fewest(u, w, order, sum, top_p, r));
    }
}

/// The shares of the first `m` weights can exceed `top_p`.
pub open spec fn exceeds<U: FloatUnit>(
    u: &U,
    order: Seq<u32>,
    sum: u32,
    top_p: u32,
    m: int,
) -> bool {
    exists|c: u32| #[trigger] is_joint_share(u, order.take(m), sum, c) && below(top_p, c)
}

/// The shares of the first `m` weights need not exceed `top_p`.
pub open spec fn falls_short<U: FloatUnit>(
    u: &U,
    order: Seq<u32>,
    sum: u32,
    top_p: u32,
    m: int,
) -> bool {
    exists|c: u32| #[trigger] is_joint_share(u, order.take(m), sum, c) && !below(top_p, c)
}

/// `r` are the weights that are not less than the first `m` in falling order, and 0 for the others.
pub open spec fn is_kept_from(w: Seq<u32>, order: Seq<u32>, m: int, r: Seq<u32>) -> bool {
    forall|i: int|
        0 <= i < w.len() ==> (#[trigger] r[i]) == if place(w[i]) >= place(order[m - 1]) {
            w[i]
        } else {
            0
        }
}

/// The first `m` weights in falling order are the fewest whose shares exceed `top_p`, and `r` is what
/// is left.
pub open spec fn is_cut_at<U: FloatUnit>(
    u: &U,
    w: Seq<u32>,
    order: Seq<u32>,
    sum: u32,
    top_p: u32,
    r: Seq<u32>,
    m: int,
) -> bool {
    &&& 0 < m <= order.len()
    &&& exceeds(u, order, sum, top_p, m)
    &&& m > 1 ==> falls_short(u, order, sum, top_p, m - 1)
    &&& is_kept_from(w, order, m, r)
}

/// `r` is what is left of weights that are `order` in falling order.
pub open spec fn is_fewest<U: FloatUnit>(
    u: &U,
    w: Seq<u32>,
    order: Seq<u32>,
    sum: u32,
    top_p: u32,
    r: Seq<u32>,
) -> bool {
    ||| exists|m: int| #[trigger] is_cut_at(u, w, order, sum, top_p, r, m)
    ||| {
        &&& forall|k: int|
            0 < k <= order.len() ==> #[trigger] falls_short(u, order, sum, top_p, k)
        &&& forall|i: int|
            0 <= i < w.len() && place(w[i]) < place(LARGEST) ==> #[trigger] r[i] == 0
    }
}

/// Of `k` greatest weights, those are left than which fewer than `k` are greater, and no others.
pub proof fn law_top_k_are_left(w: Seq<u32>, k: int, r: Seq<u32>, i: int)
    requires
        k > 0,
        all_numbers(w),
        0 <= i < w.len(),
        is_top_k(w, k, r),
    ensures
        r.len() == w.len(),
        r[i] == if count_above(w, place(w[i])) < k {
            w[i]
        } else {
            0
        },
{
    let p = place(w[i]);
    if k < w.len() {
        let order = choose|order: Seq<u32>| #[trigger]
            is_falling_order(w, order) && r == cut_below(w, order[k - 1]);
        lemma_order_of_numbers(w, order);
        lemma_count_of_multiset(order, p);
        lemma_count_of_multiset(w, p);
        assert(!is_nan(order[k - 1]) && !is_nan(w[i]));
        if place(order[k - 1]) <= p {
            assert forall|j: int| k - 1 <= j < order.len() implies place(#[trigger] order[j])
                <= p by {
                if j > k - 1 {
                    assert(place(order[k - 1]) >= place(order[j]));
                }
            }
            lemma_count_bounds(order, p, k - 1);
        } else {
            assert forall|j: int| 0 <= j < k implies place(#[trigger] order[j]) > p by {
                if j < k - 1 {
                    assert(place(order[j]) >= place(order[k - 1]));
                }
            }
            lemma_count_reaches(order, p, k);
        }
    } else {
        lemma_one_not_above(w, p, i);
    }
}

proof fn lemma_count_reaches(s: Seq<u32>, p: int, n: int)
    requires
        0 <= n <= s.len(),
        forall|j: int| 0 <= j < n ==> place(#[trigger] s[j]) > p,
    ensures
        count_above(s, p) >= n,
    decreases s.len(),
{
    if s.len() > n {
        assert forall|j: int| 0 <= j < n implies place(#[trigger] s.drop_last()[j]) > p by {
            assert(place(s[j]) > p);
        }
        lemma_count_reaches(s.drop_last(), p, n);
    } else if n > 0 {
        assert forall|j: int| 0 <= j < n - 1 implies place(#[trigger] s.drop_last()[j]) > p by {
            assert(place(s[j]) > p);
        }
        lemma_count_reaches(s.drop_last(), p, n - 1);
        assert(place(s[n - 1]) > p);
    }
}

/// The state before a state of the generator.
pub open spec fn state_before(c: u64) -> u64 {
    let b = c ^ (c << 17u64) ^ (c << 34u64) ^ (c << 51u64);
    let a = b ^ (b >> 7u64) ^ (b >> 14u64) ^ (b >> 21u64) ^ (b >> 28u64) ^ (b >> 35u64) ^ (b
        >> 42u64) ^ (b >> 49u64) ^ (b >> 56u64) ^ (b >> 63u64);
    a ^ (a << 13u64) ^ (a << 26u64) ^ (a << 39u64) ^ (a << 52u64)
}

/// The generator can be run back: a state is told by the next.
pub proof fn law_generator_runs_back(x: u64)
    ensures
        state_before(xorshift(x)) == x,
{
    let a = x ^ (x << 13u64);
    let b = a ^ (a >> 7u64);
    let c = b ^ (b << 17u64);
    assert(c ^ (c << 17u64) ^ (c << 34u64) ^ (c << 51u64) == b) by (bit_vector)
        requires
            c == b ^ (b << 17u64),
    ;
    assert(b ^ (b >> 7u64) ^ (b >> 14u64) ^ (b >> 21u64) ^ (b >> 28u64) ^ (b >> 35u64) ^ (b
        >> 42u64) ^ (b >> 49u64) ^ (b >> 56u64) ^ (b >> 63u64) == a) by (bit_vector)
        requires
            b == a ^ (a >> 7u64),
    ;
    assert(a ^ (a << 13u64) ^ (a << 26u64) ^ (a << 39u64) ^ (a << 52u64) == x) by (bit_vector)
        requires
            a == x ^ (x << 13u64),
    ;
}

/// The shares of the weights that are greater than one of them need not exceed `top_p`.
pub open spec fn is_in_nucleus<U: FloatUnit>(u: &U, w: Seq<u32>, top_p: u32, i: int) -> bool {
    let above = count_above(w, place(w[i])) as int;
    exists|sum: u32, order: Seq<u32>|
        {
            &&& #[trigger] is_total(u, w, sum)
            &&& #[trigger] is_falling_order(w, order)
            &&& below(0, sum) && above > 0 ==> falls_short(u, order, sum, top_p, above)
        }
}

/// A falling order of any weights.
proof fn lemma_order_exists(w: Seq<u32>) -> (order: Seq<u32>)
    ensures
        is_falling_order(w, order),
{
    let leq = |a: u32, b: u32| place(a) > place(b) || (place(a) == place(b) && a <= b);
    assert(vstd::relations::total_ordering(leq));
    let order = w.sort_by(leq);
    w.lemma_sort_by_ensures(leq);
    assert forall|i: int, j: int| 0 <= i < j < order.len() implies place(order[i]) >= place(
        order[j],
    ) by {
        assert(leq(order[i], order[j]));
    }
    order
}

proof fn lemma_kept_is_in_nucleus<U: FloatUnit>(
    u: &U,
    w: Seq<u32>,
    top_p: u32,
    r: Seq<u32>,
    i: int,
)
    requires
        all_numbers(w),
        below(top_p, ONE),
        is_top_p(u, w, top_p, r),
        0 <= i < w.len(),
        r[i] != 0,
    ensures
        is_in_nucleus(u, w, top_p, i),
{
    let p = place(w[i]);
    let above = count_above(w, p) as int;
    let sum = choose|sum: u32|
        {
            &&& #[trigger] is_total(u, w, sum)
            &&& is_top_share(u, w, sum, top_p, r)
        };
    if below(0, sum) {
        let (order, threshold) = choose|order: Seq<u32>, threshold: u32|
            {
                &&& #[trigger] is_falling_order(w, order)
                &&& #[trigger] is_nucleus(u, order, sum, top_p, threshold)
                &&& r == cut_below(w, threshold)
            };
        lemma_order_of_numbers(w, order);
        lemma_count_of_multiset(order, p);
        lemma_count_of_multiset(w, p);
        let c = choose|c: Seq<u32>|
            {
                &&& #[trigger] are_shares(u, order, sum, c)
                &&& forall|i: int| 0 <= i < c.len() - 1 ==> !below(top_p, #[trigger] c[i])
                &&& if c.len() > 0 && below(top_p, c.last()) {
                    threshold == order[c.len() - 1]
                } else {
                    c.len() == order.len() && threshold == LARGEST
                }
            };
        let m = c.len() as int;
        lemma_count_bounds(order, p, order.len() as int);
        if m > 0 && below(top_p, c.last()) {
            assert(!is_nan(order[m - 1]) && !is_nan(w[i]));
            assert forall|j: int| m - 1 <= j < order.len() implies place(#[trigger] order[j])
                <= p by {
                if j > m - 1 {
                    assert(place(order[m - 1]) >= place(order[j]));
                }
            }
            lemma_count_bounds(order, p, m - 1);
        }
        if above > 0 {
            lemma_joint_share(u, order, sum, c, above);
            if above < m {
                assert(!below(top_p, c[above - 1]));
            }
            assert(falls_short(u, order, sum, top_p, above));
        }
    } else {
        let order = lemma_order_exists(w);
        assert(is_total(u, w, sum) && is_falling_order(w, order));
    }
}

/// A sampled token is the greatest logit, or the shares of the weights that are greater than its own
/// do not exceed `top_p`.
pub proof fn law_sample_is_of_the_nucleus<U: FloatUnit>(
    u: &U,
    logits: Seq<u32>,
    temperature: u32,
    top_p: u32,
    top_k: int,
    state: u64,
    next: u64,
    token: u32,
)
    requires
        has_usual_zero(u),
        below(0, temperature),
        below(top_p, ONE),
        logits.len() > 0,
        is_sample(u, logits, temperature, top_p, top_k, state, next, token),
    ensures
        token == greatest(logits) || exists|all: Seq<u32>, some: Seq<u32>|
            {
                &&& #[trigger] is_weighting(u, logits, temperature, all)
                &&& #[trigger] is_top_k(all, top_k, some)
                &&& all_numbers(all) ==> token < some.len() && is_in_nucleus(
                    u,
                    some,
                    top_p,
                    token as int,
                )
            },
{
    reveal(is_sample);
    let (w, sum) = choose|w: Seq<u32>, sum: u32|
        {
            &&& #[trigger] is_left(u, logits, temperature, top_p, top_k, w)
            &&& #[trigger] is_total(u, w, sum)
            &&& is_choice(u, logits, w, sum, state, next, token)
        };
    let (all, some) = choose|all: Seq<u32>, some: Seq<u32>|
        {
            &&& #[trigger] is_weighting(u, logits, temperature, all)
            &&& #[trigger] is_top_k(all, top_k, some)
            &&& is_top_p(u, some, top_p, w)
        };
    if !at_most(sum, 0) && all_numbers(all) {
        let draw = choose|draw: u32|
            {
                &&& #[trigger] is_draw(u, xorshift(state), draw)
                &&& is_pick(u, w, sum, draw, token as int)
            };
        let inv = choose|inv: u32|
            {
                &&& #[trigger] is_quotient(u, ONE, temperature, inv)
                &&& forall|i: int|
                    0 <= i < all.len() ==> is_heated(u, logits[i], inv, #[trigger] all[i])
            };
        assert forall|i: int| 0 <= i < all.len() implies #[trigger] all[i] < 0x8000_0000 by {
            assert(is_heated(u, logits[i], inv, all[i]));
        }
        assert(some.len() == all.len() && w.len() == all.len());
        assert forall|i: int| 0 <= i < some.len() implies !is_nan(#[trigger] some[i]) && some[i]
            < 0x8000_0000 by {
            assert(!is_nan(all[i]) && all[i] < 0x8000_0000);
            assert(some[i] == 0 || some[i] == all[i]);
        }
        assert forall|i: int| 0 <= i < w.len() implies !is_nan(#[trigger] w[i]) && w[i]
            < 0x8000_0000 by {
            assert(!is_nan(some[i]) && some[i] < 0x8000_0000);
            assert(w[i] == 0 || w[i] == some[i]);
        }
        lemma_pick_is_left(u, w, sum, draw, token as int);
        lemma_kept_is_in_nucleus(u, some, top_p, w, token as int);
    }
}

/// Without a `top_k` and with a `top_p` of 1 or more, all weights are left as the temperature makes
/// them.
pub proof fn law_nothing_is_cut<U: FloatUnit>(
    u: &U,
    logits: Seq<u32>,
    temperature: u32,
    top_p: u32,
    w: Seq<u32>,
)
    requires
        !below(top_p, ONE),
        is_left(u, logits, temperature, top_p, 0, w),
    ensures
        is_weighting(u, logits, temperature, w),
{
}

/// A weight is the exponential function of the logit divided by the temperature: where a logit is a
/// multiple of the temperature, and multiplying it by the inverse of the temperature gives the factor,
/// its weight is the exponential function of the factor.
pub proof fn law_weight_goes_by_temperature<U: FloatUnit>(
    u: &U,
    logits: Seq<u32>,
    temperature: u32,
    weights: Seq<u32>,
    factor: u32,
    i: int,
)
    requires
        below(0, temperature),
        is_weighting(u, logits, temperature, weights),
        0 <= i < logits.len(),
        forall|inv: u32, m: u32|
            is_quotient(u, ONE, temperature, inv) && #[trigger] is_product(u, logits[i], inv, m)
                ==> m == factor,
    ensures
        weights.len() == logits.len(),
        is_exponential(u, factor, weights[i]),
{
    let inv = choose|inv: u32|
        {
            &&& #[trigger] is_quotient(u, ONE, temperature, inv)
            &&& forall|i: int|
                0 <= i < weights.len() ==> is_heated(u, logits[i], inv, #[trigger] weights[i])
        };
    assert(is_heated(u, logits[i], inv, weights[i]));
}

/// Where a larger logit has no smaller product with the inverse of the temperature, and a larger value
/// no smaller exponential function, a more likely token has no smaller weight.
pub proof fn law_weights_are_ordered_as_logits<U: FloatUnit>(
    u: &U,
    logits: Seq<u32>,
    temperature: u32,
    weights: Seq<u32>,
    i: int,
    j: int,
)
    requires
        below(0, temperature),
        is_weighting(u, logits, temperature, weights),
        0 <= i < logits.len(),
        0 <= j < logits.len(),
        at_most(logits[i], logits[j]),
        forall|t: u32, a: u32, b: u32, r: u32, s: u32|
            is_quotient(u, ONE, temperature, t) && at_most(a, b) && #[trigger] is_product(u, a, t, r)
                && #[trigger] is_product(u, b, t, s) ==> at_most(r, s),
        forall|a: u32, b: u32, r: u32, s: u32|
            at_most(a, b) && #[trigger] is_exponential(u, a, r) && #[trigger] is_exponential(u, b, s)
                ==> at_most(r, s),
    ensures
        at_most(weights[i], weights[j]),
{
    let inv = choose|inv: u32|
        {
            &&& #[trigger] is_quotient(u, ONE, temperature, inv)
            &&& forall|i: int|
                0 <= i < weights.len() ==> is_heated(u, logits[i], inv, #[trigger] weights[i])
        };
    assert(is_heated(u, logits[i], inv, weights[i]));
    assert(is_heated(u, logits[j], inv, weights[j]));
}

/// A token is drawn by its share: the number drawn is the first 24 bits of the next number of the
/// generator divided by 2^24, and the token that is chosen is the first up to which the shares exceed
/// it. Where they never do, it is that of the greatest weight.
pub proof fn law_sample_follows_the_draw<U: FloatUnit>(
    u: &U,
    logits: Seq<u32>,
    temperature: u32,
    top_p: u32,
    top_k: int,
    state: u64,
    next: u64,
    token: u32,
)
    requires
        !is_frozen(temperature),
        is_sample(u, logits, temperature, top_p, top_k, state, next, token),
    ensures
        exists|w: Seq<u32>, sum: u32|
            {
                &&& #[trigger] is_left(u, logits, temperature, top_p, top_k, w)
                &&& #[trigger] is_total(u, w, sum)
                &&& at_most(sum, 0) ==> next == state && token == greatest(logits)
                &&& !at_most(sum, 0) ==> next == xorshift(state) && is_drawn(
                    u,
                    w,
                    sum,
                    next,
                    token as int,
                )
            },
{
    reveal(is_sample);
    let (w, sum) = choose|w: Seq<u32>, sum: u32|
        {
            &&& #[trigger] is_left(u, logits, temperature, top_p, top_k, w)
            &&& #[trigger] is_total(u, w, sum)
            &&& is_choice(u, logits, w, sum, state, next, token)
        };
    if !at_most(sum, 0) {
        let draw = choose|draw: u32|
            {
                &&& #[trigger] is_draw(u, xorshift(state), draw)
                &&& is_pick(u, w, sum, draw, token as int)
            };
        let n = choose|n: u32| #[trigger]
            is_count(u, (next >> 40u64) as int, n) && is_quotient(u, n, TWO_TO_24, draw);
        assert(next >> 40u64 == next / 0x100_0000_0000) by (bit_vector);
        assert(is_count(u, next as int / 0x100_0000_0000, n));
        let c = choose|c: Seq<u32>|
            {
                &&& #[trigger] are_shares(u, w, sum, c)
                &&& forall|i: int| 0 <= i < c.len() - 1 ==> !below(draw, #[trigger] c[i])
                &&& if c.len() > 0 && below(draw, c.last()) {
                    token == c.len() - 1
                } else {
                    c.len() == w.len() && token == greatest(w)
                }
            };
        assert forall|k: int|
            0 < k <= c.len() && !(k == c.len() && below(draw, c.last())) implies #[trigger] falls_short(
            u,
            w,
            sum,
            draw,
            k,
        ) by {
            lemma_joint_share(u, w, sum, c, k);
            if k < c.len() {
                assert(!below(draw, c[k - 1]));
            }
        }
        if c.len() > 0 && below(draw, c.last()) {
            lemma_joint_share(u, w, sum, c, c.len() as int);
            assert(exceeds(u, w, sum, draw, token + 1));
        }
    }
}

/// `token` can be the one that the number drawn from `x` falls to.
pub open spec fn is_drawn<U: FloatUnit>(u: &U, w: Seq<u32>, sum: u32, x: u64, token: int) -> bool {
    exists|n: u32, draw: u32|
        {
            &&& #[trigger] is_count(u, x as int / 0x100_0000_0000, n)
            &&& #[trigger] is_quotient(u, n, TWO_TO_24, draw)
            &&& if exceeds(u, w, sum, draw, token + 1) && 0 <= token < w.len() {
                token > 0 ==> falls_short(u, w, sum, draw, token)
            } else {
                &&& token == greatest(w)
                &&& forall|k: int| 0 < k <= w.len() ==> #[trigger] falls_short(u, w, sum, draw, k)
            }
        }
}

} // verus!
