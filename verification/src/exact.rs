//! Arithmetic that is exact on small whole numbers, as that of 32-bit floating point is up to 2^24.
//!
//! On such numbers the results of the operations are those of mathematics, which says what the
//! operations are for.

use vstd::prelude::*;
use crate::float::{is_dot, is_product, is_sum, is_term, FloatUnit, ONE};
use crate::kernels::is_total;

verus! {

/// The arithmetic of a unit is exact on the whole numbers up to `limit`: where the sum or the product
/// of two of them is no larger, it is what comes out. `w` gives the patterns of the numbers.
pub open spec fn counts<U: FloatUnit>(u: &U, w: spec_fn(nat) -> u32, limit: nat) -> bool {
    &&& w(0) == 0
    &&& w(1) == ONE
    &&& forall|m: nat, n: nat, r: u32|
        m + n <= limit && #[trigger] is_sum(u, w(m), w(n), r) ==> r == w(m + n)
    &&& forall|m: nat, n: nat, r: u32|
        m <= limit && n <= limit && m * n <= limit && #[trigger] is_product(u, w(m), w(n), r)
            ==> r == w(m * n)
}

/// The patterns of numbers.
pub open spec fn patterns(w: spec_fn(nat) -> u32, xs: Seq<nat>) -> Seq<u32> {
    Seq::new(xs.len(), |i: int| w(xs[i]))
}

/// All numbers are at most `limit`.
pub open spec fn within(xs: Seq<nat>, limit: nat) -> bool {
    forall|i: int| 0 <= i < xs.len() ==> #[trigger] xs[i] <= limit
}

/// The sum of the first `n` values of a function of the numbers from 0 on.
pub open spec fn sum_to(f: spec_fn(int) -> nat, n: int) -> nat
    decreases n,
{
    if n <= 0 {
        0
    } else {
        sum_to(f, n - 1) + f(n - 1)
    }
}

/// Sums of functions with the same values are the same.
pub proof fn lemma_sum_same(f: spec_fn(int) -> nat, g: spec_fn(int) -> nat, n: int)
    requires
        forall|k: int| 0 <= k < n ==> #[trigger] f(k) == g(k),
    ensures
        sum_to(f, n) == sum_to(g, n),
    decreases n,
{
    if n > 0 {
        lemma_sum_same(f, g, n - 1);
        assert(f(n - 1) == g(n - 1));
    }
}

/// A sum of which only one term is not 0 is that term.
pub proof fn lemma_sum_of_one(f: spec_fn(int) -> nat, n: int, i: int)
    requires
        forall|k: int| 0 <= k < n && k != i ==> #[trigger] f(k) == 0,
    ensures
        sum_to(f, n) == if 0 <= i < n {
            f(i)
        } else {
            0
        },
    decreases n,
{
    if n > 0 {
        lemma_sum_of_one(f, n - 1, i);
        if n - 1 != i {
            assert(f(n - 1) == 0);
        }
    }
}

/// The sum of products of whole numbers is that sum.
pub proof fn lemma_dot_counts<U: FloatUnit>(
    u: &U,
    w: spec_fn(nat) -> u32,
    limit: nat,
    xs: Seq<nat>,
    ys: Seq<nat>,
    r: u32,
)
    requires
        counts(u, w, limit),
        xs.len() == ys.len(),
        within(xs, limit),
        within(ys, limit),
        sum_to(|k: int| xs[k] * ys[k], xs.len() as int) <= limit,
        is_dot(u, patterns(w, xs), patterns(w, ys), r),
    ensures
        r == w(sum_to(|k: int| xs[k] * ys[k], xs.len() as int)),
    decreases xs.len(),
{
    let f = |k: int| xs[k] * ys[k];
    let px = patterns(w, xs);
    let py = patterns(w, ys);
    let n = xs.len() as int;
    if n > 0 {
        let (before, p) = choose|before: u32, p: u32|
            {
                &&& is_dot(u, px.drop_last(), py.drop_last(), before)
                &&& is_product(u, px.last(), py.last(), p)
                &&& #[trigger] is_term(u, before, p, r)
            };
        let x = xs.drop_last();
        let y = ys.drop_last();
        assert(px.drop_last() =~= patterns(w, x));
        assert(py.drop_last() =~= patterns(w, y));
        let g = |k: int| x[k] * y[k];
        lemma_sum_same(f, g, n - 1);
        assert(f(n - 1) == xs[n - 1] * ys[n - 1]);
        assert forall|i: int| 0 <= i < x.len() implies #[trigger] x[i] <= limit by {
            assert(xs[i] <= limit);
        }
        assert forall|i: int| 0 <= i < y.len() implies #[trigger] y[i] <= limit by {
            assert(ys[i] <= limit);
        }
        lemma_dot_counts(u, w, limit, x, y, before);
        assert(is_product(u, w(xs[n - 1]), w(ys[n - 1]), p));
        assert(xs[n - 1] <= limit && ys[n - 1] <= limit);
        assert(p == w(xs[n - 1] * ys[n - 1]));
        assert(is_sum(u, w(sum_to(g, n - 1)), w(f(n - 1)), r));
    }
}

/// The sum of whole numbers is their sum.
pub proof fn lemma_total_counts<U: FloatUnit>(
    u: &U,
    w: spec_fn(nat) -> u32,
    limit: nat,
    xs: Seq<nat>,
    r: u32,
)
    requires
        counts(u, w, limit),
        sum_to(|k: int| xs[k], xs.len() as int) <= limit,
        is_total(u, patterns(w, xs), r),
    ensures
        r == w(sum_to(|k: int| xs[k], xs.len() as int)),
    decreases xs.len(),
{
    let f = |k: int| xs[k];
    let px = patterns(w, xs);
    let n = xs.len() as int;
    if n > 0 {
        let before = choose|before: u32|
            is_total(u, px.drop_last(), before) && #[trigger] is_sum(u, before, px.last(), r);
        let x = xs.drop_last();
        assert(px.drop_last() =~= patterns(w, x));
        let g = |k: int| x[k];
        lemma_sum_same(f, g, n - 1);
        lemma_total_counts(u, w, limit, x, before);
        assert(is_sum(u, w(sum_to(g, n - 1)), w(f(n - 1)), r));
    }
}

} // verus!
