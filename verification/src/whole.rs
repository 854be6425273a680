//! Laws of the kernels on whole numbers, on which the arithmetic is exact.

use vstd::prelude::*;
use crate::cache::{head_values, CacheModel};
use crate::config::HypnoConfig;
use crate::dtype::DType;
use crate::exact::{
    counts, lemma_dot_counts, lemma_sum_same, lemma_total_counts, patterns, sum_to, within,
};
use crate::float::{
    is_cosine, is_count, is_difference, is_dot, is_exponential, is_larger, is_power, is_product,
    is_quotient, is_root, is_scaled, is_sine, is_sum, is_wide, place, FloatUnit, NEGATIVE_INFINITY, ONE,
};
use crate::kernels::{
    columns_present, held, is_angle, is_column, is_column_result, is_inverse_rms, is_matmul,
    is_maximum, is_normed, is_projection, is_rotated, is_row, is_row_product, is_row_result,
    is_shifted_exp, is_softmax, is_total, is_turned, is_turned_pair, is_twice_scaled, is_weight,
    lemma_columns, present,
};
use crate::steady::{is_steady, lemma_dot_once, lemma_head_scale_once};
use crate::transformer::{
    cached_keys, cached_vectors, column, is_attended, is_attention, is_head_output, is_head_scale,
    is_own_share, is_score, is_scores, own_heads, shared_head, HeadsModel,
};

verus! {

/// The arithmetic of a unit is exact on the whole numbers up to `limit` in all operations: where the
/// result is a whole number that is no larger, it is what comes out.
pub open spec fn measures<U: FloatUnit>(u: &U, w: spec_fn(nat) -> u32, limit: nat) -> bool {
    &&& counts(u, w, limit)
    &&& forall|n: int, r: u32|
        0 <= n <= limit && #[trigger] is_count(u, n, r) ==> r == w(n as nat)
    &&& forall|m: nat, n: nat, r: u32|
        n <= m <= limit && #[trigger] is_difference(u, w(m), w(n), r) ==> r == w((m - n) as nat)
    &&& forall|m: nat, n: nat, r: u32|
        0 < n && n <= limit && m * n <= limit && #[trigger] is_quotient(u, w(m * n), w(n), r)
            ==> r == w(m)
    &&& forall|n: nat, r: u32| n * n <= limit && #[trigger] is_root(u, w(n * n), r) ==> r == w(n)
}

/// Stored data holds a matrix of whole numbers, element after element.
pub open spec fn holds<U: FloatUnit>(
    u: &U,
    dtype: DType,
    data: Seq<u8>,
    w: spec_fn(nat) -> u32,
    matrix: Seq<nat>,
) -> bool {
    &&& held(dtype, data.len()) >= matrix.len()
    &&& forall|p: int, v: u32|
        0 <= p < matrix.len() && #[trigger] is_weight(u, dtype, data, p, v) ==> v == w(matrix[p])
}

proof fn lemma_in_rows(row: int, column: int, height: int, width: int)
    requires
        0 <= row < height,
        0 <= column < width,
    ensures
        0 <= row * width <= row * width + column < height * width,
        row * width + width <= height * width,
{
    assert(row * width + width <= height * width && 0 <= row * width) by (nonlinear_arith)
        requires
            0 <= row,
            row + 1 <= height,
            width >= 0,
    ;
}

/// A projection is the product of a matrix and a vector: output `r` is the sum over `j` of element `j` of
/// row `r` times value `j`. Row by row, that element stands at `r * m + j`; column by column, at
/// `j * n + r`.
pub proof fn law_projection_is_the_matrix_product<U: FloatUnit>(
    u: &U,
    w: spec_fn(nat) -> u32,
    limit: nat,
    dtype: DType,
    data: Seq<u8>,
    matrix: Seq<nat>,
    x: Seq<nat>,
    by_columns: bool,
    y: Seq<u32>,
    r: int,
)
    requires
        counts(u, w, limit),
        holds(u, dtype, data, w, matrix),
        matrix.len() == y.len() * x.len(),
        within(matrix, limit),
        within(x, limit),
        is_projection(u, dtype, data, patterns(w, x), by_columns, y),
        0 <= r < y.len(),
        sum_to(
            |j: int| matrix[matrix_place(by_columns, y.len() as int, x.len() as int, r, j)] * x[j],
            x.len() as int,
        ) <= limit,
    ensures
        y[r] == w(
            sum_to(
                |j: int|
                    matrix[matrix_place(by_columns, y.len() as int, x.len() as int, r, j)] * x[j],
                x.len() as int,
            ),
        ),
{
    let n = y.len() as int;
    let m = x.len() as int;
    let px = patterns(w, x);
    let total = held(dtype, data.len());
    let row = Seq::new(m as nat, |j: int| matrix[matrix_place(by_columns, n, m, r, j)]);
    let f = |j: int| matrix[matrix_place(by_columns, n, m, r, j)] * x[j];
    let g = |j: int| row[j] * x[j];
    lemma_sum_same(f, g, m);
    assert forall|j: int| 0 <= j < m implies 0 <= #[trigger] matrix_place(by_columns, n, m, r, j)
        < matrix.len() by {
        if by_columns {
            lemma_in_rows(j, r, m, n);
            assert(m * n == n * m) by (nonlinear_arith);
        } else {
            lemma_in_rows(r, j, n, m);
        }
    }
    assert forall|j: int| 0 <= j < row.len() implies #[trigger] row[j] <= limit by {
        assert(matrix[matrix_place(by_columns, n, m, r, j)] <= limit);
    }
    if by_columns {
        assert(is_column_result(u, dtype, data, n, r, px, None, y[r]));
        let (col, s) = choose|col: Seq<u32>, s: u32|
            {
                &&& col.len() == columns_present(total, n as nat, r as nat, px.len())
                &&& #[trigger] is_column(u, dtype, data, n, r, col)
                &&& #[trigger] is_dot(u, col, px.take(col.len() as int), s)
                &&& y[r] == s
            };
        if m > 0 {
            lemma_columns(total, n as nat, r as nat, m as nat, (m - 1) as nat);
            assert(0 <= matrix_place(true, n, m, r, m - 1) < matrix.len());
        }
        assert(col.len() == m);
        assert forall|j: int| 0 <= j < m implies #[trigger] col[j] == patterns(w, row)[j] by {
            assert(is_weight(u, dtype, data, j * n + r, col[j]));
            assert(0 <= matrix_place(true, n, m, r, j) < matrix.len());
        }
        assert(col =~= patterns(w, row));
        assert(px.take(m) =~= px);
        lemma_dot_counts(u, w, limit, row, x, s);
    } else {
        assert(is_matmul(u, dtype, data, m, px, None, y));
        assert(is_row_result(u, dtype, data, r, m, px, 0, y[r]));
        let s = choose|s: u32| #[trigger]
            is_row_product(u, dtype, data, r, m, px, s) && is_sum(u, s, 0, y[r]);
        let there = choose|there: Seq<u32>|
            {
                &&& there.len() == present(total, (r * m) as nat, m as nat)
                &&& #[trigger] is_row(u, dtype, data, r * m, there)
                &&& is_dot(u, there, px.take(there.len() as int), s)
            };
        if m > 0 {
            lemma_in_rows(r, m - 1, n, m);
        }
        assert(there.len() == m);
        assert forall|j: int| 0 <= j < m implies #[trigger] there[j] == patterns(w, row)[j] by {
            assert(is_weight(u, dtype, data, r * m + j, there[j]));
            assert(0 <= matrix_place(false, n, m, r, j) < matrix.len());
        }
        assert(there =~= patterns(w, row));
        assert(px.take(m) =~= px);
        lemma_dot_counts(u, w, limit, row, x, s);
        assert(is_sum(u, w(sum_to(g, m)), w(0), y[r]));
    }
}

/// A product with a bias adds the bias of its row: output `r` is the sum over `j` of element `j` of row `r`
/// times value `j`, plus bias `r`. Only the first `m` values count.
pub proof fn law_product_adds_its_bias<U: FloatUnit>(
    u: &U,
    w: spec_fn(nat) -> u32,
    limit: nat,
    dtype: DType,
    data: Seq<u8>,
    matrix: Seq<nat>,
    m: int,
    x: Seq<nat>,
    bias: Seq<nat>,
    y: Seq<u32>,
    r: int,
)
    requires
        counts(u, w, limit),
        holds(u, dtype, data, w, matrix),
        0 <= m <= x.len(),
        matrix.len() == y.len() * m,
        bias.len() >= y.len(),
        within(matrix, limit),
        within(x, limit),
        is_matmul(u, dtype, data, m, patterns(w, x), Some(patterns(w, bias)), y),
        0 <= r < y.len(),
        sum_to(|j: int| matrix[r * m + j] * x[j], m) + bias[r] <= limit,
    ensures
        y[r] == w(sum_to(|j: int| matrix[r * m + j] * x[j], m) + bias[r]),
{
    let n = y.len() as int;
    let px = patterns(w, x);
    let total = held(dtype, data.len());
    let row = Seq::new(m as nat, |j: int| matrix[r * m + j]);
    let short = x.take(m);
    let f = |j: int| matrix[r * m + j] * x[j];
    let g = |j: int| row[j] * short[j];
    lemma_sum_same(f, g, m);
    assert forall|j: int| 0 <= j < row.len() implies #[trigger] row[j] <= limit by {
        lemma_in_rows(r, j, n, m);
        assert(matrix[r * m + j] <= limit);
    }
    assert forall|j: int| 0 <= j < short.len() implies #[trigger] short[j] <= limit by {
        assert(x[j] <= limit);
    }
    assert(is_row_result(u, dtype, data, r, m, px, w(bias[r]), y[r]));
    let s = choose|s: u32| #[trigger]
        is_row_product(u, dtype, data, r, m, px, s) && is_sum(u, s, w(bias[r]), y[r]);
    let there = choose|there: Seq<u32>|
        {
            &&& there.len() == present(total, (r * m) as nat, m as nat)
            &&& #[trigger] is_row(u, dtype, data, r * m, there)
            &&& is_dot(u, there, px.take(there.len() as int), s)
        };
    if m > 0 {
        lemma_in_rows(r, m - 1, n, m);
    }
    assert(there.len() == m);
    assert forall|j: int| 0 <= j < m implies #[trigger] there[j] == patterns(w, row)[j] by {
        assert(is_weight(u, dtype, data, r * m + j, there[j]));
        lemma_in_rows(r, j, n, m);
    }
    assert(there =~= patterns(w, row));
    assert(px.take(m) =~= patterns(w, short));
    lemma_dot_counts(u, w, limit, row, short, s);
    assert(is_sum(u, w(sum_to(g, m)), w(bias[r]), y[r]));
}

/// The place of element `j` of row `r` of a matrix of `n` rows of `m` elements.
pub open spec fn matrix_place(by_columns: bool, n: int, m: int, r: int, j: int) -> int {
    if by_columns {
        j * n + r
    } else {
        r * m + j
    }
}

/// A norm divides by the root of the mean square plus epsilon, and weights what comes out: where the
/// squares of `n` whole numbers add up to `n * mean`, and `mean` plus epsilon is the square of `q`, each is
/// multiplied by `1 / q` and by its weight. With a `q` of 1 the values are only weighted.
pub proof fn law_norm_is_by_the_root_mean_square<U: FloatUnit>(
    u: &U,
    w: spec_fn(nat) -> u32,
    limit: nat,
    x: Seq<nat>,
    weight: Seq<u32>,
    eps: nat,
    mean: nat,
    q: nat,
    y: Seq<u32>,
    i: int,
)
    requires
        measures(u, w, limit),
        within(x, limit),
        0 < x.len() <= limit,
        is_normed(u, patterns(w, x), weight, w(eps), y),
        sum_to(|k: int| x[k] * x[k], x.len() as int) == mean * x.len(),
        mean * x.len() <= limit,
        mean + eps == q * q,
        0 < q,
        q * q <= limit,
        0 <= i < x.len(),
    ensures
        y.len() == x.len(),
        exists|inv: u32, p: u32|
            {
                &&& #[trigger] is_quotient(u, ONE, w(q), inv)
                &&& #[trigger] is_product(u, w(x[i]), inv, p)
                &&& is_product(u, p, weight[i], y[i])
            },
        q == 1 ==> is_product(u, w(x[i]), weight[i], y[i]),
{
    let px = patterns(w, x);
    let n = x.len();
    let inv = choose|inv: u32|
        {
            &&& #[trigger] is_inverse_rms(u, px, w(eps), inv)
            &&& forall|i: int|
                0 <= i < px.len() ==> is_twice_scaled(u, px[i], inv, weight[i], #[trigger] y[i])
        };
    let (sum, count, avg, shifted, root) = choose|
        sum: u32,
        count: u32,
        avg: u32,
        shifted: u32,
        root: u32,
    |
        {
            &&& #[trigger] is_dot(u, px, px, sum)
            &&& #[trigger] is_count(u, px.len() as int, count)
            &&& #[trigger] is_quotient(u, sum, count, avg)
            &&& #[trigger] is_sum(u, avg, w(eps), shifted)
            &&& #[trigger] is_root(u, shifted, root)
            &&& is_quotient(u, ONE, root, inv)
        };
    lemma_dot_counts(u, w, limit, x, x, sum);
    assert(count == w(n));
    assert(is_quotient(u, w(mean * n), w(n), avg));
    assert(avg == w(mean));
    assert(is_sum(u, w(mean), w(eps), shifted));
    assert(is_root(u, w(q * q), root));
    assert(root == w(q));
    assert(is_twice_scaled(u, px[i], inv, weight[i], y[i]));
    let p = choose|p: u32| #[trigger]
        is_product(u, px[i], inv, p) && is_product(u, p, weight[i], y[i]);
    assert(is_quotient(u, ONE, w(q), inv) && is_product(u, w(x[i]), inv, p));
    if q == 1 {
        assert(is_quotient(u, w(1nat * 1nat), w(1), inv));
        assert(inv == w(1));
        assert(x[i] <= limit && x[i] * 1 == x[i]);
        assert(p == w(x[i] * 1));
    }
}

/// Of two values a unit takes the larger one.
pub open spec fn takes_larger<U: FloatUnit>(u: &U) -> bool {
    forall|a: u32, b: u32, r: u32| #[trigger]
        is_larger(u, a, b, r) ==> (r == a || r == b) && place(r) >= place(a) && place(r) >= place(b)
}

/// No value of `x` exceeds its element `t`.
pub open spec fn is_top(x: Seq<u32>, t: u32) -> bool {
    x.contains(t) && forall|i: int| 0 <= i < x.len() ==> place(#[trigger] x[i]) <= place(t)
}

proof fn lemma_maximum_is_top<U: FloatUnit>(u: &U, x: Seq<u32>, t: u32)
    requires
        takes_larger(u),
        x.len() > 0,
        forall|i: int| 0 <= i < x.len() ==> place(#[trigger] x[i]) > place(NEGATIVE_INFINITY),
        is_maximum(u, x, t),
    ensures
        is_top(x, t),
    decreases x.len(),
{
    let front = x.drop_last();
    let before = choose|before: u32|
        is_maximum(u, front, before) && #[trigger] is_larger(u, before, x.last(), t);
    assert(place(x[x.len() - 1]) > place(NEGATIVE_INFINITY));
    if front.len() > 0 {
        assert forall|i: int| 0 <= i < front.len() implies place(#[trigger] front[i]) > place(
            NEGATIVE_INFINITY,
        ) by {
            assert(place(x[i]) > place(NEGATIVE_INFINITY));
        }
        lemma_maximum_is_top(u, front, before);
        assert forall|i: int| 0 <= i < x.len() implies place(#[trigger] x[i]) <= place(t) by {
            if i < front.len() {
                assert(place(front[i]) <= place(before));
            }
        }
        if t == before {
            let k = choose|k: int| 0 <= k < front.len() && front[k] == before;
            assert(x[k] == t);
        } else {
            assert(x[x.len() - 1] == t);
        }
    } else {
        assert(before == NEGATIVE_INFINITY);
        assert(x[0] == t);
    }
}

/// The softmax of values are the exponential functions of their differences from the greatest of them,
/// divided by the sum of these: where those exponential functions are the whole numbers `k`, each share is
/// its `k` times one divided by the sum of all.
pub proof fn law_softmax_shares_by_exponentials<U: FloatUnit>(
    u: &U,
    w: spec_fn(nat) -> u32,
    limit: nat,
    x: Seq<u32>,
    k: Seq<nat>,
    y: Seq<u32>,
    i: int,
)
    requires
        counts(u, w, limit),
        takes_larger(u),
        is_softmax(u, x, y),
        k.len() == x.len(),
        forall|j: int| 0 <= j < x.len() ==> place(#[trigger] x[j]) > place(NEGATIVE_INFINITY),
        forall|j: int, t: u32, d: u32, e: u32|
            0 <= j < x.len() && is_top(x, t) && #[trigger] is_difference(u, x[j], t, d)
                && #[trigger] is_exponential(u, d, e) ==> e == w(k[j]),
        sum_to(|j: int| k[j], k.len() as int) <= limit,
        0 <= i < x.len(),
    ensures
        y.len() == x.len(),
        exists|inv: u32|
            is_quotient(u, ONE, w(sum_to(|j: int| k[j], k.len() as int)), inv)
                && #[trigger] is_product(u, w(k[i]), inv, y[i]),
{
    let (top, e, total, inv) = choose|top: u32, e: Seq<u32>, total: u32, inv: u32|
        {
            &&& #[trigger] is_maximum(u, x, top)
            &&& e.len() == x.len()
            &&& forall|i: int| 0 <= i < x.len() ==> is_shifted_exp(u, x[i], top, #[trigger] e[i])
            &&& #[trigger] is_total(u, e, total)
            &&& #[trigger] is_quotient(u, ONE, total, inv)
            &&& forall|i: int| 0 <= i < x.len() ==> is_product(u, e[i], inv, #[trigger] y[i])
        };
    lemma_maximum_is_top(u, x, top);
    assert forall|j: int| 0 <= j < x.len() implies #[trigger] e[j] == patterns(w, k)[j] by {
        assert(is_shifted_exp(u, x[j], top, e[j]));
        let d = choose|d: u32| #[trigger] is_difference(u, x[j], top, d) && is_exponential(u, d, e[j]);
        assert(is_difference(u, x[j], top, d) && is_exponential(u, d, e[j]));
    }
    assert(e =~= patterns(w, k));
    lemma_total_counts(u, w, limit, k, total);
    assert(is_product(u, e[i], inv, y[i]));
}

/// Equal values have equal shares in a softmax: each is one divided by how many there are.
pub proof fn law_softmax_of_equals<U: FloatUnit>(
    u: &U,
    w: spec_fn(nat) -> u32,
    limit: nat,
    x: Seq<u32>,
    a: u32,
    y: Seq<u32>,
    i: int,
)
    requires
        counts(u, w, limit),
        takes_larger(u),
        is_softmax(u, x, y),
        x.len() <= limit,
        place(a) > place(NEGATIVE_INFINITY),
        forall|j: int| 0 <= j < x.len() ==> #[trigger] x[j] == a,
        forall|d: u32, e: u32| #[trigger]
            is_difference(u, a, a, d) && #[trigger] is_exponential(u, d, e) ==> e == ONE,
        0 <= i < x.len(),
    ensures
        exists|inv: u32| #[trigger]
            is_quotient(u, ONE, w(x.len()), inv) && is_product(u, ONE, inv, y[i]),
{
    let k = Seq::new(x.len(), |j: int| 1nat);
    let f = |j: int| k[j];
    lemma_sum_of_ones(f, x.len() as int);
    assert forall|j: int, t: u32, d: u32, e: u32|
        0 <= j < x.len() && is_top(x, t) && #[trigger] is_difference(u, x[j], t, d)
            && #[trigger] is_exponential(u, d, e) implies e == w(k[j]) by {
        let p = choose|p: int| 0 <= p < x.len() && x[p] == t;
        assert(x[p] == a && x[j] == a);
    }
    law_softmax_shares_by_exponentials(u, w, limit, x, k, y, i);
}

proof fn lemma_sum_of_ones(f: spec_fn(int) -> nat, n: int)
    requires
        0 <= n,
        forall|k: int| 0 <= k < n ==> #[trigger] f(k) == 1,
    ensures
        sum_to(f, n) == n,
    decreases n,
{
    if n > 0 {
        lemma_sum_of_ones(f, n - 1);
        assert(f(n - 1) == 1);
    }
}

/// Positions are turned into the values pair by pair: values `2 t` and `2 t + 1` of a head of `dim` values
/// are turned by the angle `pos / theta^(2 t / dim)`. On whole numbers, where the cosine of the angle is
/// `c` and its sine `s`, the pair `a`, `b` becomes `a c - b s`, `a s + b c`.
pub proof fn law_pairs_are_turned_by_their_angles<U: FloatUnit>(
    u: &U,
    w: spec_fn(nat) -> u32,
    limit: nat,
    x: Seq<u32>,
    dim: int,
    pos: int,
    theta: u32,
    y: Seq<u32>,
    h: int,
    t: int,
    e: u32,
    p: u32,
    freq: u32,
    angle: u32,
    c: nat,
    s: nat,
    a: nat,
    b: nat,
)
    requires
        is_steady(u),
        measures(u, w, limit),
        is_rotated(u, x, dim, pos, theta, y),
        0 <= h,
        0 <= 2 * t < dim,
        dim % 2 == 0,
        (h + 1) * dim <= x.len(),
        dim <= limit,
        0 <= pos <= limit,
        is_quotient(u, w((2 * t) as nat), w(dim as nat), e),
        is_power(u, theta, e, p),
        is_quotient(u, ONE, p, freq),
        is_product(u, w(pos as nat), freq, angle),
        is_cosine(u, angle, w(c)),
        is_sine(u, angle, w(s)),
        x[h * dim + 2 * t] == w(a),
        x[h * dim + 2 * t + 1] == w(b),
        a <= limit && b <= limit && c <= limit && s <= limit,
        b * s <= a * c,
        a * c <= limit,
        a * s <= limit && b * c <= limit,
        a * s + b * c <= limit,
    ensures
        y[h * dim + 2 * t] == w((a * c - b * s) as nat),
        y[h * dim + 2 * t + 1] == w(a * s + b * c),
{
    let half = dim / 2;
    let j = h * half + t;
    assert(2 * j == h * dim + 2 * t) by (nonlinear_arith)
        requires
            j == h * half + t,
            dim == 2 * half,
    ;
    assert((h + 1) * dim == h * dim + dim && 0 <= h * dim) by (nonlinear_arith)
        requires
            0 <= h,
            0 <= dim,
    ;
    assert((2 * j) % dim == 2 * t) by {
        vstd::arithmetic::div_mod::lemma_fundamental_div_mod_converse(2 * j, dim, h, 2 * t);
    }
    assert(0 <= j < x.len() / 2);
    assert(is_turned_pair(
        u,
        theta,
        (2 * j) % dim,
        dim,
        pos,
        x[2 * j],
        x[2 * j + 1],
        y[2 * j],
        y[2 * j + 1],
    ));
    let g = choose|g: u32| #[trigger]
        is_angle(u, theta, 2 * t, dim, pos, g) && is_turned(
            u,
            g,
            x[2 * j],
            x[2 * j + 1],
            y[2 * j],
            y[2 * j + 1],
        );
    assert(g == angle);
    let (x0, x1, r0, r1) = (x[2 * j], x[2 * j + 1], y[2 * j], y[2 * j + 1]);
    let (cc, ss, q1, q2, q3, q4) = choose|cc: u32, ss: u32, q1: u32, q2: u32, q3: u32, q4: u32|
        {
            &&& #[trigger] is_cosine(u, g, cc)
            &&& #[trigger] is_sine(u, g, ss)
            &&& #[trigger] is_product(u, x0, cc, q1)
            &&& #[trigger] is_product(u, x1, ss, q2)
            &&& is_difference(u, q1, q2, r0)
            &&& #[trigger] is_product(u, x0, ss, q3)
            &&& #[trigger] is_product(u, x1, cc, q4)
            &&& is_sum(u, q3, q4, r1)
        };
    assert(cc == w(c) && ss == w(s));
    assert(is_product(u, w(a), w(c), q1) && is_product(u, w(b), w(s), q2));
    assert(is_product(u, w(a), w(s), q3) && is_product(u, w(b), w(c), q4));
    assert(is_difference(u, w(a * c), w(b * s), r0));
    assert(is_sum(u, w(a * s), w(b * c), r1));
}

/// A query attends to a key by their dot product, times the scale.
pub proof fn law_score_is_the_scaled_product<U: FloatUnit>(
    u: &U,
    w: spec_fn(nat) -> u32,
    limit: nat,
    q: Seq<nat>,
    key: Seq<nat>,
    scale: u32,
    r: u32,
)
    requires
        counts(u, w, limit),
        q.len() == key.len(),
        within(q, limit),
        within(key, limit),
        sum_to(|d: int| q[d] * key[d], q.len() as int) <= limit,
        is_score(u, patterns(w, q), patterns(w, key), scale, r),
    ensures
        is_product(u, w(sum_to(|d: int| q[d] * key[d], q.len() as int)), scale, r),
{
    let d = choose|d: u32| #[trigger]
        is_dot(u, patterns(w, q), patterns(w, key), d) && is_product(u, d, scale, r);
    lemma_dot_counts(u, w, limit, q, key, d);
}

/// The scale of the scores is one divided by the root of the size of a head.
pub proof fn law_scores_are_scaled_by_the_root<U: FloatUnit>(
    u: &U,
    w: spec_fn(nat) -> u32,
    limit: nat,
    n: nat,
    scale: u32,
)
    requires
        measures(u, w, limit),
        n * n <= limit,
        is_head_scale(u, (n * n) as int, scale),
    ensures
        is_quotient(u, ONE, w(n), scale),
{
    let (c, root) = choose|c: u32, root: u32|
        {
            &&& #[trigger] is_count(u, (n * n) as int, c)
            &&& #[trigger] is_root(u, c, root)
            &&& is_quotient(u, ONE, root, scale)
        };
    assert(c == w(n * n));
}

/// The shares that keys with the exponential functions `k` give to values: `t[p]` is value `p` times `k[p]`
/// and one divided by the sum of all `k`.
pub open spec fn are_shared<U: FloatUnit>(
    u: &U,
    w: spec_fn(nat) -> u32,
    k: Seq<nat>,
    values: Seq<u32>,
    t: Seq<nat>,
) -> bool {
    &&& t.len() == values.len() == k.len()
    &&& forall|p: int, inv: u32, share: u32, r: u32|
        0 <= p < t.len() && is_inverse_of(u, w, k, inv) && #[trigger] is_product(
            u,
            w(k[p]),
            inv,
            share,
        ) && #[trigger] is_product(u, share, values[p], r) ==> r == w(t[p])
}

/// `inv` can be one divided by the sum of `k`.
pub open spec fn is_inverse_of<U: FloatUnit>(
    u: &U,
    w: spec_fn(nat) -> u32,
    k: Seq<nat>,
    inv: u32,
) -> bool {
    is_quotient(u, ONE, w(sum_to(|j: int| k[j], k.len() as int)), inv)
}

/// `share` can be `m` times one divided by the sum of `k`.
pub open spec fn is_share_of<U: FloatUnit>(
    u: &U,
    w: spec_fn(nat) -> u32,
    k: Seq<nat>,
    m: nat,
    share: u32,
) -> bool {
    exists|inv: u32| is_inverse_of(u, w, k, inv) && #[trigger] is_product(u, w(m), inv, share)
}

/// The scores `x` have the exponential functions `k`, as differences from the greatest of them.
pub open spec fn have_exponentials<U: FloatUnit>(
    u: &U,
    w: spec_fn(nat) -> u32,
    x: Seq<u32>,
    k: Seq<nat>,
) -> bool {
    &&& k.len() == x.len()
    &&& forall|j: int| 0 <= j < x.len() ==> place(#[trigger] x[j]) > place(NEGATIVE_INFINITY)
    &&& forall|j: int, t: u32, d: u32, e: u32|
        0 <= j < x.len() && is_top(x, t) && #[trigger] is_difference(u, x[j], t, d)
            && #[trigger] is_exponential(u, d, e) ==> e == w(k[j])
}

/// What a query head finds in a cache is the sum of the values of all positions, each weighted by the share
/// that its key has for the query: where the scores of the keys are `raw`, the exponential functions of
/// their differences from the greatest are the whole numbers `k`, and the share of value `d` of position `p`
/// is `t[p]`, it finds the sum of all `t`.
pub proof fn law_head_finds_the_weighted_sum<U: FloatUnit>(
    u: &U,
    w: spec_fn(nat) -> u32,
    limit: nat,
    keys: Seq<Seq<u32>>,
    values: Seq<Seq<u32>>,
    own: HeadsModel,
    scale: u32,
    out: Seq<u32>,
    raw: Seq<u32>,
    k: Seq<nat>,
    t: Seq<nat>,
    d: int,
)
    requires
        is_steady(u),
        counts(u, w, limit),
        takes_larger(u),
        is_head_output(u, true, keys, values, own, scale, out),
        1 < keys.len() == values.len() == raw.len(),
        forall|p: int|
            0 <= p < keys.len() ==> is_score(u, own.q, keys[p], scale, #[trigger] raw[p]),
        have_exponentials(u, w, raw, k),
        sum_to(|j: int| k[j], k.len() as int) <= limit,
        0 <= d < out.len(),
        are_shared(u, w, k, Seq::new(values.len(), |p: int| values[p][d]), t),
        sum_to(|p: int| t[p], t.len() as int) <= limit,
    ensures
        out[d] == w(sum_to(|p: int| t[p], t.len() as int)),
{
    let q = own.q;
    assert(is_attended(u, q, keys, values, scale, out));
    let (found, share) = choose|found: Seq<u32>, share: Seq<u32>|
        {
            &&& #[trigger] is_scores(u, q, keys, scale, found)
            &&& #[trigger] is_softmax(u, found, share)
            &&& forall|d: int|
                0 <= d < out.len() ==> is_dot(u, share, column(values, d), #[trigger] out[d])
        };
    assert forall|p: int| 0 <= p < raw.len() implies #[trigger] found[p] == raw[p] by {
        assert(is_score(u, q, keys[p], scale, found[p]));
        assert(is_score(u, q, keys[p], scale, raw[p]));
        let x = choose|x: u32| #[trigger]
            is_dot(u, q, keys[p], x) && is_product(u, x, scale, found[p]);
        let y = choose|y: u32| #[trigger]
            is_dot(u, q, keys[p], y) && is_product(u, y, scale, raw[p]);
        lemma_dot_once(u, q, keys[p], x, y);
    }
    assert(found =~= raw);
    assert forall|p: int| 0 <= p < share.len() implies is_share_of(
        u,
        w,
        k,
        k[p],
        #[trigger] share[p],
    ) by {
        law_softmax_shares_by_exponentials(u, w, limit, raw, k, share, p);
    }
    let col = column(values, d);
    assert(col =~= Seq::new(values.len(), |p: int| values[p][d]));
    assert(is_dot(u, share, col, out[d]));
    lemma_weighted_sum(u, w, limit, share, col, k, t, out[d], k);
}

proof fn lemma_weighted_sum<U: FloatUnit>(
    u: &U,
    w: spec_fn(nat) -> u32,
    limit: nat,
    share: Seq<u32>,
    col: Seq<u32>,
    k: Seq<nat>,
    t: Seq<nat>,
    r: u32,
    all: Seq<nat>,
)
    requires
        counts(u, w, limit),
        share.len() == col.len() == t.len() == k.len(),
        is_dot(u, share, col, r),
        forall|p: int|
            0 <= p < share.len() ==> is_share_of(u, w, all, k[p], #[trigger] share[p]),
        forall|p: int, inv: u32, share: u32, r: u32|
            0 <= p < t.len() && is_inverse_of(u, w, all, inv) && #[trigger] is_product(
                u,
                w(k[p]),
                inv,
                share,
            ) && #[trigger] is_product(u, share, col[p], r) ==> r == w(t[p]),
        sum_to(|p: int| t[p], t.len() as int) <= limit,
    ensures
        r == w(sum_to(|p: int| t[p], t.len() as int)),
    decreases share.len(),
{
    let n = share.len() as int;
    let f = |p: int| t[p];
    if n > 0 {
        let (before, q) = choose|before: u32, q: u32|
            {
                &&& is_dot(u, share.drop_last(), col.drop_last(), before)
                &&& is_product(u, share.last(), col.last(), q)
                &&& #[trigger] crate::float::is_term(u, before, q, r)
            };
        let rest = t.drop_last();
        let g = |p: int| rest[p];
        lemma_sum_same(f, g, n - 1);
        let (s1, c1, k1) = (share.drop_last(), col.drop_last(), k.drop_last());
        assert forall|p: int| 0 <= p < s1.len() implies is_share_of(
            u,
            w,
            all,
            k1[p],
            #[trigger] s1[p],
        ) by {
            assert(is_share_of(u, w, all, k[p], share[p]));
        }
        assert forall|p: int, inv: u32, share: u32, r: u32|
            0 <= p < rest.len() && is_inverse_of(u, w, all, inv) && #[trigger] is_product(
                u,
                w(k1[p]),
                inv,
                share,
            ) && #[trigger] is_product(u, share, c1[p], r) implies r == w(rest[p]) by {
            assert(is_product(u, w(k[p]), inv, share) && is_product(u, share, col[p], r));
        }
        lemma_weighted_sum(u, w, limit, s1, c1, k1, rest, before, all);
        assert(is_share_of(u, w, all, k[n - 1], share[n - 1]));
        let inv = choose|inv: u32|
            is_inverse_of(u, w, all, inv) && #[trigger] is_product(
                u,
                w(k[n - 1]),
                inv,
                share[n - 1],
            );
        assert(is_product(u, w(k[n - 1]), inv, share[n - 1]));
        assert(is_product(u, share[n - 1], col[n - 1], q));
        assert(q == w(t[n - 1]));
        assert(is_sum(u, w(sum_to(g, n - 1)), w(f(n - 1)), r));
    }
}

/// With a cache, query head `kv * g + j` finds the weighted sum of the values of head `kv` at all positions
/// that the cache holds.
pub proof fn law_attention_goes_over_the_cache<U: FloatUnit>(
    u: &U,
    w: spec_fn(nat) -> u32,
    limit: nat,
    config: HypnoConfig,
    layer: int,
    heads: HeadsModel,
    cache: CacheModel,
    out: Seq<u32>,
    g: int,
    kv: int,
    j: int,
    scale: u32,
    raw: Seq<u32>,
    k: Seq<nat>,
    t: Seq<nat>,
    d: int,
)
    requires
        is_steady(u),
        counts(u, w, limit),
        takes_larger(u),
        config.num_attention_heads == g * config.num_key_value_heads,
        0 <= kv < config.num_key_value_heads,
        0 <= j < g,
        0 <= d < config.head_dim,
        is_head_scale(u, config.head_dim as int, scale),
        is_attention(u, config, layer, true, heads, cache, out),
        1 < cache.pos == raw.len(),
        forall|p: int|
            0 <= p < cache.pos ==> is_score(
                u,
                Seq::new(
                    config.head_dim as nat,
                    |e: int| heads.q[(kv * g + j) * config.head_dim + e],
                ),
                cache.keys[layer][kv][p],
                scale,
                #[trigger] raw[p],
            ),
        have_exponentials(u, w, raw, k),
        sum_to(|i: int| k[i], k.len() as int) <= limit,
        are_shared(u, w, k, Seq::new(cache.pos, |p: int| cache.values[layer][kv][p][d]), t),
        sum_to(|p: int| t[p], t.len() as int) <= limit,
    ensures
        out[(kv * g + j) * config.head_dim + d] == w(sum_to(|p: int| t[p], t.len() as int)),
{
    let n = config.num_attention_heads as int;
    let n_kv = config.num_key_value_heads as int;
    let dim = config.head_dim as int;
    let h = kv * g + j;
    lemma_group_of(g, kv, j, n, n_kv);
    let s = choose|s: u32|
        {
            &&& #[trigger] is_head_scale(u, dim, s)
            &&& forall|h: int|
                0 <= h < n ==> is_head_output(
                    u,
                    true,
                    cached_keys(cache, layer, shared_head(h, n, n_kv)),
                    cached_vectors(cache, layer, shared_head(h, n, n_kv)),
                    own_heads(heads, h, shared_head(h, n, n_kv), dim),
                    s,
                    #[trigger] head_values(out, h, dim),
                )
        };
    lemma_head_scale_once(u, dim, s, scale);
    let keys = cached_keys(cache, layer, kv);
    let values = cached_vectors(cache, layer, kv);
    let own = own_heads(heads, h, kv, dim);
    assert(is_head_output(u, true, keys, values, own, scale, head_values(out, h, dim)));
    assert(own.q =~= Seq::new(dim as nat, |e: int| heads.q[h * dim + e]));
    assert(Seq::new(values.len(), |p: int| values[p][d]) =~= Seq::new(
        cache.pos,
        |p: int| cache.values[layer][kv][p][d],
    ));
    assert forall|p: int| 0 <= p < keys.len() implies is_score(
        u,
        own.q,
        keys[p],
        scale,
        #[trigger] raw[p],
    ) by {
    }
    law_head_finds_the_weighted_sum(
        u,
        w,
        limit,
        keys,
        values,
        own,
        scale,
        head_values(out, h, dim),
        raw,
        k,
        t,
        d,
    );
}

/// The first token of a text finds its own value: where a cache holds no position yet, query head
/// `kv * g + j` finds the value of head `kv`, multiplied by one.
pub proof fn law_first_token_finds_its_own_value<U: FloatUnit>(
    u: &U,
    config: HypnoConfig,
    layer: int,
    heads: HeadsModel,
    cache: CacheModel,
    out: Seq<u32>,
    g: int,
    kv: int,
    j: int,
    d: int,
)
    requires
        config.num_attention_heads == g * config.num_key_value_heads,
        0 <= kv < config.num_key_value_heads,
        0 <= j < g,
        0 <= d < config.head_dim,
        is_attention(u, config, layer, true, heads, cache, out),
        cache.pos == 0,
    ensures
        is_product(
            u,
            ONE,
            heads.v[kv * config.head_dim + d],
            out[(kv * g + j) * config.head_dim + d],
        ),
{
    let n = config.num_attention_heads as int;
    let n_kv = config.num_key_value_heads as int;
    let dim = config.head_dim as int;
    let h = kv * g + j;
    lemma_group_of(g, kv, j, n, n_kv);
    let s = choose|s: u32|
        {
            &&& #[trigger] is_head_scale(u, dim, s)
            &&& forall|h: int|
                0 <= h < n ==> is_head_output(
                    u,
                    true,
                    cached_keys(cache, layer, shared_head(h, n, n_kv)),
                    cached_vectors(cache, layer, shared_head(h, n, n_kv)),
                    own_heads(heads, h, shared_head(h, n, n_kv), dim),
                    s,
                    #[trigger] head_values(out, h, dim),
                )
        };
    let x = head_values(out, h, dim);
    let own = own_heads(heads, h, kv, dim);
    assert(is_head_output(
        u,
        true,
        cached_keys(cache, layer, kv),
        cached_vectors(cache, layer, kv),
        own,
        s,
        x,
    ));
    let a = choose|a: u32|
        {
            &&& #[trigger] is_own_share(u, false, own.q, own.k, s, a)
            &&& forall|d: int| 0 <= d < x.len() ==> is_product(u, a, own.v[d], #[trigger] x[d])
        };
    assert(is_product(u, a, own.v[d], x[d]));
}

proof fn lemma_group_of(g: int, kv: int, j: int, n: int, n_kv: int)
    requires
        n == g * n_kv,
        0 <= kv < n_kv,
        0 <= j < g,
    ensures
        shared_head(kv * g + j, n, n_kv) == kv,
        0 <= kv * g + j < n,
{
    let h = kv * g + j;
    assert(n / n_kv == g) by {
        vstd::arithmetic::div_mod::lemma_div_multiples_vanish(g, n_kv);
        vstd::arithmetic::mul::lemma_mul_is_commutative(g, n_kv);
    }
    vstd::arithmetic::div_mod::lemma_fundamental_div_mod_converse(h, g, kv, j);
    assert(0 <= h < n) by (nonlinear_arith)
        requires
            h == kv * g + j,
            n == g * n_kv,
            0 <= kv < n_kv,
            0 <= j < g,
    ;
}

/// Where the elements of stored data are. Of 32-bit values element `i` is the four bytes from `4 i` on, the
/// lowest first. A block of 32 elements of 4 bits begins with its 16-bit scale, of which the lower byte
/// comes first; then come 16 bytes, of which byte `j` holds elements `2 j` and `2 j + 1` in its lower and
/// its upper half, 8 more than the multiple of the scale. A block of 8-bit elements has a byte for each,
/// 128 more than the multiple.
pub proof fn law_elements_have_their_places<U: FloatUnit>(
    u: &U,
    data: Seq<u8>,
    b: int,
    j: int,
    v: u32,
    scale: u32,
)
    requires
        0 <= b,
        0 <= j < 32,
    ensures
        4 * j + 4 <= data.len() && is_weight(u, DType::FP32, data, j, v) ==> v == data[4 * j]
            + 0x100 * data[4 * j + 1] + 0x1_0000 * data[4 * j + 2] + 0x100_0000 * data[4 * j + 3],
        18 * b + 18 <= data.len() && is_weight(u, DType::Q4_0, data, 32 * b + j, v) && (forall|
            s: u32,
        | #[trigger]
            is_wide(u, (data[18 * b] + 256 * data[18 * b + 1]) as u16, s) ==> s == scale)
            ==> is_scaled(
            u,
            if j % 2 == 0 {
                data[18 * b + 2 + j / 2] % 16 - 8
            } else {
                data[18 * b + 2 + j / 2] / 16 - 8
            } as i32,
            scale,
            v,
        ),
        34 * b + 34 <= data.len() && is_weight(u, DType::Q8_0, data, 32 * b + j, v) && (forall|
            s: u32,
        | #[trigger]
            is_wide(u, (data[34 * b] + 256 * data[34 * b + 1]) as u16, s) ==> s == scale)
            ==> is_scaled(u, (data[34 * b + 2 + j] - 128) as i32, scale, v),
{
    reveal_with_fuel(crate::bytes::le_value, 5);
    let i = 32 * b + j;
    assert(i / 32 == b && i % 32 == j);
    if 4 * j + 4 <= data.len() {
        let s = data.subrange(4 * j, 4 * j + 4);
        let s1 = s.subrange(1, 4);
        let s2 = s1.subrange(1, 3);
        let s3 = s2.subrange(1, 2);
        assert(s[0] == data[4 * j] && s1[0] == data[4 * j + 1] && s2[0] == data[4 * j + 2] && s3[0]
            == data[4 * j + 3]);
        assert(crate::bytes::le_value(s3.subrange(1, 1)) == 0);
    }
    if 18 * b + 18 <= data.len() {
        lemma_scale_bytes(data, 18 * b);
        let qs = data.subrange(18 * b + 2, 18 * b + 18);
        assert(qs[j / 2] == data[18 * b + 2 + j / 2]);
    }
    if 34 * b + 34 <= data.len() {
        lemma_scale_bytes(data, 34 * b);
        let qs = data.subrange(34 * b + 2, 34 * b + 34);
        assert(qs[j] == data[34 * b + 2 + j]);
    }
}

proof fn lemma_scale_bytes(data: Seq<u8>, at: int)
    requires
        0 <= at,
        at + 2 <= data.len(),
    ensures
        crate::quant::scale_in(data, at) == (data[at] + 256 * data[at + 1]) as u16,
{
    reveal_with_fuel(crate::bytes::le_value, 3);
    let s = data.subrange(at, at + 2);
    let rest = s.subrange(1, 2);
    assert(s[0] == data[at] && rest[0] == data[at + 1]);
    assert(crate::bytes::le_value(rest.subrange(1, 1)) == 0);
}

} // verus!
