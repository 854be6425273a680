//! Arithmetic that gives the same result each time, as that of a processor does, and what is
//! reproducible with it.

use vstd::prelude::*;
use crate::config::HypnoConfig;
use crate::dtype::DType;
use crate::float::{
    is_cosine, is_count, is_difference, is_dot, is_exponential, is_larger, is_power, is_product,
    is_quotient, is_root, is_scaled, is_sine, is_sum, is_term, is_wide, FloatUnit,
};
use crate::kernels::{
    is_angle, is_column, is_column_result, is_inverse_rms, is_matmul, is_maximum, is_normed,
    is_projection, is_rotated, is_row, is_row_product, is_row_result, is_shifted_exp, is_silu,
    is_softmax, is_total, is_turned, is_turned_pair, is_twice_scaled, is_weight,
};
use crate::transformer::{
    column, is_gated, is_gated_all, is_head_output, is_head_scale, is_norm_weights,
    is_output, is_own_share, is_prepared, is_projected, is_score, is_scores,
    is_turned_projection, HeadsModel,
};

verus! {

/// Each operation of a unit has one result.
pub open spec fn is_steady<U: FloatUnit>(u: &U) -> bool {
    &&& forall|a: u32, b: u32, r: u32, s: u32| #[trigger]
        is_sum(u, a, b, r) && #[trigger] is_sum(u, a, b, s) ==> r == s
    &&& forall|a: u32, b: u32, r: u32, s: u32| #[trigger]
        is_difference(u, a, b, r) && #[trigger] is_difference(u, a, b, s) ==> r == s
    &&& forall|a: u32, b: u32, r: u32, s: u32| #[trigger]
        is_product(u, a, b, r) && #[trigger] is_product(u, a, b, s) ==> r == s
    &&& forall|a: u32, b: u32, r: u32, s: u32| #[trigger]
        is_quotient(u, a, b, r) && #[trigger] is_quotient(u, a, b, s) ==> r == s
    &&& forall|a: u32, b: u32, r: u32, s: u32| #[trigger]
        is_larger(u, a, b, r) && #[trigger] is_larger(u, a, b, s) ==> r == s
    &&& forall|a: u32, b: u32, r: u32, s: u32| #[trigger]
        is_power(u, a, b, r) && #[trigger] is_power(u, a, b, s) ==> r == s
    &&& forall|a: u32, r: u32, s: u32| #[trigger]
        is_root(u, a, r) && #[trigger] is_root(u, a, s) ==> r == s
    &&& forall|a: u32, r: u32, s: u32| #[trigger]
        is_exponential(u, a, r) && #[trigger] is_exponential(u, a, s) ==> r == s
    &&& forall|a: u32, r: u32, s: u32| #[trigger]
        is_cosine(u, a, r) && #[trigger] is_cosine(u, a, s) ==> r == s
    &&& forall|a: u32, r: u32, s: u32| #[trigger]
        is_sine(u, a, r) && #[trigger] is_sine(u, a, s) ==> r == s
    &&& forall|n: int, r: u32, s: u32| #[trigger]
        is_count(u, n, r) && #[trigger] is_count(u, n, s) ==> r == s
    &&& forall|n: i32, a: u32, r: u32, s: u32| #[trigger]
        is_scaled(u, n, a, r) && #[trigger] is_scaled(u, n, a, s) ==> r == s
    &&& forall|a: u16, r: u32, s: u32| #[trigger]
        is_wide(u, a, r) && #[trigger] is_wide(u, a, s) ==> r == s
}

pub(crate) proof fn lemma_dot_once<U: FloatUnit>(
    u: &U,
    xs: Seq<u32>,
    ys: Seq<u32>,
    r: u32,
    s: u32,
)
    requires
        is_steady(u),
        is_dot(u, xs, ys, r),
        is_dot(u, xs, ys, s),
    ensures
        r == s,
    decreases xs.len(),
{
    if xs.len() > 0 {
        let (b, p) = choose|b: u32, p: u32|
            {
                &&& is_dot(u, xs.drop_last(), ys.drop_last(), b)
                &&& is_product(u, xs.last(), ys.last(), p)
                &&& #[trigger] is_term(u, b, p, r)
            };
        let (c, q) = choose|c: u32, q: u32|
            {
                &&& is_dot(u, xs.drop_last(), ys.drop_last(), c)
                &&& is_product(u, xs.last(), ys.last(), q)
                &&& #[trigger] is_term(u, c, q, s)
            };
        lemma_dot_once(u, xs.drop_last(), ys.drop_last(), b, c);
        assert(is_sum(u, b, p, r) && is_sum(u, c, q, s));
    }
}

pub(crate) proof fn lemma_total_once<U: FloatUnit>(u: &U, x: Seq<u32>, r: u32, s: u32)
    requires
        is_steady(u),
        is_total(u, x, r),
        is_total(u, x, s),
    ensures
        r == s,
    decreases x.len(),
{
    if x.len() > 0 {
        let b = choose|b: u32|
            is_total(u, x.drop_last(), b) && #[trigger] is_sum(u, b, x.last(), r);
        let c = choose|c: u32|
            is_total(u, x.drop_last(), c) && #[trigger] is_sum(u, c, x.last(), s);
        lemma_total_once(u, x.drop_last(), b, c);
    }
}

pub(crate) proof fn lemma_maximum_once<U: FloatUnit>(u: &U, x: Seq<u32>, r: u32, s: u32)
    requires
        is_steady(u),
        is_maximum(u, x, r),
        is_maximum(u, x, s),
    ensures
        r == s,
    decreases x.len(),
{
    if x.len() > 0 {
        let b = choose|b: u32|
            is_maximum(u, x.drop_last(), b) && #[trigger] is_larger(u, b, x.last(), r);
        let c = choose|c: u32|
            is_maximum(u, x.drop_last(), c) && #[trigger] is_larger(u, c, x.last(), s);
        lemma_maximum_once(u, x.drop_last(), b, c);
    }
}

proof fn lemma_weight_once<U: FloatUnit>(
    u: &U,
    dtype: DType,
    w: Seq<u8>,
    i: int,
    r: u32,
    s: u32,
)
    requires
        is_steady(u),
        is_weight(u, dtype, w, i, r),
        is_weight(u, dtype, w, i, s),
    ensures
        r == s,
{
}

proof fn lemma_row_product_once<U: FloatUnit>(
    u: &U,
    dtype: DType,
    w: Seq<u8>,
    row: int,
    m: int,
    x: Seq<u32>,
    r: u32,
    s: u32,
)
    requires
        is_steady(u),
        is_row_product(u, dtype, w, row, m, x, r),
        is_row_product(u, dtype, w, row, m, x, s),
    ensures
        r == s,
{
    let a = choose|a: Seq<u32>|
        {
            &&& a.len() == crate::kernels::present(
                crate::kernels::held(dtype, w.len()),
                (row * m) as nat,
                m as nat,
            )
            &&& #[trigger] is_row(u, dtype, w, row * m, a)
            &&& is_dot(u, a, x.take(a.len() as int), r)
        };
    let b = choose|b: Seq<u32>|
        {
            &&& b.len() == crate::kernels::present(
                crate::kernels::held(dtype, w.len()),
                (row * m) as nat,
                m as nat,
            )
            &&& #[trigger] is_row(u, dtype, w, row * m, b)
            &&& is_dot(u, b, x.take(b.len() as int), s)
        };
    assert forall|j: int| 0 <= j < a.len() implies #[trigger] a[j] == b[j] by {
        lemma_weight_once(u, dtype, w, row * m + j, a[j], b[j]);
    }
    assert(a =~= b);
    lemma_dot_once(u, a, x.take(a.len() as int), r, s);
}

proof fn lemma_column_result_once<U: FloatUnit>(
    u: &U,
    dtype: DType,
    w: Seq<u8>,
    n: int,
    row: int,
    x: Seq<u32>,
    r: u32,
    s: u32,
)
    requires
        is_steady(u),
        is_column_result(u, dtype, w, n, row, x, None, r),
        is_column_result(u, dtype, w, n, row, x, None, s),
    ensures
        r == s,
{
    let count = crate::kernels::columns_present(
        crate::kernels::held(dtype, w.len()),
        n as nat,
        row as nat,
        x.len(),
    );
    let (a, t) = choose|a: Seq<u32>, t: u32|
        {
            &&& a.len() == count
            &&& #[trigger] is_column(u, dtype, w, n, row, a)
            &&& #[trigger] is_dot(u, a, x.take(a.len() as int), t)
            &&& r == t
        };
    let (b, v) = choose|b: Seq<u32>, v: u32|
        {
            &&& b.len() == count
            &&& #[trigger] is_column(u, dtype, w, n, row, b)
            &&& #[trigger] is_dot(u, b, x.take(b.len() as int), v)
            &&& s == v
        };
    assert forall|j: int| 0 <= j < a.len() implies #[trigger] a[j] == b[j] by {
        lemma_weight_once(u, dtype, w, j * n + row, a[j], b[j]);
    }
    assert(a =~= b);
    lemma_dot_once(u, a, x.take(a.len() as int), r, s);
}

pub(crate) proof fn lemma_projection_once<U: FloatUnit>(
    u: &U,
    dtype: DType,
    w: Seq<u8>,
    x: Seq<u32>,
    by_columns: bool,
    y: Seq<u32>,
    z: Seq<u32>,
)
    requires
        is_steady(u),
        y.len() == z.len(),
        is_projection(u, dtype, w, x, by_columns, y),
        is_projection(u, dtype, w, x, by_columns, z),
    ensures
        y == z,
{
    assert forall|r: int| 0 <= r < y.len() implies #[trigger] y[r] == z[r] by {
        if by_columns {
            assert(is_column_result(u, dtype, w, y.len() as int, r, x, None, y[r]));
            assert(is_column_result(u, dtype, w, z.len() as int, r, x, None, z[r]));
            lemma_column_result_once(u, dtype, w, y.len() as int, r, x, y[r], z[r]);
        } else {
            assert(is_matmul(u, dtype, w, x.len() as int, x, None, y));
            assert(is_row_result(u, dtype, w, r, x.len() as int, x, 0, y[r]));
            assert(is_row_result(u, dtype, w, r, x.len() as int, x, 0, z[r]));
            let s = choose|s: u32| #[trigger]
                is_row_product(u, dtype, w, r, x.len() as int, x, s) && is_sum(u, s, 0, y[r]);
            let t = choose|t: u32| #[trigger]
                is_row_product(u, dtype, w, r, x.len() as int, x, t) && is_sum(u, t, 0, z[r]);
            lemma_row_product_once(u, dtype, w, r, x.len() as int, x, s, t);
        }
    }
    assert(y =~= z);
}

proof fn lemma_inverse_rms_once<U: FloatUnit>(u: &U, x: Seq<u32>, eps: u32, r: u32, s: u32)
    requires
        is_steady(u),
        is_inverse_rms(u, x, eps, r),
        is_inverse_rms(u, x, eps, s),
    ensures
        r == s,
{
    let (a, n1, m1, s1, r1) = choose|a: u32, n1: u32, m1: u32, s1: u32, r1: u32|
        {
            &&& #[trigger] is_dot(u, x, x, a)
            &&& #[trigger] is_count(u, x.len() as int, n1)
            &&& #[trigger] is_quotient(u, a, n1, m1)
            &&& #[trigger] is_sum(u, m1, eps, s1)
            &&& #[trigger] is_root(u, s1, r1)
            &&& is_quotient(u, crate::float::ONE, r1, r)
        };
    let (b, n2, m2, s2, r2) = choose|b: u32, n2: u32, m2: u32, s2: u32, r2: u32|
        {
            &&& #[trigger] is_dot(u, x, x, b)
            &&& #[trigger] is_count(u, x.len() as int, n2)
            &&& #[trigger] is_quotient(u, b, n2, m2)
            &&& #[trigger] is_sum(u, m2, eps, s2)
            &&& #[trigger] is_root(u, s2, r2)
            &&& is_quotient(u, crate::float::ONE, r2, s)
        };
    lemma_dot_once(u, x, x, a, b);
}

pub(crate) proof fn lemma_prepared_once<U: FloatUnit>(
    u: &U,
    w: Option<(Seq<u8>, DType)>,
    x: Seq<u32>,
    eps: u32,
    y: Seq<u32>,
    z: Seq<u32>,
)
    requires
        is_steady(u),
        is_prepared(u, w, x, eps, y),
        is_prepared(u, w, x, eps, z),
    ensures
        y == z,
{
    let a = choose|a: Seq<u32>| #[trigger]
        is_norm_weights(u, w, x.len(), a) && is_normed(u, x, a, eps, y);
    let b = choose|b: Seq<u32>| #[trigger]
        is_norm_weights(u, w, x.len(), b) && is_normed(u, x, b, eps, z);
    assert(a =~= b) by {
        if let Some((data, dtype)) = w {
            if !dtype.quantized() {
                assert forall|i: int| 0 <= i < a.len() implies #[trigger] a[i] == b[i] by {
                    lemma_weight_once(u, dtype, data, i, a[i], b[i]);
                }
            }
        }
    }
    let i1 = choose|i1: u32|
        {
            &&& #[trigger] is_inverse_rms(u, x, eps, i1)
            &&& forall|i: int|
                0 <= i < x.len() ==> is_twice_scaled(u, x[i], i1, a[i], #[trigger] y[i])
        };
    let i2 = choose|i2: u32|
        {
            &&& #[trigger] is_inverse_rms(u, x, eps, i2)
            &&& forall|i: int|
                0 <= i < x.len() ==> is_twice_scaled(u, x[i], i2, b[i], #[trigger] z[i])
        };
    lemma_inverse_rms_once(u, x, eps, i1, i2);
    assert forall|i: int| 0 <= i < y.len() implies #[trigger] y[i] == z[i] by {
        assert(is_twice_scaled(u, x[i], i1, a[i], y[i]));
        assert(is_twice_scaled(u, x[i], i1, a[i], z[i]));
    }
    assert(y =~= z);
}

pub(crate) proof fn lemma_projected_once<U: FloatUnit>(
    u: &U,
    w: Option<(Seq<u8>, DType)>,
    x: Seq<u32>,
    by_columns: bool,
    before: Seq<u32>,
    y: Seq<u32>,
    z: Seq<u32>,
)
    requires
        is_steady(u),
        is_projected(u, w, x, by_columns, before, y),
        is_projected(u, w, x, by_columns, before, z),
    ensures
        y == z,
{
    if let Some((data, dtype)) = w {
        lemma_projection_once(u, dtype, data, x, by_columns, y, z);
    }
}

proof fn lemma_turned_pair_once<U: FloatUnit>(
    u: &U,
    theta: u32,
    i: int,
    head_dim: int,
    pos: int,
    x0: u32,
    x1: u32,
    y0: u32,
    y1: u32,
    z0: u32,
    z1: u32,
)
    requires
        is_steady(u),
        is_turned_pair(u, theta, i, head_dim, pos, x0, x1, y0, y1),
        is_turned_pair(u, theta, i, head_dim, pos, x0, x1, z0, z1),
    ensures
        y0 == z0,
        y1 == z1,
{
    let a = choose|a: u32| #[trigger]
        is_angle(u, theta, i, head_dim, pos, a) && is_turned(u, a, x0, x1, y0, y1);
    let b = choose|b: u32| #[trigger]
        is_angle(u, theta, i, head_dim, pos, b) && is_turned(u, b, x0, x1, z0, z1);
    assert(a == b);
}

pub(crate) proof fn lemma_rotated_once<U: FloatUnit>(
    u: &U,
    x: Seq<u32>,
    head_dim: int,
    pos: int,
    theta: u32,
    y: Seq<u32>,
    z: Seq<u32>,
)
    requires
        is_steady(u),
        is_rotated(u, x, head_dim, pos, theta, y),
        is_rotated(u, x, head_dim, pos, theta, z),
    ensures
        y == z,
{
    assert forall|i: int| 0 <= i < y.len() implies #[trigger] y[i] == z[i] by {
        let j = i / 2;
        if j < x.len() / 2 {
            assert(is_turned_pair(
                u,
                theta,
                (2 * j) % head_dim,
                head_dim,
                pos,
                x[2 * j],
                x[2 * j + 1],
                y[2 * j],
                y[2 * j + 1],
            ));
            assert(is_turned_pair(
                u,
                theta,
                (2 * j) % head_dim,
                head_dim,
                pos,
                x[2 * j],
                x[2 * j + 1],
                z[2 * j],
                z[2 * j + 1],
            ));
            lemma_turned_pair_once(
                u,
                theta,
                (2 * j) % head_dim,
                head_dim,
                pos,
                x[2 * j],
                x[2 * j + 1],
                y[2 * j],
                y[2 * j + 1],
                z[2 * j],
                z[2 * j + 1],
            );
        }
    }
    assert(y =~= z);
}

pub(crate) proof fn lemma_turned_projection_once<U: FloatUnit>(
    u: &U,
    w: Option<(Seq<u8>, DType)>,
    x: Seq<u32>,
    by_columns: bool,
    config: HypnoConfig,
    pos: int,
    before: Seq<u32>,
    y: Seq<u32>,
    z: Seq<u32>,
)
    requires
        is_steady(u),
        is_turned_projection(u, w, x, by_columns, config, pos, before, y),
        is_turned_projection(u, w, x, by_columns, config, pos, before, z),
    ensures
        y == z,
{
    let dim = config.head_dim as int;
    let a = choose|a: Seq<u32>| #[trigger]
        is_projected(u, w, x, by_columns, before, a) && is_rotated(
            u,
            a,
            dim,
            pos,
            config.rope_theta,
            y,
        );
    let b = choose|b: Seq<u32>| #[trigger]
        is_projected(u, w, x, by_columns, before, b) && is_rotated(
            u,
            b,
            dim,
            pos,
            config.rope_theta,
            z,
        );
    lemma_projected_once(u, w, x, by_columns, before, a, b);
    lemma_rotated_once(u, a, dim, pos, config.rope_theta, y, z);
}

pub(crate) proof fn lemma_softmax_once<U: FloatUnit>(u: &U, x: Seq<u32>, y: Seq<u32>, z: Seq<u32>)
    requires
        is_steady(u),
        is_softmax(u, x, y),
        is_softmax(u, x, z),
    ensures
        y == z,
{
    let (t1, e1, s1, i1) = choose|top: u32, e: Seq<u32>, total: u32, inv: u32|
        {
            &&& #[trigger] is_maximum(u, x, top)
            &&& e.len() == x.len()
            &&& forall|i: int| 0 <= i < x.len() ==> is_shifted_exp(u, x[i], top, #[trigger] e[i])
            &&& #[trigger] is_total(u, e, total)
            &&& #[trigger] is_quotient(u, crate::float::ONE, total, inv)
            &&& forall|i: int| 0 <= i < x.len() ==> is_product(u, e[i], inv, #[trigger] y[i])
        };
    let (t2, e2, s2, i2) = choose|top: u32, e: Seq<u32>, total: u32, inv: u32|
        {
            &&& #[trigger] is_maximum(u, x, top)
            &&& e.len() == x.len()
            &&& forall|i: int| 0 <= i < x.len() ==> is_shifted_exp(u, x[i], top, #[trigger] e[i])
            &&& #[trigger] is_total(u, e, total)
            &&& #[trigger] is_quotient(u, crate::float::ONE, total, inv)
            &&& forall|i: int| 0 <= i < x.len() ==> is_product(u, e[i], inv, #[trigger] z[i])
        };
    lemma_maximum_once(u, x, t1, t2);
    assert forall|i: int| 0 <= i < e1.len() implies #[trigger] e1[i] == e2[i] by {
        assert(is_shifted_exp(u, x[i], t1, e1[i]) && is_shifted_exp(u, x[i], t1, e2[i]));
    }
    assert(e1 =~= e2);
    lemma_total_once(u, e1, s1, s2);
    assert forall|i: int| 0 <= i < y.len() implies #[trigger] y[i] == z[i] by {
        assert(is_product(u, e1[i], i1, y[i]) && is_product(u, e1[i], i1, z[i]));
    }
    assert(y =~= z);
}

proof fn lemma_score_once<U: FloatUnit>(
    u: &U,
    q: Seq<u32>,
    key: Seq<u32>,
    scale: u32,
    r: u32,
    s: u32,
)
    requires
        is_steady(u),
        is_score(u, q, key, scale, r),
        is_score(u, q, key, scale, s),
    ensures
        r == s,
{
    let d = choose|d: u32| #[trigger] is_dot(u, q, key, d) && is_product(u, d, scale, r);
    let e = choose|e: u32| #[trigger] is_dot(u, q, key, e) && is_product(u, e, scale, s);
    lemma_dot_once(u, q, key, d, e);
}

pub(crate) proof fn lemma_head_scale_once<U: FloatUnit>(u: &U, head_dim: int, r: u32, s: u32)
    requires
        is_steady(u),
        is_head_scale(u, head_dim, r),
        is_head_scale(u, head_dim, s),
    ensures
        r == s,
{
}

pub(crate) proof fn lemma_head_output_once<U: FloatUnit>(
    u: &U,
    cached: bool,
    keys: Seq<Seq<u32>>,
    values: Seq<Seq<u32>>,
    own: HeadsModel,
    scale: u32,
    y: Seq<u32>,
    z: Seq<u32>,
)
    requires
        is_steady(u),
        y.len() == z.len(),
        is_head_output(u, cached, keys, values, own, scale, y),
        is_head_output(u, cached, keys, values, own, scale, z),
    ensures
        y == z,
{
    if cached && keys.len() > 1 {
        let (r1, s1) = choose|raw: Seq<u32>, share: Seq<u32>|
            {
                &&& #[trigger] is_scores(u, own.q, keys, scale, raw)
                &&& #[trigger] is_softmax(u, raw, share)
                &&& forall|d: int|
                    0 <= d < y.len() ==> is_dot(u, share, column(values, d), #[trigger] y[d])
            };
        let (r2, s2) = choose|raw: Seq<u32>, share: Seq<u32>|
            {
                &&& #[trigger] is_scores(u, own.q, keys, scale, raw)
                &&& #[trigger] is_softmax(u, raw, share)
                &&& forall|d: int|
                    0 <= d < z.len() ==> is_dot(u, share, column(values, d), #[trigger] z[d])
            };
        assert forall|p: int| 0 <= p < r1.len() implies #[trigger] r1[p] == r2[p] by {
            lemma_score_once(u, own.q, keys[p], scale, r1[p], r2[p]);
        }
        assert(r1 =~= r2);
        lemma_softmax_once(u, r1, s1, s2);
        assert forall|d: int| 0 <= d < y.len() implies #[trigger] y[d] == z[d] by {
            lemma_dot_once(u, s1, column(values, d), y[d], z[d]);
        }
    } else {
        let counted = !cached || keys.len() > 0;
        let a = choose|a: u32|
            {
                &&& #[trigger] is_own_share(u, counted, own.q, own.k, scale, a)
                &&& forall|d: int|
                    0 <= d < y.len() ==> is_product(u, a, own.v[d], #[trigger] y[d])
            };
        let b = choose|b: u32|
            {
                &&& #[trigger] is_own_share(u, counted, own.q, own.k, scale, b)
                &&& forall|d: int|
                    0 <= d < z.len() ==> is_product(u, b, own.v[d], #[trigger] z[d])
            };
        if counted {
            let (s1, h1) = choose|s: u32, share: Seq<u32>|
                {
                    &&& #[trigger] is_score(u, own.q, own.k, scale, s)
                    &&& #[trigger] is_softmax(u, seq![s], share)
                    &&& a == share[0]
                };
            let (s2, h2) = choose|s: u32, share: Seq<u32>|
                {
                    &&& #[trigger] is_score(u, own.q, own.k, scale, s)
                    &&& #[trigger] is_softmax(u, seq![s], share)
                    &&& b == share[0]
                };
            lemma_score_once(u, own.q, own.k, scale, s1, s2);
            lemma_softmax_once(u, seq![s1], h1, h2);
        }
        assert(a == b);
        assert forall|d: int| 0 <= d < y.len() implies #[trigger] y[d] == z[d] by {
            assert(is_product(u, a, own.v[d], y[d]) && is_product(u, a, own.v[d], z[d]));
        }
    }
    assert(y =~= z);
}

proof fn lemma_silu_once<U: FloatUnit>(u: &U, a: u32, r: u32, s: u32)
    requires
        is_steady(u),
        is_silu(u, a, r),
        is_silu(u, a, s),
    ensures
        r == s,
{
}

pub(crate) proof fn lemma_gated_once<U: FloatUnit>(
    u: &U,
    a: Seq<u32>,
    b: Seq<u32>,
    y: Seq<u32>,
    z: Seq<u32>,
)
    requires
        is_steady(u),
        is_gated_all(u, a, b, y),
        is_gated_all(u, a, b, z),
    ensures
        y == z,
{
    assert forall|i: int| 0 <= i < y.len() implies #[trigger] y[i] == z[i] by {
        assert(is_gated(u, a[i], b[i], y[i]) && is_gated(u, a[i], b[i], z[i]));
        let r = choose|r: u32| #[trigger] is_silu(u, a[i], r) && is_product(u, r, b[i], y[i]);
        let s = choose|s: u32| #[trigger] is_silu(u, a[i], s) && is_product(u, s, b[i], z[i]);
        lemma_silu_once(u, a[i], r, s);
    }
    assert(y =~= z);
}

pub(crate) proof fn lemma_output_once<U: FloatUnit>(
    u: &U,
    w: Option<(Seq<u8>, DType)>,
    x: Seq<u32>,
    by_columns: bool,
    y: Seq<u32>,
    z: Seq<u32>,
)
    requires
        is_steady(u),
        is_output(u, w, x, by_columns, y),
        is_output(u, w, x, by_columns, z),
    ensures
        y == z,
{
    if let Some((data, dtype)) = w {
        lemma_projection_once(u, dtype, data, x, by_columns, y, z);
    }
}

} // verus!
