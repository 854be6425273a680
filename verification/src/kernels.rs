//! The operations of a forward pass: products of matrices and vectors, norms, softmax, the
//! sigmoid-weighted values and the rotation of positions.
//!
//! Values are 32-bit patterns, and their arithmetic is that of a [`FloatUnit`].

use vstd::prelude::*;
use crate::bytes::{le_value, read_le};
use crate::bytes::{lemma_le_value_bound, lemma_pow256_values};
use crate::dtype::DType;
use crate::float::{
    is_count, is_cosine, is_difference, is_dot, is_exponential, is_larger, is_power, is_product,
    is_quotient, is_root, is_scaled, is_sine, is_sum, is_wide, lemma_dot_step, negate, negative,
    FloatUnit, NEGATIVE_INFINITY, ONE,
};
use crate::quant::{byte_step, nibble_step, scale_in, Q4_0Block, Q8_0Block};

verus! {

/// The instruction sets of a processor that products can be computed with.
#[derive(Debug, Clone, Copy)]
pub struct CpuFeatures {
    pub avx512f: bool,
    pub avx2: bool,
    pub fma: bool,
    pub sse41: bool,
    pub neon: bool,
}

impl CpuFeatures {
    /// The name of the best of the instruction sets.
    pub fn best_label(&self) -> (r: &'static str)
        ensures
            r@ == if self.avx512f {
                "AVX-512"@
            } else if self.avx2 && self.fma {
                "AVX2+FMA"@
            } else if self.sse41 {
                "SSE4.1"@
            } else if self.neon {
                "NEON"@
            } else {
                "Scalar"@
            },
    {
        if self.avx512f {
            "AVX-512"
        } else if self.avx2 && self.fma {
            "AVX2+FMA"
        } else if self.sse41 {
            "SSE4.1"
        } else if self.neon {
            "NEON"
        } else {
            "Scalar"
        }
    }
}

/// How many elements `len` bytes hold.
pub open spec fn held(dtype: DType, len: nat) -> nat {
    match dtype {
        DType::FP32 => len / 4,
        DType::FP16 => len / 2,
        DType::Q8_0 => len / 34 * 32,
        DType::Q4_0 => len / 18 * 32,
    }
}

/// `v` can be element `i` of stored data.
pub open spec fn is_weight<U: FloatUnit>(u: &U, dtype: DType, w: Seq<u8>, i: int, v: u32) -> bool {
    match dtype {
        DType::FP32 => v == le_value(w.subrange(4 * i, 4 * i + 4)),
        DType::FP16 => is_wide(u, le_value(w.subrange(2 * i, 2 * i + 2)) as u16, v),
        DType::Q8_0 => {
            let b = 34 * (i / 32);
            exists|s: u32|
                {
                    &&& #[trigger] is_wide(u, scale_in(w, b), s)
                    &&& is_scaled(u, byte_step(w.subrange(b + 2, b + 34), i % 32) as i32, s, v)
                }
        },
        DType::Q4_0 => {
            let b = 18 * (i / 32);
            exists|s: u32|
                {
                    &&& #[trigger] is_wide(u, scale_in(w, b), s)
                    &&& is_scaled(u, nibble_step(w.subrange(b + 2, b + 18), i % 32) as i32, s, v)
                }
        },
    }
}

/// Element `i` of stored data.
pub fn weight_at<U: FloatUnit>(w: &[u8], dtype: DType, i: usize, unit: &U) -> (v: u32)
    requires
        i < held(dtype, w@.len()),
    ensures
        is_weight(unit, dtype, w@, i as int, v),
{
    let size: usize = w.len();
    proof {
        lemma_pow256_values();
    }
    match dtype {
        DType::FP32 => {
            proof {
                lemma_le_value_bound(w@.subrange(4 * i, 4 * i + 4));
            }
            read_le(w, 4 * i, 4) as u32
        },
        DType::FP16 => {
            proof {
                lemma_le_value_bound(w@.subrange(2 * i, 2 * i + 2));
            }
            unit.widen(read_le(w, 2 * i, 2) as u16)
        },
        DType::Q8_0 => {
            let block = Q8_0Block::from_bytes(w, 34 * (i / 32));
            let s: u32 = unit.widen(block.scale);
            let v: u32 = unit.scale(block.step(i % 32), s);
            assert(is_wide(unit, scale_in(w@, 34 * (i as int / 32)), s));
            v
        },
        DType::Q4_0 => {
            let block = Q4_0Block::from_bytes(w, 18 * (i / 32));
            let s: u32 = unit.widen(block.scale);
            let v: u32 = unit.scale(block.step(i % 32), s);
            assert(is_wide(unit, scale_in(w@, 18 * (i as int / 32)), s));
            v
        },
    }
}

/// How many of the `m` elements from `start` on there are among `total`.
pub open spec fn present(total: nat, start: nat, m: nat) -> nat {
    if start >= total {
        0
    } else if total - start < m {
        (total - start) as nat
    } else {
        m
    }
}

/// How many of the `m` elements from `start` on `len` bytes hold.
fn count_present(dtype: DType, len: usize, start: usize, m: usize) -> (r: usize)
    ensures
        r == present(held(dtype, len as nat), start as nat, m as nat),
{
    let total: u128 = match dtype {
        DType::FP32 => len as u128 / 4,
        DType::FP16 => len as u128 / 2,
        DType::Q8_0 => len as u128 / 34 * 32,
        DType::Q4_0 => len as u128 / 18 * 32,
    };
    if start as u128 >= total {
        0
    } else if total - (start as u128) < m as u128 {
        (total - start as u128) as usize
    } else {
        m
    }
}

/// `row` are the elements from `start` on.
pub open spec fn is_row<U: FloatUnit>(
    u: &U,
    dtype: DType,
    w: Seq<u8>,
    start: int,
    row: Seq<u32>,
) -> bool {
    forall|j: int| 0 <= j < row.len() ==> is_weight(u, dtype, w, start + j, #[trigger] row[j])
}

/// `s` can be the product of row `r` of a stored matrix of `m` columns and `x`. Elements that the
/// data does not have are left out.
pub open spec fn is_row_product<U: FloatUnit>(
    u: &U,
    dtype: DType,
    w: Seq<u8>,
    r: int,
    m: int,
    x: Seq<u32>,
    s: u32,
) -> bool {
    exists|row: Seq<u32>|
        {
            &&& row.len() == present(held(dtype, w.len()), (r * m) as nat, m as nat)
            &&& #[trigger] is_row(u, dtype, w, r * m, row)
            &&& is_dot(u, row, x.take(row.len() as int), s)
        }
}

/// The bias of row `r`; 0 where there is none.
pub open spec fn bias_at(bias: Option<Seq<u32>>, r: int) -> u32 {
    match bias {
        Some(b) => b[r],
        None => 0,
    }
}

/// `y` can be the product of a stored matrix of `m` columns and `x`, plus the bias.
pub open spec fn is_matmul<U: FloatUnit>(
    u: &U,
    dtype: DType,
    w: Seq<u8>,
    m: int,
    x: Seq<u32>,
    bias: Option<Seq<u32>>,
    y: Seq<u32>,
) -> bool {
    forall|r: int|
        0 <= r < y.len() ==> is_row_result(u, dtype, w, r, m, x, bias_at(bias, r), #[trigger] y[r])
}

/// `v` can be the product of row `r` and `x`, plus `b`.
pub open spec fn is_row_result<U: FloatUnit>(
    u: &U,
    dtype: DType,
    w: Seq<u8>,
    r: int,
    m: int,
    x: Seq<u32>,
    b: u32,
    v: u32,
) -> bool {
    exists|s: u32| #[trigger] is_row_product(u, dtype, w, r, m, x, s) && is_sum(u, s, b, v)
}

/// The contents of an optional bias.
pub open spec fn bias_view(bias: Option<&[u32]>) -> Option<Seq<u32>> {
    match bias {
        Some(b) => Some(b@),
        None => None,
    }
}

/// The product of row `r` of a stored matrix and `x`.
fn row_product<U: FloatUnit>(
    w: &[u8],
    dtype: DType,
    r: usize,
    m: usize,
    x: &[u32],
    unit: &U,
) -> (s: u32)
    requires
        x@.len() >= m,
        r * m + m <= usize::MAX,
    ensures
        is_row_product(unit, dtype, w@, r as int, m as int, x@, s),
{
    let start: usize = r * m;
    let count: usize = count_present(dtype, w.len(), start, m);
    let ghost mut row: Seq<u32> = Seq::empty();
    let mut s: u32 = 0;
    let mut j: usize = 0;
    assert(x@.take(0) =~= Seq::<u32>::empty());
    while j < count
        invariant
            j <= count <= m <= x@.len(),
            start + m <= usize::MAX,
            count > 0 ==> start + count <= held(dtype, w@.len()),
            row.len() == j,
            is_row(unit, dtype, w@, start as int, row),
            is_dot(unit, row, x@.take(j as int), s),
        decreases count - j,
    {
        let v: u32 = weight_at(w, dtype, start + j, unit);
        let p: u32 = unit.times(v, x[j]);
        let next: u32 = unit.plus(s, p);
        proof {
            lemma_dot_step(unit, row, x@.take(j as int), v, x@[j as int], s, p, next);
            assert(x@.take(j as int).push(x@[j as int]) =~= x@.take(j + 1));
            let before = row;
            row = before.push(v);
            assert forall|k: int| 0 <= k < row.len() implies is_weight(
                unit,
                dtype,
                w@,
                start + k,
                #[trigger] row[k],
            ) by {
                if k < before.len() {
                    assert(row[k] == before[k]);
                }
            }
        }
        s = next;
        j = j + 1;
    }
    assert(is_row(unit, dtype, w@, r * m, row));
    s
}

/// The product of a stored matrix of `m` columns and `x`, plus the bias.
pub fn matmul_vec_auto<U: FloatUnit>(
    y: &mut [u32],
    w: &[u8],
    dtype: DType,
    x: &[u32],
    bias: Option<&[u32]>,
    n: usize,
    m: usize,
    unit: &U,
)
    requires
        old(y)@.len() == n,
        x@.len() >= m,
        n * m <= usize::MAX,
        bias matches Some(b) ==> b@.len() >= n,
    ensures
        final(y)@.len() == n,
        is_matmul(unit, dtype, w@, m as int, x@, bias_view(bias), final(y)@),
{
    let mut r: usize = 0;
    while r < n
        invariant
            r <= n == y@.len(),
            x@.len() >= m,
            n * m <= usize::MAX,
            bias matches Some(b) ==> b@.len() >= n,
            forall|k: int|
                0 <= k < r ==> is_row_result(
                    unit,
                    dtype,
                    w@,
                    k,
                    m as int,
                    x@,
                    bias_at(bias_view(bias), k),
                    #[trigger] y@[k],
                ),
        decreases n - r,
    {
        assert(r * m + m <= n * m) by (nonlinear_arith)
            requires
                r + 1 <= n,
        ;
        let s: u32 = row_product(w, dtype, r, m, x, unit);
        let b: u32 = match bias {
            Some(values) => values[r],
            None => 0,
        };
        let v: u32 = unit.plus(s, b);
        let ghost before = y@;
        y[r] = v;
        assert(y@ == before.update(r as int, v));
        r = r + 1;
    }
}

/// The product of a matrix of 16-bit values and `x`, plus the bias.
pub fn matmul_f16<U: FloatUnit>(
    y: &mut [u32],
    w: &[u8],
    x: &[u32],
    bias: Option<&[u32]>,
    n: usize,
    m: usize,
    unit: &U,
)
    requires
        old(y)@.len() == n,
        x@.len() >= m,
        n * m <= usize::MAX,
        bias matches Some(b) ==> b@.len() >= n,
    ensures
        final(y)@.len() == n,
        is_matmul(unit, DType::FP16, w@, m as int, x@, bias_view(bias), final(y)@),
{
    matmul_vec_auto(y, w, DType::FP16, x, bias, n, m, unit);
}

/// The product of a matrix of 4-bit blocks and `x`, plus the bias. A block may belong to the end
/// of one row and the start of the next.
pub fn matmul_q4_0<U: FloatUnit>(
    y: &mut [u32],
    w_q: &[u8],
    x: &[u32],
    bias: Option<&[u32]>,
    n: usize,
    m: usize,
    unit: &U,
)
    requires
        old(y)@.len() == n,
        x@.len() >= m,
        n * m <= usize::MAX,
        bias matches Some(b) ==> b@.len() >= n,
    ensures
        final(y)@.len() == n,
        is_matmul(unit, DType::Q4_0, w_q@, m as int, x@, bias_view(bias), final(y)@),
{
    matmul_vec_auto(y, w_q, DType::Q4_0, x, bias, n, m, unit);
}

/// `v` can be the product of the values and `x`, plus `b`.
pub open spec fn is_biased_dot<U: FloatUnit>(
    u: &U,
    row: Seq<u32>,
    x: Seq<u32>,
    b: u32,
    v: u32,
) -> bool {
    exists|s: u32| #[trigger] is_dot(u, row, x, s) && is_sum(u, s, b, v)
}

/// The product of a matrix of 32-bit values and `x`, plus the bias.
pub fn matmul_f32<U: FloatUnit>(
    y: &mut [u32],
    w: &[u32],
    x: &[u32],
    bias: Option<&[u32]>,
    n: usize,
    m: usize,
    unit: &U,
)
    requires
        old(y)@.len() == n,
        x@.len() >= m,
        n * m <= w@.len(),
        bias matches Some(b) ==> b@.len() >= n,
    ensures
        final(y)@.len() == n,
        forall|r: int|
            0 <= r < n ==> is_biased_dot(
                unit,
                w@.subrange(r * m, r * m + m),
                x@.take(m as int),
                bias_at(bias_view(bias), r),
                #[trigger] final(y)@[r],
            ),
{
    let size: usize = w.len();
    let mut r: usize = 0;
    while r < n
        invariant
            r <= n == y@.len(),
            x@.len() >= m,
            n * m <= size == w@.len(),
            bias matches Some(b) ==> b@.len() >= n,
            forall|k: int|
                0 <= k < r ==> is_biased_dot(
                    unit,
                    w@.subrange(k * m, k * m + m),
                    x@.take(m as int),
                    bias_at(bias_view(bias), k),
                    #[trigger] y@[k],
                ),
        decreases n - r,
    {
        assert(r * m + m <= n * m) by (nonlinear_arith)
            requires
                r + 1 <= n,
        ;
        let row = vstd::slice::slice_subrange(w, r * m, r * m + m);
        let s: u32 = dot(row, x, m, unit);
        assert(row@.take(m as int) =~= w@.subrange(r * m, r * m + m));
        let b: u32 = match bias {
            Some(values) => values[r],
            None => 0,
        };
        let v: u32 = unit.plus(s, b);
        let ghost before = y@;
        y[r] = v;
        assert(y@ == before.update(r as int, v));
        r = r + 1;
    }
}

/// The product of the first `m` elements of two vectors.
pub fn dot<U: FloatUnit>(a: &[u32], b: &[u32], m: usize, unit: &U) -> (s: u32)
    requires
        a@.len() >= m,
        b@.len() >= m,
    ensures
        is_dot(unit, a@.take(m as int), b@.take(m as int), s),
{
    let mut s: u32 = 0;
    let mut j: usize = 0;
    assert(a@.take(0) =~= Seq::<u32>::empty());
    while j < m
        invariant
            j <= m,
            a@.len() >= m,
            b@.len() >= m,
            is_dot(unit, a@.take(j as int), b@.take(j as int), s),
        decreases m - j,
    {
        let p: u32 = unit.times(a[j], b[j]);
        let next: u32 = unit.plus(s, p);
        proof {
            lemma_dot_step(
                unit,
                a@.take(j as int),
                b@.take(j as int),
                a@[j as int],
                b@[j as int],
                s,
                p,
                next,
            );
            assert(a@.take(j as int).push(a@[j as int]) =~= a@.take(j + 1));
            assert(b@.take(j as int).push(b@[j as int]) =~= b@.take(j + 1));
        }
        s = next;
        j = j + 1;
    }
    s
}

/// `column` are the first elements of row `row` of a matrix of `n` rows that is stored by columns.
pub open spec fn is_column<U: FloatUnit>(
    u: &U,
    dtype: DType,
    w: Seq<u8>,
    n: int,
    row: int,
    column: Seq<u32>,
) -> bool {
    forall|k: int|
        0 <= k < column.len() ==> is_weight(u, dtype, w, k * n + row, #[trigger] column[k])
}

/// How many of the first `m` columns of `n` elements hold element `row`, among `total` elements.
pub open spec fn columns_present(total: nat, n: nat, row: nat, m: nat) -> nat
    decreases m,
{
    if m == 0 {
        0
    } else if (m - 1) * n + row < total {
        m
    } else {
        columns_present(total, n, row, (m - 1) as nat)
    }
}

/// `v` can be output `row` of the product of a matrix of `n` rows that is stored by columns and `x`,
/// plus the bias if there is one. Elements that the data does not have are left out.
pub open spec fn is_column_result<U: FloatUnit>(
    u: &U,
    dtype: DType,
    w: Seq<u8>,
    n: int,
    row: int,
    x: Seq<u32>,
    bias: Option<Seq<u32>>,
    v: u32,
) -> bool {
    exists|column: Seq<u32>, s: u32|
        {
            &&& column.len() == columns_present(
                held(dtype, w.len()),
                n as nat,
                row as nat,
                x.len(),
            )
            &&& #[trigger] is_column(u, dtype, w, n, row, column)
            &&& #[trigger] is_dot(u, column, x.take(column.len() as int), s)
            &&& match bias {
                Some(b) => is_sum(u, s, b[row], v),
                None => v == s,
            }
        }
}

pub(crate) proof fn lemma_columns(total: nat, n: nat, row: nat, m: nat, k: nat)
    requires
        k < m,
    ensures
        columns_present(total, n, row, m) <= m,
        k < columns_present(total, n, row, m) <==> k * n + row < total,
    decreases m,
{
    if (m - 1) * n + row < total {
        assert(k * n <= (m - 1) * n) by (nonlinear_arith)
            requires
                k <= m - 1,
                n >= 0,
        ;
    } else if k < m - 1 {
        lemma_columns(total, n, row, (m - 1) as nat, k);
    } else {
        lemma_columns_bound(total, n, row, (m - 1) as nat);
    }
    lemma_columns_bound(total, n, row, m);
}

pub(crate) proof fn lemma_columns_bound(total: nat, n: nat, row: nat, m: nat)
    ensures
        columns_present(total, n, row, m) <= m,
    decreases m,
{
    if m > 0 {
        lemma_columns_bound(total, n, row, (m - 1) as nat);
    }
}

/// Output `row` of the product of a matrix that is stored by columns and `x`, without the bias.
fn column_product<U: FloatUnit>(
    w: &[u8],
    dtype: DType,
    n: usize,
    row: usize,
    x: &[u32],
    m: usize,
    unit: &U,
) -> (s: u32)
    requires
        row < n,
        m == x@.len(),
        n * m <= usize::MAX,
    ensures
        is_column_result(unit, dtype, w@, n as int, row as int, x@, None, s),
{
    let ghost mut column: Seq<u32> = Seq::empty();
    let mut s: u32 = 0;
    assert(x@.take(0) =~= Seq::<u32>::empty());
    let ghost total = held(dtype, w@.len());
    let ghost count = columns_present(total, n as nat, row as nat, m as nat);
    proof {
        lemma_columns_bound(total, n as nat, row as nat, m as nat);
    }
    let mut k: usize = 0;
    while k < m
        invariant
            k <= m == x@.len(),
            row < n,
            n * m <= usize::MAX,
            total == held(dtype, w@.len()),
            count == columns_present(total, n as nat, row as nat, m as nat),
            count <= m,
            k <= count,
            column.len() == k,
            is_column(unit, dtype, w@, n as int, row as int, column),
            is_dot(unit, column, x@.take(k as int), s),
        decreases m - k,
    {
        assert(k * n + n <= n * m) by (nonlinear_arith)
            requires
                k + 1 <= m,
        ;
        proof {
            lemma_columns(total, n as nat, row as nat, m as nat, k as nat);
        }
        let at: usize = k * n + row;
        if count_present(dtype, w.len(), at, 1) == 1 {
            let v: u32 = weight_at(w, dtype, at, unit);
            let p: u32 = unit.times(v, x[k]);
            let next: u32 = unit.plus(s, p);
            proof {
                lemma_dot_step(unit, column, x@.take(k as int), v, x@[k as int], s, p, next);
                assert(x@.take(k as int).push(x@[k as int]) =~= x@.take(k + 1));
                let before = column;
                column = before.push(v);
                assert forall|j: int| 0 <= j < column.len() implies is_weight(
                    unit,
                    dtype,
                    w@,
                    j * n + row,
                    #[trigger] column[j],
                ) by {
                    if j < before.len() {
                        assert(column[j] == before[j]);
                    }
                }
            }
            s = next;
            k = k + 1;
        } else {
            assert(k == count);
            assert(is_column(unit, dtype, w@, n as int, row as int, column));
            assert(is_dot(unit, column, x@.take(column.len() as int), s));
            return s;
        }
    }
    assert(is_column(unit, dtype, w@, n as int, row as int, column));
    assert(is_dot(unit, column, x@.take(column.len() as int), s));
    s
}

/// The product of a matrix that is stored by columns and `x`, plus the bias.
pub fn matmul_columns<U: FloatUnit>(
    y: &mut [u32],
    w: &[u8],
    dtype: DType,
    x: &[u32],
    bias: Option<&[u32]>,
    unit: &U,
)
    requires
        old(y)@.len() * x@.len() <= usize::MAX,
        bias matches Some(b) ==> b@.len() >= old(y)@.len(),
    ensures
        final(y)@.len() == old(y)@.len(),
        forall|r: int|
            0 <= r < final(y)@.len() ==> is_column_result(
                unit,
                dtype,
                w@,
                final(y)@.len() as int,
                r,
                x@,
                bias_view(bias),
                #[trigger] final(y)@[r],
            ),
{
    let n: usize = y.len();
    let m: usize = x.len();
    let mut r: usize = 0;
    while r < n
        invariant
            r <= n == y@.len(),
            x@.len() == m,
            n * m <= usize::MAX,
            bias matches Some(b) ==> b@.len() >= n,
            forall|k: int|
                0 <= k < r ==> is_column_result(
                    unit,
                    dtype,
                    w@,
                    n as int,
                    k,
                    x@,
                    bias_view(bias),
                    #[trigger] y@[k],
                ),
        decreases n - r,
    {
        let s: u32 = column_product(w, dtype, n, r, x, m, unit);
        let v: u32 = match bias {
            Some(b) => unit.plus(s, b[r]),
            None => s,
        };
        let ghost before = y@;
        y[r] = v;
        assert(y@ == before.update(r as int, v));
        r = r + 1;
    }
}

/// The product of a matrix that is stored by columns, in 4-bit blocks, and the first `m` values of
/// `x`, plus the bias.
pub fn matmul_q4_0_col<U: FloatUnit>(
    y: &mut [u32],
    w_q: &[u8],
    x: &[u32],
    bias: Option<&[u32]>,
    n: usize,
    m: usize,
    unit: &U,
)
    requires
        old(y)@.len() == n,
        x@.len() >= m,
        n * m <= usize::MAX,
        bias matches Some(b) ==> b@.len() >= n,
    ensures
        final(y)@.len() == n,
        forall|r: int|
            0 <= r < n ==> is_column_result(
                unit,
                DType::Q4_0,
                w_q@,
                n as int,
                r,
                x@.take(m as int),
                bias_view(bias),
                #[trigger] final(y)@[r],
            ),
{
    matmul_columns(y, w_q, DType::Q4_0, vstd::slice::slice_subrange(x, 0, m), bias, unit);
}

/// `y` can be the product of a stored matrix and `x`. The matrix may be stored by columns.
pub open spec fn is_projection<U: FloatUnit>(
    u: &U,
    dtype: DType,
    w: Seq<u8>,
    x: Seq<u32>,
    by_columns: bool,
    y: Seq<u32>,
) -> bool {
    if by_columns {
        forall|r: int|
            0 <= r < y.len() ==> is_column_result(
                u,
                dtype,
                w,
                y.len() as int,
                r,
                x,
                None,
                #[trigger] y[r],
            )
    } else {
        is_matmul(u, dtype, w, x.len() as int, x, None, y)
    }
}

/// The product of a stored matrix and `x`. The matrix may be stored by columns.
pub fn project<U: FloatUnit>(
    y: &mut [u32],
    w: &[u8],
    dtype: DType,
    x: &[u32],
    by_columns: bool,
    unit: &U,
)
    requires
        old(y)@.len() * x@.len() <= usize::MAX,
    ensures
        final(y)@.len() == old(y)@.len(),
        is_projection(unit, dtype, w@, x@, by_columns, final(y)@),
{
    let n: usize = y.len();
    let m: usize = x.len();
    if by_columns {
        matmul_columns(y, w, dtype, x, None, unit);
    } else {
        matmul_vec_auto(y, w, dtype, x, None, n, m, unit);
    }
}

/// `r` can be one divided by the root of the mean square of `x` plus `eps`.
pub open spec fn is_inverse_rms<U: FloatUnit>(u: &U, x: Seq<u32>, eps: u32, r: u32) -> bool {
    exists|sum: u32, n: u32, mean: u32, shifted: u32, root: u32|
        {
            &&& #[trigger] is_dot(u, x, x, sum)
            &&& #[trigger] is_count(u, x.len() as int, n)
            &&& #[trigger] is_quotient(u, sum, n, mean)
            &&& #[trigger] is_sum(u, mean, eps, shifted)
            &&& #[trigger] is_root(u, shifted, root)
            &&& is_quotient(u, ONE, root, r)
        }
}

/// `y` can be `x`, normed and weighted.
pub open spec fn is_normed<U: FloatUnit>(
    u: &U,
    x: Seq<u32>,
    weight: Seq<u32>,
    eps: u32,
    y: Seq<u32>,
) -> bool {
    y.len() == x.len() && exists|inv: u32|
        {
            &&& #[trigger] is_inverse_rms(u, x, eps, inv)
            &&& forall|i: int|
                0 <= i < x.len() ==> is_twice_scaled(u, x[i], inv, weight[i], #[trigger] y[i])
        }
}

/// `r` can be the product of `a`, `b` and `c`.
pub open spec fn is_twice_scaled<U: FloatUnit>(u: &U, a: u32, b: u32, c: u32, r: u32) -> bool {
    exists|p: u32| #[trigger] is_product(u, a, b, p) && is_product(u, p, c, r)
}

/// Norms `x` by the root of its mean square, and weights it.
pub fn rms_norm_in_place<U: FloatUnit>(x: &mut [u32], weight: &[u32], eps: u32, unit: &U)
    requires
        weight@.len() >= old(x)@.len(),
    ensures
        is_normed(unit, old(x)@, weight@, eps, final(x)@),
{
    let n: usize = x.len();
    let ghost start = x@;
    let sum: u32 = dot(x, x, n, unit);
    assert(start.take(n as int) =~= start);
    let count: u32 = unit.number(n);
    let mean: u32 = unit.divide(sum, count);
    let shifted: u32 = unit.plus(mean, eps);
    let root: u32 = unit.root(shifted);
    let inv: u32 = unit.divide(ONE, root);
    assert(is_inverse_rms(unit, start, eps, inv)) by {
        assert(is_dot(unit, start, start, sum));
        assert(is_count(unit, start.len() as int, count));
        assert(is_quotient(unit, sum, count, mean));
        assert(is_sum(unit, mean, eps, shifted));
        assert(is_root(unit, shifted, root));
    }
    let mut i: usize = 0;
    while i < n
        invariant
            i <= n == x@.len() == start.len(),
            weight@.len() >= n,
            forall|k: int|
                0 <= k < i ==> is_twice_scaled(unit, start[k], inv, weight@[k], #[trigger] x@[k]),
            forall|k: int| i <= k < n ==> #[trigger] x@[k] == start[k],
        decreases n - i,
    {
        let p: u32 = unit.times(x[i], inv);
        let v: u32 = unit.times(p, weight[i]);
        let ghost before = x@;
        x[i] = v;
        proof {
            assert(x@ == before.update(i as int, v));
            assert(is_product(unit, start[i as int], inv, p));
        }
        i = i + 1;
    }
}

/// `x`, normed by the root of its mean square, and weighted.
pub fn rms_norm<U: FloatUnit>(x: &[u32], weight: &[u32], eps: u32, unit: &U) -> (y: Vec<u32>)
    requires
        weight@.len() >= x@.len(),
    ensures
        is_normed(unit, x@, weight@, eps, y@),
{
    let mut y = copy_values(x);
    rms_norm_in_place(y.as_mut_slice(), weight, eps, unit);
    y
}

/// A copy of values.
pub fn copy_values(x: &[u32]) -> (y: Vec<u32>)
    ensures
        y@ == x@,
{
    let mut y: Vec<u32> = Vec::new();
    y.extend_from_slice(x);
    assert(y@ =~= x@);
    y
}

/// `r` can be the largest of `x`, taken one after another.
pub open spec fn is_maximum<U: FloatUnit>(u: &U, x: Seq<u32>, r: u32) -> bool
    decreases x.len(),
{
    if x.len() == 0 {
        r == NEGATIVE_INFINITY
    } else {
        exists|before: u32|
            is_maximum(u, x.drop_last(), before) && #[trigger] is_larger(u, before, x.last(), r)
    }
}

/// `r` can be the sum of `x`, taken one after another.
pub open spec fn is_total<U: FloatUnit>(u: &U, x: Seq<u32>, r: u32) -> bool
    decreases x.len(),
{
    if x.len() == 0 {
        r == 0
    } else {
        exists|before: u32|
            is_total(u, x.drop_last(), before) && #[trigger] is_sum(u, before, x.last(), r)
    }
}

/// `r` can be the exponential function of `a - top`.
pub open spec fn is_shifted_exp<U: FloatUnit>(u: &U, a: u32, top: u32, r: u32) -> bool {
    exists|d: u32| #[trigger] is_difference(u, a, top, d) && is_exponential(u, d, r)
}

/// `y` can be the softmax of `x`: the exponential functions of the differences from the largest,
/// divided by their sum.
pub open spec fn is_softmax<U: FloatUnit>(u: &U, x: Seq<u32>, y: Seq<u32>) -> bool {
    y.len() == x.len() && exists|top: u32, e: Seq<u32>, total: u32, inv: u32|
        {
            &&& #[trigger] is_maximum(u, x, top)
            &&& e.len() == x.len()
            &&& forall|i: int|
                0 <= i < x.len() ==> is_shifted_exp(u, x[i], top, #[trigger] e[i])
            &&& #[trigger] is_total(u, e, total)
            &&& #[trigger] is_quotient(u, ONE, total, inv)
            &&& forall|i: int| 0 <= i < x.len() ==> is_product(u, e[i], inv, #[trigger] y[i])
        }
}

/// Replaces values by their softmax.
pub fn softmax_in_place<U: FloatUnit>(x: &mut [u32], unit: &U)
    ensures
        is_softmax(unit, old(x)@, final(x)@),
{
    let n: usize = x.len();
    let ghost start = x@;
    let mut top: u32 = NEGATIVE_INFINITY;
    let mut i: usize = 0;
    assert(start.take(0) =~= Seq::<u32>::empty());
    while i < n
        invariant
            i <= n == x@.len(),
            x@ == start,
            is_maximum(unit, start.take(i as int), top),
        decreases n - i,
    {
        let next: u32 = unit.larger(top, x[i]);
        proof {
            assert(start.take(i + 1).drop_last() =~= start.take(i as int));
            assert(is_larger(unit, top, start.take(i + 1).last(), next));
        }
        top = next;
        i = i + 1;
    }
    assert(start.take(n as int) =~= start);
    let mut total: u32 = 0;
    let mut k: usize = 0;
    assert(x@.take(0) =~= Seq::<u32>::empty());
    while k < n
        invariant
            k <= n == x@.len() == start.len(),
            forall|j: int|
                0 <= j < k ==> is_shifted_exp(unit, start[j], top, #[trigger] x@[j]),
            forall|j: int| k <= j < n ==> #[trigger] x@[j] == start[j],
            is_total(unit, x@.take(k as int), total),
        decreases n - k,
    {
        let d: u32 = unit.minus(x[k], top);
        let e: u32 = unit.exponential(d);
        let ghost before = x@;
        x[k] = e;
        let next: u32 = unit.plus(total, e);
        proof {
            assert(x@ == before.update(k as int, e));
            assert(is_difference(unit, start[k as int], top, d));
            assert(x@.take(k + 1).drop_last() =~= before.take(k as int));
            assert(is_sum(unit, total, x@.take(k + 1).last(), next));
        }
        total = next;
        k = k + 1;
    }
    let ghost es = x@;
    assert(es.take(n as int) =~= es);
    let inv: u32 = unit.divide(ONE, total);
    let mut j: usize = 0;
    while j < n
        invariant
            j <= n == x@.len() == es.len(),
            forall|q: int| 0 <= q < j ==> is_product(unit, es[q], inv, #[trigger] x@[q]),
            forall|q: int| j <= q < n ==> #[trigger] x@[q] == es[q],
        decreases n - j,
    {
        let v: u32 = unit.times(x[j], inv);
        let ghost before = x@;
        x[j] = v;
        assert(x@ == before.update(j as int, v));
        j = j + 1;
    }
    assert(is_softmax(unit, start, x@)) by {
        assert(is_maximum(unit, start, top));
        assert(is_total(unit, es, total));
        assert(is_quotient(unit, ONE, total, inv));
    }
}

/// The softmax of values.
pub fn softmax<U: FloatUnit>(x: &[u32], unit: &U) -> (y: Vec<u32>)
    ensures
        is_softmax(unit, x@, y@),
{
    let mut y = copy_values(x);
    softmax_in_place(y.as_mut_slice(), unit);
    y
}

/// `r` can be the sigmoid-weighted `a`: `a / (1 + exp(-a))`.
pub open spec fn is_silu<U: FloatUnit>(u: &U, a: u32, r: u32) -> bool {
    exists|e: u32, d: u32|
        {
            &&& #[trigger] is_exponential(u, negative(a), e)
            &&& #[trigger] is_sum(u, ONE, e, d)
            &&& is_quotient(u, a, d, r)
        }
}

/// A value weighted by its sigmoid.
pub fn silu_value<U: FloatUnit>(a: u32, unit: &U) -> (r: u32)
    ensures
        is_silu(unit, a, r),
{
    let e: u32 = unit.exponential(negate(a));
    let d: u32 = unit.plus(ONE, e);
    let r: u32 = unit.divide(a, d);
    assert(is_exponential(unit, negative(a), e) && is_sum(unit, ONE, e, d));
    r
}

/// Weights values by their sigmoids.
pub fn silu_in_place<U: FloatUnit>(x: &mut [u32], unit: &U)
    ensures
        final(x)@.len() == old(x)@.len(),
        forall|i: int|
            0 <= i < old(x)@.len() ==> is_silu(unit, old(x)@[i], #[trigger] final(x)@[i]),
{
    let n: usize = x.len();
    let ghost start = x@;
    let mut i: usize = 0;
    while i < n
        invariant
            i <= n == x@.len() == start.len(),
            forall|k: int| 0 <= k < i ==> is_silu(unit, start[k], #[trigger] x@[k]),
            forall|k: int| i <= k < n ==> #[trigger] x@[k] == start[k],
        decreases n - i,
    {
        let v: u32 = silu_value(x[i], unit);
        let ghost before = x@;
        x[i] = v;
        assert(x@ == before.update(i as int, v));
        i = i + 1;
    }
}

/// Values, each weighted by its sigmoid.
pub fn silu<U: FloatUnit>(x: &[u32], unit: &U) -> (y: Vec<u32>)
    ensures
        y@.len() == x@.len(),
        forall|i: int| 0 <= i < x@.len() ==> is_silu(unit, x@[i], #[trigger] y@[i]),
{
    let mut y = copy_values(x);
    silu_in_place(y.as_mut_slice(), unit);
    y
}

/// `a` can be the angle of the pair at `i` of a head of `head_dim` values, at position `pos`:
/// the position divided by `theta` to the power `i / head_dim`.
pub open spec fn is_angle<U: FloatUnit>(
    u: &U,
    theta: u32,
    i: int,
    head_dim: int,
    pos: int,
    a: u32,
) -> bool {
    exists|fi: u32, fd: u32, e: u32, p: u32, freq: u32, fp: u32|
        {
            &&& #[trigger] is_count(u, i, fi)
            &&& #[trigger] is_count(u, head_dim, fd)
            &&& #[trigger] is_quotient(u, fi, fd, e)
            &&& #[trigger] is_power(u, theta, e, p)
            &&& #[trigger] is_quotient(u, ONE, p, freq)
            &&& #[trigger] is_count(u, pos, fp)
            &&& is_product(u, fp, freq, a)
        }
}

/// `r0` and `r1` can be the pair `x0` and `x1`, turned by an angle.
pub open spec fn is_turned<U: FloatUnit>(
    u: &U,
    angle: u32,
    x0: u32,
    x1: u32,
    r0: u32,
    r1: u32,
) -> bool {
    exists|c: u32, s: u32, a: u32, b: u32, d: u32, e: u32|
        {
            &&& #[trigger] is_cosine(u, angle, c)
            &&& #[trigger] is_sine(u, angle, s)
            &&& #[trigger] is_product(u, x0, c, a)
            &&& #[trigger] is_product(u, x1, s, b)
            &&& is_difference(u, a, b, r0)
            &&& #[trigger] is_product(u, x0, s, d)
            &&& #[trigger] is_product(u, x1, c, e)
            &&& is_sum(u, d, e, r1)
        }
}

/// `r0` and `r1` can be the pair at `i` of a head, turned to position `pos`.
pub open spec fn is_turned_pair<U: FloatUnit>(
    u: &U,
    theta: u32,
    i: int,
    head_dim: int,
    pos: int,
    x0: u32,
    x1: u32,
    r0: u32,
    r1: u32,
) -> bool {
    exists|angle: u32|
        #[trigger] is_angle(u, theta, i, head_dim, pos, angle) && is_turned(
            u,
            angle,
            x0,
            x1,
            r0,
            r1,
        )
}

/// `y` can be heads of `head_dim` values, with each pair turned to position `pos`. A last value
/// without a partner stays.
pub open spec fn is_rotated<U: FloatUnit>(
    u: &U,
    x: Seq<u32>,
    head_dim: int,
    pos: int,
    theta: u32,
    y: Seq<u32>,
) -> bool {
    &&& y.len() == x.len()
    &&& forall|j: int|
        0 <= j < x.len() / 2 ==> is_turned_pair(
            u,
            theta,
            (2 * j) % head_dim,
            head_dim,
            pos,
            x[2 * j],
            x[2 * j + 1],
            #[trigger] y[2 * j],
            y[2 * j + 1],
        )
    &&& x.len() % 2 == 1 ==> y.last() == x.last()
}

fn turn_pair<U: FloatUnit>(
    theta: u32,
    i: usize,
    head_dim: usize,
    pos: usize,
    x0: u32,
    x1: u32,
    unit: &U,
) -> (r: (u32, u32))
    ensures
        is_turned_pair(unit, theta, i as int, head_dim as int, pos as int, x0, x1, r.0, r.1),
{
    let fi: u32 = unit.number(i);
    let fd: u32 = unit.number(head_dim);
    let e: u32 = unit.divide(fi, fd);
    let p: u32 = unit.power(theta, e);
    let freq: u32 = unit.divide(ONE, p);
    let fp: u32 = unit.number(pos);
    let angle: u32 = unit.times(fp, freq);
    assert(is_angle(unit, theta, i as int, head_dim as int, pos as int, angle)) by {
        assert(is_count(unit, i as int, fi) && is_count(unit, head_dim as int, fd));
        assert(is_quotient(unit, fi, fd, e) && is_power(unit, theta, e, p));
        assert(is_quotient(unit, ONE, p, freq) && is_count(unit, pos as int, fp));
    }
    let c: u32 = unit.cosine(angle);
    let s: u32 = unit.sine(angle);
    let a: u32 = unit.times(x0, c);
    let b: u32 = unit.times(x1, s);
    let r0: u32 = unit.minus(a, b);
    let d: u32 = unit.times(x0, s);
    let f: u32 = unit.times(x1, c);
    let r1: u32 = unit.plus(d, f);
    assert(is_turned(unit, angle, x0, x1, r0, r1)) by {
        assert(is_cosine(unit, angle, c) && is_sine(unit, angle, s));
        assert(is_product(unit, x0, c, a) && is_product(unit, x1, s, b));
        assert(is_product(unit, x0, s, d) && is_product(unit, x1, c, f));
    }
    (r0, r1)
}

/// Turns the first `count` pairs of heads of `head_dim` values to position `pos`.
fn turn_pairs<U: FloatUnit>(
    x: &mut [u32],
    count: usize,
    head_dim: usize,
    pos: usize,
    theta: u32,
    unit: &U,
)
    requires
        head_dim > 0,
        count <= old(x)@.len() / 2,
    ensures
        final(x)@.len() == old(x)@.len(),
        forall|j: int|
            0 <= j < count ==> is_turned_pair(
                unit,
                theta,
                (2 * j) % head_dim as int,
                head_dim as int,
                pos as int,
                old(x)@[2 * j],
                old(x)@[2 * j + 1],
                #[trigger] final(x)@[2 * j],
                final(x)@[2 * j + 1],
            ),
        forall|i: int|
            2 * count <= i < old(x)@.len() ==> #[trigger] final(x)@[i] == old(x)@[i],
{
    let n: usize = x.len();
    let ghost start = x@;
    let mut j: usize = 0;
    while j < count
        invariant
            j <= count <= n / 2,
            n == x@.len() == start.len(),
            head_dim > 0,
            forall|k: int|
                0 <= k < j ==> is_turned_pair(
                    unit,
                    theta,
                    (2 * k) % head_dim as int,
                    head_dim as int,
                    pos as int,
                    start[2 * k],
                    start[2 * k + 1],
                    #[trigger] x@[2 * k],
                    x@[2 * k + 1],
                ),
            forall|k: int| 2 * j <= k < n ==> #[trigger] x@[k] == start[k],
        decreases count - j,
    {
        let (r0, r1) = turn_pair(
            theta,
            (2 * j) % head_dim,
            head_dim,
            pos,
            x[2 * j],
            x[2 * j + 1],
            unit,
        );
        let ghost before = x@;
        x[2 * j] = r0;
        x[2 * j + 1] = r1;
        assert(x@ == before.update(2 * j, r0).update(2 * j + 1, r1));
        j = j + 1;
    }
}

/// Turns the pairs of heads of `head_dim` values to position `pos`.
pub fn rope_heads<U: FloatUnit>(
    x: &mut [u32],
    head_dim: usize,
    pos: usize,
    theta: u32,
    unit: &U,
)
    requires
        head_dim > 0,
    ensures
        is_rotated(unit, old(x)@, head_dim as int, pos as int, theta, final(x)@),
{
    let n: usize = x.len();
    turn_pairs(x, n / 2, head_dim, pos, theta, unit);
}

/// How many pairs begin within `head_dim` values.
pub open spec fn pair_count(head_dim: int) -> int {
    (head_dim + 1) / 2
}

/// `y` can be `x` with the pairs that begin within the first `head_dim` values turned to position
/// `pos`. What lies behind them stays.
pub open spec fn is_rope<U: FloatUnit>(
    u: &U,
    x: Seq<u32>,
    head_dim: int,
    pos: int,
    theta: u32,
    y: Seq<u32>,
) -> bool {
    &&& y.len() == x.len()
    &&& forall|j: int|
        0 <= j < pair_count(head_dim) ==> is_turned_pair(
            u,
            theta,
            2 * j,
            head_dim,
            pos,
            x[2 * j],
            x[2 * j + 1],
            #[trigger] y[2 * j],
            y[2 * j + 1],
        )
    &&& forall|i: int| 2 * pair_count(head_dim) <= i < x.len() ==> #[trigger] y[i] == x[i]
}

fn rope_one<U: FloatUnit>(x: &mut [u32], head_dim: usize, pos: usize, theta: u32, unit: &U)
    requires
        2 * pair_count(head_dim as int) <= old(x)@.len(),
    ensures
        is_rope(unit, old(x)@, head_dim as int, pos as int, theta, final(x)@),
{
    if head_dim == 0 {
        return;
    }
    let count: usize = head_dim / 2 + head_dim % 2;
    let ghost start = x@;
    turn_pairs(x, count, head_dim, pos, theta, unit);
    assert forall|j: int| 0 <= j < count implies is_turned_pair(
        unit,
        theta,
        2 * j,
        head_dim as int,
        pos as int,
        start[2 * j],
        start[2 * j + 1],
        #[trigger] x@[2 * j],
        x@[2 * j + 1],
    ) by {
        vstd::arithmetic::div_mod::lemma_small_mod((2 * j) as nat, head_dim as nat);
    }
}

/// Turns the pairs that begin within the first `head_dim` values of one query head and one key head
/// to position `pos`.
pub fn rope<U: FloatUnit>(
    q: &mut [u32],
    k: &mut [u32],
    head_dim: usize,
    pos: usize,
    theta: u32,
    unit: &U,
)
    requires
        2 * pair_count(head_dim as int) <= old(q)@.len(),
        2 * pair_count(head_dim as int) <= old(k)@.len(),
    ensures
        is_rope(unit, old(q)@, head_dim as int, pos as int, theta, final(q)@),
        is_rope(unit, old(k)@, head_dim as int, pos as int, theta, final(k)@),
{
    rope_one(q, head_dim, pos, theta, unit);
    rope_one(k, head_dim, pos, theta, unit);
}

/// `s` can be the product of `x` and the first elements of stored data, as far as there are any.
pub open spec fn is_stored_dot<U: FloatUnit>(
    u: &U,
    dtype: DType,
    x: Seq<u32>,
    w: Seq<u8>,
    n: nat,
    s: u32,
) -> bool {
    exists|row: Seq<u32>|
        {
            &&& row.len() == present(held(dtype, w.len()), 0, n)
            &&& #[trigger] is_row(u, dtype, w, 0, row)
            &&& is_dot(u, x.take(row.len() as int), row, s)
        }
}

fn stored_dot<U: FloatUnit>(x: &[u32], w: &[u8], dtype: DType, n: usize, unit: &U) -> (s: u32)
    requires
        x@.len() >= n,
    ensures
        is_stored_dot(unit, dtype, x@, w@, n as nat, s),
{
    let count: usize = count_present(dtype, w.len(), 0, n);
    let ghost mut row: Seq<u32> = Seq::empty();
    let mut s: u32 = 0;
    let mut j: usize = 0;
    assert(x@.take(0) =~= Seq::<u32>::empty());
    while j < count
        invariant
            j <= count <= n <= x@.len(),
            count <= held(dtype, w@.len()),
            row.len() == j,
            is_row(unit, dtype, w@, 0, row),
            is_dot(unit, x@.take(j as int), row, s),
        decreases count - j,
    {
        let v: u32 = weight_at(w, dtype, j, unit);
        let p: u32 = unit.times(x[j], v);
        let next: u32 = unit.plus(s, p);
        proof {
            lemma_dot_step(unit, x@.take(j as int), row, x@[j as int], v, s, p, next);
            assert(x@.take(j as int).push(x@[j as int]) =~= x@.take(j + 1));
            let before = row;
            row = before.push(v);
            assert forall|k: int| 0 <= k < row.len() implies is_weight(
                unit,
                dtype,
                w@,
                0 + k,
                #[trigger] row[k],
            ) by {
                if k < before.len() {
                    assert(row[k] == before[k]);
                }
            }
        }
        s = next;
        j = j + 1;
    }
    assert(is_row(unit, dtype, w@, 0, row));
    s
}

/// The product of `n` values and as many in 4-bit blocks; it stops where the blocks end.
pub fn dot_product_q4_0_scalar<U: FloatUnit>(x: &[u32], y_q: &[u8], n: usize, unit: &U) -> (s: u32)
    requires
        x@.len() >= n,
    ensures
        is_stored_dot(unit, DType::Q4_0, x@, y_q@, n as nat, s),
{
    stored_dot(x, y_q, DType::Q4_0, n, unit)
}

/// The product of `n` values and as many in 4-bit blocks; it stops where the blocks end.
pub fn dot_product_q4_0<U: FloatUnit>(x: &[u32], y_q: &[u8], n: usize, unit: &U) -> (s: u32)
    requires
        x@.len() >= n,
    ensures
        is_stored_dot(unit, DType::Q4_0, x@, y_q@, n as nat, s),
{
    dot_product_q4_0_scalar(x, y_q, n, unit)
}

/// The product of `n` values and as many in 8-bit blocks.
pub fn dot_product_q8_0_scalar<U: FloatUnit>(x: &[u32], y_q: &[u8], n: usize, unit: &U) -> (s: u32)
    requires
        x@.len() >= n,
        held(DType::Q8_0, y_q@.len()) >= n,
    ensures
        is_stored_dot(unit, DType::Q8_0, x@, y_q@, n as nat, s),
{
    stored_dot(x, y_q, DType::Q8_0, n, unit)
}

/// The product of `n` values and as many in 8-bit blocks.
pub fn dot_product_q8_0<U: FloatUnit>(x: &[u32], y_q: &[u8], n: usize, unit: &U) -> (s: u32)
    requires
        x@.len() >= n,
        held(DType::Q8_0, y_q@.len()) >= n,
    ensures
        is_stored_dot(unit, DType::Q8_0, x@, y_q@, n as nat, s),
{
    dot_product_q8_0_scalar(x, y_q, n, unit)
}

/// The product of a matrix of 32-bit values and a vector.
pub fn matmul_vec<U: FloatUnit>(
    y: &mut [u32],
    w: &[u32],
    x: &[u32],
    bias: Option<&[u32]>,
    n: usize,
    m: usize,
    unit: &U,
)
    requires
        old(y)@.len() == n,
        x@.len() >= m,
        n * m <= w@.len(),
        bias matches Some(b) ==> b@.len() >= n,
    ensures
        final(y)@.len() == n,
        forall|r: int|
            0 <= r < n ==> is_biased_dot(
                unit,
                w@.subrange(r * m, r * m + m),
                x@.take(m as int),
                bias_at(bias_view(bias), r),
                #[trigger] final(y)@[r],
            ),
{
    matmul_f32(y, w, x, bias, n, m, unit)
}

/// The product of a matrix in 4-bit blocks and a vector.
pub fn matmul_vec_q4_0<U: FloatUnit>(
    y: &mut [u32],
    w_q: &[u8],
    x: &[u32],
    bias: Option<&[u32]>,
    n: usize,
    m: usize,
    unit: &U,
)
    requires
        old(y)@.len() == n,
        x@.len() >= m,
        n * m <= usize::MAX,
        bias matches Some(b) ==> b@.len() >= n,
    ensures
        final(y)@.len() == n,
        is_matmul(unit, DType::Q4_0, w_q@, m as int, x@, bias_view(bias), final(y)@),
{
    matmul_q4_0(y, w_q, x, bias, n, m, unit)
}

/// The product of a matrix of 16-bit values and a vector.
pub fn matmul_vec_f16<U: FloatUnit>(
    y: &mut [u32],
    w: &[u8],
    x: &[u32],
    bias: Option<&[u32]>,
    n: usize,
    m: usize,
    unit: &U,
)
    requires
        old(y)@.len() == n,
        x@.len() >= m,
        n * m <= usize::MAX,
        bias matches Some(b) ==> b@.len() >= n,
    ensures
        final(y)@.len() == n,
        is_matmul(unit, DType::FP16, w@, m as int, x@, bias_view(bias), final(y)@),
{
    matmul_f16(y, w, x, bias, n, m, unit)
}

/// Norms values by the root of their mean square, and weights them.
pub fn rms_norm_fused<U: FloatUnit>(x: &mut [u32], weight: &[u32], eps: u32, unit: &U)
    requires
        weight@.len() >= old(x)@.len(),
    ensures
        is_normed(unit, old(x)@, weight@, eps, final(x)@),
{
    rms_norm_in_place(x, weight, eps, unit)
}

/// Replaces values by their softmax.
pub fn softmax_fast<U: FloatUnit>(x: &mut [u32], unit: &U)
    ensures
        is_softmax(unit, old(x)@, final(x)@),
{
    softmax_in_place(x, unit)
}

/// `y` can be `n` vectors of `dim` values, each turned to its position, and what stands behind them.
pub open spec fn are_rotated<U: FloatUnit>(
    u: &U,
    x: Seq<u32>,
    n: int,
    dim: int,
    theta: u32,
    y: Seq<u32>,
) -> bool {
    &&& y.len() == x.len()
    &&& forall|p: int|
        0 <= p < n ==> is_rotated(
            u,
            x.subrange(p * dim, p * dim + dim),
            dim,
            p,
            theta,
            #[trigger] y.subrange(p * dim, p * dim + dim),
        )
    &&& y.skip(n * dim) == x.skip(n * dim)
}

fn rotate_rows<U: FloatUnit>(x: &mut Vec<u32>, n: usize, dim: usize, theta: u32, unit: &U)
    requires
        n * dim <= old(x)@.len(),
    ensures
        are_rotated(unit, old(x)@, n as int, dim as int, theta, final(x)@),
{
    let ghost start = x@;
    let size: usize = x.len();
    let mut out: Vec<u32> = Vec::new();
    let mut p: usize = 0;
    while p < n
        invariant
            p <= n,
            n * dim <= size == x@.len(),
            x@ == start,
            out@.len() == p * dim,
            forall|k: int|
                0 <= k < p ==> is_rotated(
                    unit,
                    start.subrange(k * dim, k * dim + dim),
                    dim as int,
                    k,
                    theta,
                    #[trigger] out@.subrange(k * dim, k * dim + dim),
                ),
        decreases n - p,
    {
        assert((p + 1) * dim == p * dim + dim && (p + 1) * dim <= n * dim && 0 <= p * dim)
            by (nonlinear_arith)
            requires
                p + 1 <= n,
        ;
        let mut row = copy_values(
            vstd::slice::slice_subrange(x.as_slice(), p * dim, p * dim + dim),
        );
        if dim > 0 {
            rope_heads(row.as_mut_slice(), dim, p, theta, unit);
        }
        let ghost before = out@;
        out.extend_from_slice(row.as_slice());
        proof {
            assert(out@ =~= before + row@);
            assert forall|k: int| 0 <= k <= p implies is_rotated(
                unit,
                start.subrange(k * dim, k * dim + dim),
                dim as int,
                k,
                theta,
                #[trigger] out@.subrange(k * dim, k * dim + dim),
            ) by {
                if k < p {
                    assert(0 <= k * dim && k * dim + dim <= p * dim) by (nonlinear_arith)
                        requires
                            0 <= k,
                            k + 1 <= p,
                    ;
                    assert(out@.subrange(k * dim, k * dim + dim) =~= before.subrange(
                        k * dim,
                        k * dim + dim,
                    ));
                } else {
                    assert(out@.subrange(k * dim, k * dim + dim) =~= row@);
                }
            }
        }
        p = p + 1;
    }
    let ghost full = out@;
    out.extend_from_slice(vstd::slice::slice_subrange(x.as_slice(), n * dim, size));
    proof {
        let rest = start.subrange(n * dim, size as int);
        assert(out@ =~= full + rest);
        assert(out@.skip(n * dim) =~= start.skip(n * dim));
        assert forall|k: int| 0 <= k < n implies is_rotated(
            unit,
            start.subrange(k * dim, k * dim + dim),
            dim as int,
            k,
            theta,
            #[trigger] out@.subrange(k * dim, k * dim + dim),
        ) by {
            assert(0 <= k * dim && k * dim + dim <= n * dim) by (nonlinear_arith)
                requires
                    0 <= k,
                    k + 1 <= n,
            ;
            assert(out@.subrange(k * dim, k * dim + dim) =~= full.subrange(
                k * dim,
                k * dim + dim,
            ));
        }
    }
    *x = out;
}

/// Turns the query and key heads of a sequence, each to its position.
pub fn rope_batched<U: FloatUnit>(
    q: &mut Vec<u32>,
    k: &mut Vec<u32>,
    seq_len: usize,
    head_dim: usize,
    theta: u32,
    unit: &U,
)
    requires
        seq_len == 0 || head_dim % 2 == 0,
        seq_len * head_dim <= old(q)@.len(),
        seq_len * head_dim <= old(k)@.len(),
    ensures
        are_rotated(unit, old(q)@, seq_len as int, head_dim as int, theta, final(q)@),
        are_rotated(unit, old(k)@, seq_len as int, head_dim as int, theta, final(k)@),
{
    rotate_rows(q, seq_len, head_dim, theta, unit);
    rotate_rows(k, seq_len, head_dim, theta, unit);
}

} // verus!
