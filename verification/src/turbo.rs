//! The forward pass of a whole prompt at once, which leaves the keys and values of all its
//! positions in the cache.

use vstd::prelude::*;
use crate::cache::{head_values, placed, zero_values, CacheModel, FlatKVCache};
use crate::config::HypnoConfig;
use crate::dtype::DType;
use crate::float::{
    is_double, is_double_count, is_double_product, is_double_quotient, is_double_root, is_double_sum,
    is_product, is_quotient, is_single, FloatUnit, ONE,
};
use crate::kernels::{copy_values, is_projection, is_twice_scaled, project};
use crate::loader::HypnoModel;
use crate::transformer::{
    add_values, attend, cached_keys, cached_vectors, embed, feed_forward, fits_cache, head_of,
    head_scale, heads_sized, inner_sized, is_added, is_attended, is_attention, is_embedding,
    is_feed_forward, is_head_output, is_head_scale, is_heads, is_logits, is_output, is_prepared,
    layer_fits, layer_name, layer_weights, lemma_group, lemma_head_last, lemma_head_prefix,
    logits_of, model_fits, norm_fits, own_heads, output, prepare, project_heads, shared_head,
    slices, token_fits, weights, HeadsModel, InnerModel,
};

verus! {

/// The values of one token of a prompt.
pub struct TokenState {
    pub hidden: Vec<u32>,
    pub q: Vec<u32>,
    pub k: Vec<u32>,
    pub v: Vec<u32>,
    pub found: Vec<u32>,
    pub mixed: Vec<u32>,
    pub gate: Vec<u32>,
    pub up: Vec<u32>,
    pub down: Vec<u32>,
}

impl TokenState {
    /// Queries, keys and values.
    pub open spec fn heads(self) -> HeadsModel {
        HeadsModel { q: self.q@, k: self.k@, v: self.v@ }
    }

    /// The intermediate values.
    pub open spec fn inner(self) -> InnerModel {
        InnerModel { gate: self.gate@, up: self.up@, down: self.down@ }
    }

    /// All values have the sizes of a model.
    pub open spec fn wf(self, config: HypnoConfig) -> bool {
        token_sized(config, self@)
    }
}

/// The mathematical content of a [`TokenState`].
#[verifier::ext_equal]
pub struct TokenModel {
    pub hidden: Seq<u32>,
    pub heads: HeadsModel,
    pub found: Seq<u32>,
    pub mixed: Seq<u32>,
    pub inner: InnerModel,
}

impl View for TokenState {
    type V = TokenModel;

    open spec fn view(&self) -> TokenModel {
        TokenModel {
            hidden: self.hidden@,
            heads: self.heads(),
            found: self.found@,
            mixed: self.mixed@,
            inner: self.inner(),
        }
    }
}

/// The contents of all tokens.
pub open spec fn row_models(rows: Seq<TokenState>) -> Seq<TokenModel> {
    Seq::new(rows.len(), |t: int| rows[t]@)
}

/// The values of a token have the sizes of a model.
pub open spec fn token_sized(config: HypnoConfig, row: TokenModel) -> bool {
    &&& row.hidden.len() == config.hidden_size
    &&& heads_sized(config, row.heads)
    &&& inner_sized(config, row.inner)
}

/// The products of a stored matrix and each of the vectors `x`, in the same order.
pub fn batch_matmul<U: FloatUnit>(
    w: &[u8],
    dtype: DType,
    x: &[Vec<u32>],
    n: usize,
    col_major: bool,
    unit: &U,
) -> (y: Vec<Vec<u32>>)
    requires
        forall|t: int| 0 <= t < x@.len() ==> n * (#[trigger] x@[t])@.len() <= usize::MAX,
    ensures
        y@.len() == x@.len(),
        forall|t: int| 0 <= t < x@.len() ==> (#[trigger] y@[t])@.len() == n,
        forall|t: int|
            0 <= t < x@.len() ==> is_projection(
                unit,
                dtype,
                w@,
                x@[t]@,
                col_major,
                (#[trigger] y@[t])@,
            ),
{
    let mut y: Vec<Vec<u32>> = Vec::new();
    while y.len() < x.len()
        invariant
            y@.len() <= x@.len(),
            forall|t: int| 0 <= t < x@.len() ==> n * (#[trigger] x@[t])@.len() <= usize::MAX,
            forall|t: int| 0 <= t < y@.len() ==> (#[trigger] y@[t])@.len() == n,
            forall|t: int|
                0 <= t < y@.len() ==> is_projection(
                    unit,
                    dtype,
                    w@,
                    x@[t]@,
                    col_major,
                    (#[trigger] y@[t])@,
                ),
        decreases x@.len() - y@.len(),
    {
        let t: usize = y.len();
        assert(n * x@[t as int]@.len() <= usize::MAX);
        let mut row = zero_values(n);
        project(row.as_mut_slice(), w, dtype, x[t].as_slice(), col_major, unit);
        y.push(row);
    }
    y
}

/// `r` can be the square of `x` in 64 bits, where `x` is widened for each factor.
pub open spec fn is_square<U: FloatUnit>(u: &U, x: u32, r: u64) -> bool {
    exists|a: u64, b: u64|
        {
            &&& #[trigger] is_double(u, x, a)
            &&& #[trigger] is_double(u, x, b)
            &&& is_double_product(u, a, b, r)
        }
}

/// `r` can be the sum of the squares of `xs` in 64 bits, added up from 0 in their order.
pub open spec fn is_square_sum<U: FloatUnit>(u: &U, xs: Seq<u32>, r: u64) -> bool
    decreases xs.len(),
{
    if xs.len() == 0 {
        r == 0
    } else {
        exists|before: u64, square: u64|
            {
                &&& is_square_sum(u, xs.drop_last(), before)
                &&& is_square(u, xs.last(), square)
                &&& #[trigger] is_double_sum(u, before, square, r)
            }
    }
}

/// `r` can be the root of the mean square of `xs` plus `eps`, in 64 bits.
pub open spec fn is_double_rms<U: FloatUnit>(u: &U, xs: Seq<u32>, eps: u32, r: u64) -> bool {
    exists|sum: u64, n: u64, mean: u64, small: u64, shifted: u64|
        {
            &&& #[trigger] is_square_sum(u, xs, sum)
            &&& #[trigger] is_double_count(u, xs.len() as int, n)
            &&& #[trigger] is_double_quotient(u, sum, n, mean)
            &&& #[trigger] is_double(u, eps, small)
            &&& #[trigger] is_double_sum(u, mean, small, shifted)
            &&& is_double_root(u, shifted, r)
        }
}

/// `y` can be `x`, normed by the root of its mean square in 64 bits, and weighted.
pub open spec fn is_double_normed<U: FloatUnit>(
    u: &U,
    x: Seq<u32>,
    weight: Seq<u32>,
    eps: u32,
    y: Seq<u32>,
) -> bool {
    y.len() == x.len() && exists|root: u64, rms: u32, inv: u32|
        {
            &&& #[trigger] is_double_rms(u, x, eps, root)
            &&& #[trigger] is_single(u, root, rms)
            &&& #[trigger] is_quotient(u, ONE, rms, inv)
            &&& forall|i: int|
                0 <= i < x.len() ==> is_twice_scaled(u, x[i], inv, weight[i], #[trigger] y[i])
        }
}

fn square_sum<U: FloatUnit>(x: &[u32], unit: &U) -> (sum: u64)
    ensures
        is_square_sum(unit, x@, sum),
{
    let mut sum: u64 = 0;
    let mut i: usize = 0;
    assert(x@.take(0) =~= Seq::<u32>::empty());
    while i < x.len()
        invariant
            i <= x@.len(),
            is_square_sum(unit, x@.take(i as int), sum),
        decreases x@.len() - i,
    {
        let a: u64 = unit.double(x[i]);
        let b: u64 = unit.double(x[i]);
        let square: u64 = unit.double_times(a, b);
        let next: u64 = unit.double_plus(sum, square);
        proof {
            let more = x@.take(i + 1);
            assert(more.drop_last() =~= x@.take(i as int));
            assert(is_double(unit, more.last(), a) && is_double(unit, more.last(), b));
            assert(is_square(unit, more.last(), square));
            assert(is_double_sum(unit, sum, square, next));
        }
        sum = next;
        i = i + 1;
    }
    assert(x@.take(i as int) =~= x@);
    sum
}

fn double_norm<U: FloatUnit>(x: &[u32], weight: &[u32], eps: u32, unit: &U) -> (y: Vec<u32>)
    requires
        x@.len() <= weight@.len(),
    ensures
        is_double_normed(unit, x@, weight@, eps, y@),
{
    let sum: u64 = square_sum(x, unit);
    let n: u64 = unit.double_number(x.len());
    let mean: u64 = unit.double_divide(sum, n);
    let small: u64 = unit.double(eps);
    let shifted: u64 = unit.double_plus(mean, small);
    let root: u64 = unit.double_root(shifted);
    assert(is_double_rms(unit, x@, eps, root)) by {
        assert(is_square_sum(unit, x@, sum));
        assert(is_double_count(unit, x@.len() as int, n));
        assert(is_double_quotient(unit, sum, n, mean));
        assert(is_double(unit, eps, small));
        assert(is_double_sum(unit, mean, small, shifted));
    }
    let rms: u32 = unit.single(root);
    let inv: u32 = unit.divide(ONE, rms);
    assert(is_single(unit, root, rms) && is_quotient(unit, ONE, rms, inv));
    let mut y: Vec<u32> = Vec::new();
    while y.len() < x.len()
        invariant
            y@.len() <= x@.len() <= weight@.len(),
            forall|i: int|
                0 <= i < y@.len() ==> is_twice_scaled(
                    unit,
                    x@[i],
                    inv,
                    weight@[i],
                    #[trigger] y@[i],
                ),
        decreases x@.len() - y@.len(),
    {
        let i: usize = y.len();
        let p: u32 = unit.times(x[i], inv);
        let v: u32 = unit.times(p, weight[i]);
        assert(is_product(unit, x@[i as int], inv, p));
        y.push(v);
    }
    y
}

/// Norms each of the rows `x` by the root of its mean square, which is added up in 64 bits, and
/// weights it.
pub fn batch_rms_norm<U: FloatUnit>(
    x: &[Vec<u32>],
    weight: &[u32],
    eps: u32,
    unit: &U,
) -> (y: Vec<Vec<u32>>)
    requires
        forall|t: int| 0 <= t < x@.len() ==> (#[trigger] x@[t])@.len() <= weight@.len(),
    ensures
        y@.len() == x@.len(),
        forall|t: int|
            0 <= t < x@.len() ==> is_double_normed(
                unit,
                x@[t]@,
                weight@,
                eps,
                (#[trigger] y@[t])@,
            ),
{
    let mut y: Vec<Vec<u32>> = Vec::new();
    while y.len() < x.len()
        invariant
            y@.len() <= x@.len(),
            forall|t: int| 0 <= t < x@.len() ==> (#[trigger] x@[t])@.len() <= weight@.len(),
            forall|t: int|
                0 <= t < y@.len() ==> is_double_normed(
                    unit,
                    x@[t]@,
                    weight@,
                    eps,
                    (#[trigger] y@[t])@,
                ),
        decreases x@.len() - y@.len(),
    {
        let t: usize = y.len();
        assert(x@[t as int]@.len() <= weight@.len());
        let row = double_norm(x[t].as_slice(), weight, eps, unit);
        y.push(row);
    }
    y
}

/// Queries, keys and values of all tokens.
pub open spec fn heads_of(rows: Seq<TokenModel>) -> Seq<HeadsModel> {
    Seq::new(rows.len(), |t: int| rows[t].heads)
}

/// The head of keys and values that a query head uses.
pub open spec fn kv_head(h: int, heads: int, kv_heads: int) -> int {
    if kv_heads < heads {
        h * kv_heads / heads
    } else {
        h
    }
}

/// The keys of a head of the first `n` tokens.
pub open spec fn prompt_keys(all: Seq<HeadsModel>, n: nat, head: int, dim: int) -> Seq<Seq<u32>> {
    Seq::new(n, |s: int| head_values(all[s].k, head, dim))
}

/// The values of a head of the first `n` tokens.
pub open spec fn prompt_values(all: Seq<HeadsModel>, n: nat, head: int, dim: int) -> Seq<
    Seq<u32>,
> {
    Seq::new(n, |s: int| head_values(all[s].v, head, dim))
}

/// `out` can be what query head `h` of token `t` finds: the first two tokens find their own value,
/// every other what it attends to at the tokens before it.
pub open spec fn is_prompt_head<U: FloatUnit>(
    u: &U,
    config: HypnoConfig,
    all: Seq<HeadsModel>,
    t: int,
    h: int,
    scale: u32,
    out: Seq<u32>,
) -> bool {
    let dim = config.head_dim as int;
    let kv = kv_head(h, config.num_attention_heads as int, config.num_key_value_heads as int);
    if t < 2 {
        out == head_values(all[t].v, kv, dim)
    } else {
        is_attended(
            u,
            head_values(all[t].q, h, dim),
            prompt_keys(all, t as nat, kv, dim),
            prompt_values(all, t as nat, kv, dim),
            scale,
            out,
        )
    }
}

/// `out` can be what all query heads of token `t` find, one head after another, and zeros behind
/// them.
pub open spec fn is_prompt_attention<U: FloatUnit>(
    u: &U,
    config: HypnoConfig,
    all: Seq<HeadsModel>,
    t: int,
    out: Seq<u32>,
) -> bool {
    let n = config.num_attention_heads as int;
    let dim = config.head_dim as int;
    &&& out.len() == config.hidden_size
    &&& forall|i: int| n * dim <= i < out.len() ==> #[trigger] out[i] == 0
    &&& exists|scale: u32|
        {
            &&& #[trigger] is_head_scale(u, dim, scale)
            &&& forall|h: int|
                0 <= h < n ==> is_prompt_head(
                    u,
                    config,
                    all,
                    t,
                    h,
                    scale,
                    #[trigger] head_values(out, h, dim),
                )
        }
}

proof fn lemma_kv_head(h: int, heads: int, kv_heads: int)
    requires
        0 <= h < heads,
        kv_heads > 0,
    ensures
        0 <= kv_head(h, heads, kv_heads) < kv_heads,
{
    if kv_heads < heads {
        assert(0 <= h * kv_heads < kv_heads * heads) by (nonlinear_arith)
            requires
                0 <= h < heads,
                kv_heads > 0,
        ;
        let p = h * kv_heads;
        assert(0 <= p / heads < kv_heads) by (nonlinear_arith)
            requires
                0 <= p < kv_heads * heads,
                heads > 0,
        ;
    }
}

fn find_kv_head(config: &HypnoConfig, h: usize) -> (r: usize)
    requires
        config.runnable(),
        h < config.num_attention_heads,
    ensures
        r == kv_head(
            h as int,
            config.num_attention_heads as int,
            config.num_key_value_heads as int,
        ),
        r < config.num_key_value_heads,
{
    let n: usize = config.num_attention_heads;
    let n_kv: usize = config.num_key_value_heads;
    proof {
        lemma_kv_head(h as int, n as int, n_kv as int);
        let dim = config.head_dim;
        let hidden = config.hidden_size;
        assert(h * n_kv <= (n_kv * dim) * hidden) by (nonlinear_arith)
            requires
                h <= n,
                n * dim <= hidden,
                dim >= 1,
                n_kv >= 0,
        {
            assert(n <= n * dim) by (nonlinear_arith)
                requires
                    dim >= 1,
                    n >= 0,
            ;
            assert(n_kv <= n_kv * dim) by (nonlinear_arith)
                requires
                    dim >= 1,
                    n_kv >= 0,
            ;
            assert(h * n_kv <= hidden * (n_kv * dim)) by (nonlinear_arith)
                requires
                    0 <= h <= hidden,
                    0 <= n_kv <= n_kv * dim,
            ;
        }
    }
    if n_kv < n {
        h * n_kv / n
    } else {
        h
    }
}

/// The same head of the keys, or of the values, of the first `n` tokens.
fn prompt_rows<'a>(rows: &'a [TokenState], n: usize, head: usize, dim: usize, keys: bool) -> (r: Vec<
    &'a [u32],
>)
    requires
        n <= rows@.len(),
        forall|s: int| 0 <= s < n ==> (head + 1) * dim <= (#[trigger] rows@[s]).k@.len(),
        forall|s: int| 0 <= s < n ==> (head + 1) * dim <= (#[trigger] rows@[s]).v@.len(),
    ensures
        r@.len() == n,
        forall|s: int| 0 <= s < n ==> (#[trigger] r@[s])@.len() == dim,
        slices(r@) == if keys {
            prompt_keys(heads_of(row_models(rows@)), n as nat, head as int, dim as int)
        } else {
            prompt_values(heads_of(row_models(rows@)), n as nat, head as int, dim as int)
        },
{
    let mut r: Vec<&'a [u32]> = Vec::new();
    while r.len() < n
        invariant
            r@.len() <= n <= rows@.len(),
            forall|s: int| 0 <= s < n ==> (head + 1) * dim <= (#[trigger] rows@[s]).k@.len(),
            forall|s: int| 0 <= s < n ==> (head + 1) * dim <= (#[trigger] rows@[s]).v@.len(),
            forall|s: int| 0 <= s < r@.len() ==> (#[trigger] r@[s])@.len() == dim,
            forall|s: int|
                0 <= s < r@.len() ==> (#[trigger] r@[s])@ == if keys {
                    head_values(rows@[s].k@, head as int, dim as int)
                } else {
                    head_values(rows@[s].v@, head as int, dim as int)
                },
        decreases n - r@.len(),
    {
        let s: usize = r.len();
        let row = &rows[s];
        assert((head + 1) * dim <= rows@[s as int].k@.len());
        assert((head + 1) * dim <= rows@[s as int].v@.len());
        if keys {
            r.push(head_of(row.k.as_slice(), head, dim));
        } else {
            r.push(head_of(row.v.as_slice(), head, dim));
        }
    }
    proof {
        if keys {
            assert(slices(r@) =~= prompt_keys(heads_of(row_models(rows@)), n as nat, head as int, dim as int));
        } else {
            assert(slices(r@) =~= prompt_values(heads_of(row_models(rows@)), n as nat, head as int, dim as int));
        }
    }
    r
}

/// All tokens of a prompt have the sizes of a model.
pub open spec fn rows_sized(config: HypnoConfig, rows: Seq<TokenState>) -> bool {
    forall|t: int| 0 <= t < rows.len() ==> (#[trigger] rows[t]).wf(config)
}

fn prompt_head<U: FloatUnit>(
    config: &HypnoConfig,
    rows: &[TokenState],
    t: usize,
    h: usize,
    scale: u32,
    unit: &U,
) -> (out: Vec<u32>)
    requires
        config.runnable(),
        rows_sized(*config, rows@),
        t < rows@.len(),
        h < config.num_attention_heads,
    ensures
        out@.len() == config.head_dim,
        is_prompt_head(unit, *config, heads_of(row_models(rows@)), t as int, h as int, scale, out@),
{
    let dim: usize = config.head_dim;
    let kv: usize = find_kv_head(config, h);
    let n: usize = config.num_attention_heads;
    let n_kv: usize = config.num_key_value_heads;
    assert((h + 1) * dim <= n * dim && (kv + 1) * dim <= n_kv * dim) by (nonlinear_arith)
        requires
            h + 1 <= n,
            kv + 1 <= n_kv,
    ;
    assert(rows@[t as int].wf(*config));
    if t < 2 {
        return copy_values(head_of(rows[t].v.as_slice(), kv, dim));
    }
    assert forall|s: int| 0 <= s < t implies (kv + 1) * dim <= (#[trigger] rows@[s]).k@.len() && (kv
        + 1) * dim <= rows@[s].v@.len() by {
        assert(rows@[s].wf(*config));
    }
    let keys = prompt_rows(rows, t, kv, dim, true);
    let values = prompt_rows(rows, t, kv, dim, false);
    attend(head_of(rows[t].q.as_slice(), h, dim), &keys, &values, scale, unit)
}

/// What all query heads of token `t` find.
fn prompt_attention<U: FloatUnit>(
    config: &HypnoConfig,
    rows: &[TokenState],
    t: usize,
    unit: &U,
) -> (out: Vec<u32>)
    requires
        config.runnable(),
        rows_sized(*config, rows@),
        t < rows@.len(),
    ensures
        is_prompt_attention(unit, *config, heads_of(row_models(rows@)), t as int, out@),
{
    let n: usize = config.num_attention_heads;
    let dim: usize = config.head_dim;
    let scale: u32 = head_scale(dim, unit);
    let mut out: Vec<u32> = Vec::new();
    let mut h: usize = 0;
    while h < n
        invariant
            h <= n == config.num_attention_heads,
            dim == config.head_dim,
            config.runnable(),
            rows_sized(*config, rows@),
            t < rows@.len(),
            out@.len() == h * dim,
            forall|g: int|
                0 <= g < h ==> is_prompt_head(
                    unit,
                    *config,
                    heads_of(row_models(rows@)),
                    t as int,
                    g,
                    scale,
                    #[trigger] head_values(out@, g, dim as int),
                ),
        decreases n - h,
    {
        let piece = prompt_head(config, rows, t, h, scale, unit);
        let ghost before = out@;
        out.extend_from_slice(piece.as_slice());
        proof {
            assert(out@ =~= before + piece@);
            assert forall|g: int| 0 <= g < h implies #[trigger] head_values(
                out@,
                g,
                dim as int,
            ) == head_values(before, g, dim as int) by {
                assert((g + 1) * dim <= h * dim) by (nonlinear_arith)
                    requires
                        g + 1 <= h,
                ;
                lemma_head_prefix(before, piece@, g, dim as int);
            }
            lemma_head_last(before, piece@, h as int, dim as int);
            assert((h + 1) * dim == h * dim + dim) by (nonlinear_arith);
        }
        h = h + 1;
    }
    let ghost full = out@;
    while out.len() < config.hidden_size
        invariant
            full.len() == n * dim <= out@.len() <= config.hidden_size,
            out@.take(full.len() as int) == full,
            forall|i: int| n * dim <= i < out@.len() ==> #[trigger] out@[i] == 0,
        decreases config.hidden_size - out@.len(),
    {
        let ghost before = out@;
        out.push(0);
        assert(out@.take(full.len() as int) =~= before.take(full.len() as int));
    }
    proof {
        let rest = out@.skip(full.len() as int);
        assert(out@ =~= full + rest);
        assert forall|g: int| 0 <= g < n implies #[trigger] head_values(out@, g, dim as int)
            == head_values(full, g, dim as int) by {
            assert((g + 1) * dim <= n * dim) by (nonlinear_arith)
                requires
                    g + 1 <= n,
            ;
            lemma_head_prefix(full, rest, g, dim as int);
        }
        assert(is_head_scale(unit, dim as int, scale));
    }
    out
}

/// `mixed` can be hidden values `x` with the projection of what heads found added.
pub open spec fn is_prompt_mix<U: FloatUnit>(
    u: &U,
    w: Option<(Seq<u8>, DType)>,
    found: Seq<u32>,
    by_columns: bool,
    x: Seq<u32>,
    mixed: Seq<u32>,
) -> bool {
    exists|o: Seq<u32>|
        #[trigger] is_output(u, w, found, by_columns, o) && is_added(u, x, o, mixed)
}

/// What one layer can make of token `t` of a prompt that begins at position `start`.
pub open spec fn is_prompt_row<U: FloatUnit>(
    u: &U,
    model: HypnoModel<'_>,
    config: HypnoConfig,
    layer: nat,
    by_columns: bool,
    start: int,
    before: Seq<TokenModel>,
    after: Seq<TokenModel>,
    t: int,
) -> bool {
    &&& is_heads(
        u,
        model,
        config,
        layer,
        by_columns,
        start + t,
        before[t].hidden,
        before[t].heads,
        after[t].heads,
    )
    &&& is_prompt_attention(u, config, heads_of(after), t, after[t].found)
    &&& is_prompt_mix(
        u,
        layer_weights(model, layer, "self_attn.o_proj.weight"@),
        after[t].found,
        by_columns,
        before[t].hidden,
        after[t].mixed,
    )
    &&& is_feed_forward(
        u,
        model,
        config,
        layer,
        by_columns,
        false,
        after[t].mixed,
        before[t].inner,
        after[t].inner,
        after[t].hidden,
    )
}

/// `after` can be what one layer makes of the tokens of a prompt.
pub open spec fn is_prompt_layer<U: FloatUnit>(
    u: &U,
    model: HypnoModel<'_>,
    config: HypnoConfig,
    layer: nat,
    by_columns: bool,
    start: int,
    before: Seq<TokenModel>,
    after: Seq<TokenModel>,
) -> bool {
    &&& after.len() == before.len()
    &&& forall|t: int|
        0 <= t < before.len() ==> #[trigger] is_prompt_row(
            u,
            model,
            config,
            layer,
            by_columns,
            start,
            before,
            after,
            t,
        )
}

/// The norms of a layer fit the dimensions.
pub open spec fn norms_fit(model: HypnoModel<'_>, config: HypnoConfig, layer: nat) -> bool {
    &&& norm_fits(
        layer_weights(model, layer, "input_layernorm.weight"@),
        config.hidden_size as nat,
    )
    &&& norm_fits(
        layer_weights(model, layer, "post_attention_layernorm.weight"@),
        config.hidden_size as nat,
    )
}

fn project_rows<U: FloatUnit>(
    model: &HypnoModel<'_>,
    config: &HypnoConfig,
    layer: usize,
    rows: &mut Vec<TokenState>,
    start: usize,
    by_columns: bool,
    unit: &U,
)
    requires
        config.runnable(),
        norms_fit(*model, *config, layer as nat),
        rows_sized(*config, old(rows)@),
        start + old(rows)@.len() <= usize::MAX,
    ensures
        rows_sized(*config, final(rows)@),
        final(rows)@.len() == old(rows)@.len(),
        forall|t: int|
            0 <= t < old(rows)@.len() ==> (#[trigger] final(rows)@[t]).hidden@ == old(
                rows,
            )@[t].hidden@ && final(rows)@[t].inner() == old(rows)@[t].inner() && is_heads(
                unit,
                *model,
                *config,
                layer as nat,
                by_columns,
                start + t,
                old(rows)@[t].hidden@,
                old(rows)@[t].heads(),
                final(rows)@[t].heads(),
            ),
{
    let n: usize = rows.len();
    let ghost first = rows@;
    let mut t: usize = 0;
    while t < n
        invariant
            t <= n == rows@.len() == first.len(),
            config.runnable(),
            norms_fit(*model, *config, layer as nat),
            start + n <= usize::MAX,
            rows_sized(*config, rows@),
            forall|k: int|
                0 <= k < t ==> (#[trigger] rows@[k]).hidden@ == first[k].hidden@ && rows@[k].inner()
                    == first[k].inner() && is_heads(
                    unit,
                    *model,
                    *config,
                    layer as nat,
                    by_columns,
                    start + k,
                    first[k].hidden@,
                    first[k].heads(),
                    rows@[k].heads(),
                ),
            forall|k: int| t <= k < n ==> #[trigger] rows@[k] == first[k],
        decreases n - t,
    {
        let ghost before = rows@;
        assert(before[t as int].wf(*config));
        let row = &mut rows[t];
        project_heads(
            model,
            config,
            layer,
            row.hidden.as_slice(),
            start + t,
            &mut row.q,
            &mut row.k,
            &mut row.v,
            by_columns,
            unit,
        );
        proof {
            assert forall|k: int| 0 <= k < n && k != t implies #[trigger] rows@[k] == before[k] by {
            }
        }
        t = t + 1;
    }
}

fn finish_row<U: FloatUnit>(
    model: &HypnoModel<'_>,
    config: &HypnoConfig,
    layer: usize,
    row: &mut TokenState,
    found: Vec<u32>,
    by_columns: bool,
    unit: &U,
)
    requires
        config.runnable(),
        norms_fit(*model, *config, layer as nat),
        old(row).wf(*config),
        found@.len() == config.hidden_size,
    ensures
        final(row).wf(*config),
        final(row).found@ == found@,
        final(row).heads() == old(row).heads(),
        is_prompt_mix(
            unit,
            layer_weights(*model, layer as nat, "self_attn.o_proj.weight"@),
            found@,
            by_columns,
            old(row).hidden@,
            final(row).mixed@,
        ),
        is_feed_forward(
            unit,
            *model,
            *config,
            layer as nat,
            by_columns,
            false,
            final(row).mixed@,
            old(row).inner(),
            final(row).inner(),
            final(row).hidden@,
        ),
{
    let name = layer_name(layer, "self_attn.o_proj.weight");
    let o = output(model, name.as_str(), found.as_slice(), by_columns, unit);
    row.mixed = add_values(row.hidden.as_slice(), o.as_slice(), unit);
    assert(is_output(
        unit,
        layer_weights(*model, layer as nat, "self_attn.o_proj.weight"@),
        found@,
        by_columns,
        o@,
    ));
    row.found = found;
    row.hidden =
    feed_forward(
        model,
        config,
        layer,
        row.mixed.as_slice(),
        &mut row.gate,
        &mut row.up,
        &mut row.down,
        false,
        by_columns,
        unit,
    );
}

/// Passes the tokens of a prompt through one layer.
fn prompt_layer<U: FloatUnit>(
    model: &HypnoModel<'_>,
    config: &HypnoConfig,
    layer: usize,
    rows: &mut Vec<TokenState>,
    start: usize,
    by_columns: bool,
    unit: &U,
)
    requires
        config.runnable(),
        norms_fit(*model, *config, layer as nat),
        rows_sized(*config, old(rows)@),
        start + old(rows)@.len() <= usize::MAX,
    ensures
        rows_sized(*config, final(rows)@),
        is_prompt_layer(
            unit,
            *model,
            *config,
            layer as nat,
            by_columns,
            start as int,
            row_models(old(rows)@),
            row_models(final(rows)@),
        ),
{
    let n: usize = rows.len();
    let ghost first = rows@;
    project_rows(model, config, layer, rows, start, by_columns, unit);
    let ghost turned = rows@;
    let ghost all = heads_of(row_models(rows@));
    let mut t: usize = 0;
    while t < n
        invariant
            t <= n == rows@.len() == first.len() == turned.len(),
            config.runnable(),
            norms_fit(*model, *config, layer as nat),
            rows_sized(*config, rows@),
            all == heads_of(row_models(rows@)),
            forall|k: int|
                0 <= k < n ==> (#[trigger] turned[k]).hidden@ == first[k].hidden@
                    && turned[k].inner() == first[k].inner() && is_heads(
                    unit,
                    *model,
                    *config,
                    layer as nat,
                    by_columns,
                    start + k,
                    first[k].hidden@,
                    first[k].heads(),
                    all[k],
                ),
            forall|k: int| t <= k < n ==> #[trigger] rows@[k] == turned[k],
            forall|k: int|
                0 <= k < t ==> is_prompt_attention(
                    unit,
                    *config,
                    all,
                    k,
                    (#[trigger] rows@[k]).found@,
                ) && is_prompt_mix(
                    unit,
                    layer_weights(*model, layer as nat, "self_attn.o_proj.weight"@),
                    rows@[k].found@,
                    by_columns,
                    first[k].hidden@,
                    rows@[k].mixed@,
                ) && is_feed_forward(
                    unit,
                    *model,
                    *config,
                    layer as nat,
                    by_columns,
                    false,
                    rows@[k].mixed@,
                    first[k].inner(),
                    rows@[k].inner(),
                    rows@[k].hidden@,
                ),
        decreases n - t,
    {
        let ghost before = rows@;
        assert(before[t as int].wf(*config));
        assert(turned[t as int].hidden@ == first[t as int].hidden@);
        let found = prompt_attention(config, rows.as_slice(), t, unit);
        finish_row(model, config, layer, &mut rows[t], found, by_columns, unit);
        proof {
            assert forall|k: int| 0 <= k < n && k != t implies #[trigger] rows@[k] == before[k] by {
            }
            assert(heads_of(row_models(rows@)) =~= all) by {
                assert forall|k: int| 0 <= k < n implies (#[trigger] rows@[k]).heads()
                    == before[k].heads() by {
                }
                assert forall|k: int| 0 <= k < n implies heads_of(row_models(rows@))[k] == all[k] by {
                    assert(rows@[k].heads() == before[k].heads());
                }
            }
        }
        t = t + 1;
    }
    proof {
        assert forall|k: int| 0 <= k < n implies #[trigger] is_prompt_row(
            unit,
            *model,
            *config,
            layer as nat,
            by_columns,
            start as int,
            row_models(first),
            row_models(rows@),
            k,
        ) by {
            assert(turned[k].hidden@ == first[k].hidden@);
            assert(all[k] == rows@[k].heads());
            assert(row_models(first)[k] == first[k]@ && row_models(rows@)[k] == rows@[k]@);
        }
    }
}

/// `all` with the vectors of positions from `start` on of one layer replaced by the heads of `src`,
/// one position after another.
pub open spec fn placed_rows(
    all: Seq<Seq<Seq<Seq<u32>>>>,
    layer: int,
    src: Seq<Seq<u32>>,
    start: int,
    dim: int,
) -> Seq<Seq<Seq<Seq<u32>>>> {
    Seq::new(
        all.len(),
        |l: int|
            Seq::new(
                all[l].len(),
                |h: int|
                    Seq::new(
                        all[l][h].len(),
                        |p: int|
                            if l == layer && start <= p < start + src.len() {
                                head_values(src[p - start], h, dim)
                            } else {
                                all[l][h][p]
                            },
                    ),
            ),
    )
}

/// The keys of tokens.
pub open spec fn keys_of(all: Seq<HeadsModel>) -> Seq<Seq<u32>> {
    Seq::new(all.len(), |t: int| all[t].k)
}

/// The values of tokens.
pub open spec fn values_of(all: Seq<HeadsModel>) -> Seq<Seq<u32>> {
    Seq::new(all.len(), |t: int| all[t].v)
}

/// A cache with the keys and values of a prompt stored in one layer from position `start` on.
pub open spec fn storing_prompt(
    cache: CacheModel,
    layer: int,
    all: Seq<HeadsModel>,
    start: int,
) -> CacheModel {
    CacheModel {
        keys: placed_rows(cache.keys, layer, keys_of(all), start, cache.dim as int),
        values: placed_rows(cache.values, layer, values_of(all), start, cache.dim as int),
        ..cache
    }
}

proof fn lemma_placed_row(
    all: Seq<Seq<Seq<Seq<u32>>>>,
    layer: int,
    src: Seq<Seq<u32>>,
    x: Seq<u32>,
    start: int,
    dim: int,
)
    ensures
        placed(placed_rows(all, layer, src, start, dim), layer, x, start + src.len(), dim)
            == placed_rows(all, layer, src.push(x), start, dim),
{
    let a = placed(placed_rows(all, layer, src, start, dim), layer, x, start + src.len(), dim);
    let b = placed_rows(all, layer, src.push(x), start, dim);
    assert forall|l: int| 0 <= l < a.len() implies #[trigger] a[l] == b[l] by {
        assert forall|h: int| 0 <= h < a[l].len() implies #[trigger] a[l][h] == b[l][h] by {
            assert(a[l][h] =~= b[l][h]);
        }
        assert(a[l] =~= b[l]);
    }
    assert(a =~= b);
}

/// Storing the keys and values of a prompt is storing those of its tokens one by one: one more token
/// at the position behind a prompt makes a prompt that is longer by one.
pub proof fn law_prompt_is_stored_token_by_token(
    cache: CacheModel,
    layer: int,
    all: Seq<HeadsModel>,
    x: HeadsModel,
    start: int,
)
    ensures
        storing_prompt(cache, layer, all, start).storing(layer, x.k, x.v, start + all.len())
            == storing_prompt(cache, layer, all.push(x), start),
{
    let dim = cache.dim as int;
    lemma_placed_row(cache.keys, layer, keys_of(all), x.k, start, dim);
    lemma_placed_row(cache.values, layer, values_of(all), x.v, start, dim);
    assert(keys_of(all).push(x.k) =~= keys_of(all.push(x)));
    assert(values_of(all).push(x.v) =~= values_of(all.push(x)));
}

proof fn lemma_nothing_placed(all: Seq<Seq<Seq<Seq<u32>>>>, layer: int, start: int, dim: int)
    ensures
        placed_rows(all, layer, Seq::empty(), start, dim) == all,
{
    let a = placed_rows(all, layer, Seq::empty(), start, dim);
    assert forall|l: int| 0 <= l < a.len() implies #[trigger] a[l] == all[l] by {
        assert forall|h: int| 0 <= h < a[l].len() implies #[trigger] a[l][h] == all[l][h] by {
            assert(a[l][h] =~= all[l][h]);
        }
        assert(a[l] =~= all[l]);
    }
    assert(a =~= all);
}

/// Stores the keys and values of a prompt from position `start` on.
fn store_prompt(
    config: &HypnoConfig,
    layer: usize,
    rows: &[TokenState],
    cache: &mut FlatKVCache,
    start: usize,
)
    requires
        rows_sized(*config, rows@),
        old(cache).wf(),
        fits_cache(*config, *old(cache)),
        layer < old(cache).layers(),
        start + rows@.len() <= old(cache).max_positions,
    ensures
        final(cache).wf(),
        final(cache).same_shape(*old(cache)),
        final(cache)@ == storing_prompt(
            old(cache)@,
            layer as int,
            heads_of(row_models(rows@)),
            start as int,
        ),
{
    let ghost first = cache@;
    let ghost all = heads_of(row_models(rows@));
    let n: usize = rows.len();
    let mut t: usize = 0;
    proof {
        let none = all.take(0);
        lemma_nothing_placed(first.keys, layer as int, start as int, first.dim as int);
        lemma_nothing_placed(first.values, layer as int, start as int, first.dim as int);
        assert(keys_of(none) =~= Seq::empty() && values_of(none) =~= Seq::empty());
        assert(storing_prompt(first, layer as int, none, start as int) == first);
    }
    while t < n
        invariant
            t <= n == rows@.len(),
            all == heads_of(row_models(rows@)),
            rows_sized(*config, rows@),
            cache.wf(),
            cache.same_shape(*old(cache)),
            fits_cache(*config, *cache),
            layer < cache.layers(),
            start + n <= cache.max_positions,
            cache@ == storing_prompt(first, layer as int, all.take(t as int), start as int),
        decreases n - t,
    {
        let ghost some = all.take(t as int);
        assert(rows@[t as int].wf(*config));
        let row = &rows[t];
        cache.store_at(layer, row.k.as_slice(), row.v.as_slice(), start + t);
        proof {
            law_prompt_is_stored_token_by_token(
                first,
                layer as int,
                some,
                all[t as int],
                start as int,
            );
            assert(some.push(all[t as int]) =~= all.take(t + 1));
        }
        t = t + 1;
    }
    assert(all.take(n as int) =~= all);
}

/// All of the values are 0.
pub open spec fn all_zero(x: Seq<u32>) -> bool {
    forall|i: int| 0 <= i < x.len() ==> #[trigger] x[i] == 0
}

/// `row` can be a token before the first layer: its embedding, and zeros.
pub open spec fn is_fresh<U: FloatUnit>(
    u: &U,
    model: HypnoModel<'_>,
    config: HypnoConfig,
    by_columns: bool,
    token: u32,
    row: TokenModel,
) -> bool {
    &&& token_sized(config, row)
    &&& is_embedding(
        u,
        weights(model, "model.embed_tokens.weight"@),
        by_columns,
        token as nat,
        config.hidden_size as nat,
        config.vocab_size as nat,
        row.hidden,
    )
    &&& all_zero(row.heads.q)
    &&& all_zero(row.heads.k)
    &&& all_zero(row.heads.v)
    &&& all_zero(row.inner.gate)
    &&& all_zero(row.inner.up)
    &&& all_zero(row.inner.down)
}

fn fresh_row<U: FloatUnit>(
    model: &HypnoModel<'_>,
    config: &HypnoConfig,
    token: u32,
    col_major: bool,
    unit: &U,
) -> (row: TokenState)
    requires
        config.runnable(),
        token_fits(*model, *config, col_major, token),
    ensures
        row.wf(*config),
        is_fresh(unit, *model, *config, col_major, token, row@),
{
    TokenState {
        hidden: embed(model, config, token, col_major, unit),
        q: zero_values(config.num_attention_heads * config.head_dim),
        k: zero_values(config.num_key_value_heads * config.head_dim),
        v: zero_values(config.num_key_value_heads * config.head_dim),
        found: Vec::new(),
        mixed: Vec::new(),
        gate: zero_values(config.intermediate_size),
        up: zero_values(config.intermediate_size),
        down: zero_values(config.hidden_size),
    }
}

/// Layer `l` can make state `l + 1` of state `l`.
pub open spec fn is_prompt_layer_at<U: FloatUnit>(
    u: &U,
    model: HypnoModel<'_>,
    config: HypnoConfig,
    by_columns: bool,
    start: int,
    states: Seq<Seq<TokenModel>>,
    l: int,
) -> bool {
    is_prompt_layer(u, model, config, l as nat, by_columns, start, states[l], states[l + 1])
}

/// `states` can be the tokens of a prompt, before the first layer and after each layer.
pub open spec fn is_prompt_run<U: FloatUnit>(
    u: &U,
    model: HypnoModel<'_>,
    config: HypnoConfig,
    by_columns: bool,
    start: int,
    states: Seq<Seq<TokenModel>>,
) -> bool {
    forall|l: int|
        0 <= l < states.len() - 1 ==> #[trigger] is_prompt_layer_at(
            u,
            model,
            config,
            by_columns,
            start,
            states,
            l,
        )
}

/// A cache with what the first `n` layers make of a prompt stored from position `start` on.
pub open spec fn prompt_cache(
    cache: CacheModel,
    states: Seq<Seq<TokenModel>>,
    n: nat,
    start: int,
) -> CacheModel
    decreases n,
{
    if n == 0 {
        cache
    } else {
        storing_prompt(
            prompt_cache(cache, states, (n - 1) as nat, start),
            n - 1,
            heads_of(states[n as int]),
            start,
        )
    }
}

/// `logits` can be the scores of all tokens to come behind the last token of a prompt, or zeros
/// where the prompt is empty.
pub open spec fn is_prompt_logits<U: FloatUnit>(
    u: &U,
    model: HypnoModel<'_>,
    config: HypnoConfig,
    by_columns: bool,
    rows: Seq<TokenModel>,
    logits: Seq<u32>,
) -> bool {
    if rows.len() == 0 {
        logits == Seq::new(config.vocab_size as nat, |i: int| 0u32)
    } else {
        exists|x: Seq<u32>|
            {
                &&& #[trigger] is_prepared(
                    u,
                    weights(model, "model.norm.weight"@),
                    rows.last().hidden,
                    config.rms_norm_eps,
                    x,
                )
                &&& is_logits(u, model, by_columns, config.vocab_size as nat, x, logits)
            }
    }
}

/// `states` can be the tokens of a prompt before the first layer and after each layer, the cache of
/// before being at position `start`.
pub open spec fn is_prompt_states<U: FloatUnit>(
    u: &U,
    model: HypnoModel<'_>,
    config: HypnoConfig,
    tokens: Seq<u32>,
    by_columns: bool,
    start: int,
    states: Seq<Seq<TokenModel>>,
) -> bool {
    &&& is_prompt_run(u, model, config, by_columns, start, states)
    &&& states.len() == config.num_hidden_layers + 1
    &&& states[0].len() == tokens.len()
    &&& forall|t: int|
        0 <= t < tokens.len() ==> is_fresh(
            u,
            model,
            config,
            by_columns,
            tokens[t],
            #[trigger] states[0][t],
        )
}

/// `after` and `logits` can be what a prompt makes of a cache.
pub open spec fn is_batch_forward<U: FloatUnit>(
    u: &U,
    model: HypnoModel<'_>,
    config: HypnoConfig,
    tokens: Seq<u32>,
    by_columns: bool,
    before: CacheModel,
    after: CacheModel,
    logits: Seq<u32>,
) -> bool {
    exists|states: Seq<Seq<TokenModel>>|
        {
            &&& #[trigger] is_prompt_states(
                u,
                model,
                config,
                tokens,
                by_columns,
                before.pos as int,
                states,
            )
            &&& after == prompt_cache(
                before,
                states,
                config.num_hidden_layers as nat,
                before.pos as int,
            ).at(before.pos + tokens.len())
            &&& is_prompt_logits(u, model, config, by_columns, states.last(), logits)
        }
}

/// The weights of a model fit its dimensions, as far as the pass of a prompt needs them.
pub open spec fn prompt_fits(model: HypnoModel<'_>, config: HypnoConfig) -> bool {
    &&& config.runnable()
    &&& forall|l: nat|
        l < config.num_hidden_layers ==> #[trigger] norms_fit(model, config, l)
    &&& norm_fits(weights(model, "model.norm.weight"@), config.hidden_size as nat)
}

/// A model that tokens can be passed through one by one can be given a prompt.
pub proof fn law_runnable_model_takes_prompts(model: HypnoModel<'_>, config: HypnoConfig)
    requires
        model_fits(model, config),
    ensures
        prompt_fits(model, config),
{
    assert forall|l: nat| l < config.num_hidden_layers implies #[trigger] norms_fit(
        model,
        config,
        l,
    ) by {
        assert(layer_fits(model, config, l));
    }
}

fn fresh_rows<U: FloatUnit>(
    model: &HypnoModel<'_>,
    config: &HypnoConfig,
    tokens: &[u32],
    col_major: bool,
    unit: &U,
) -> (rows: Vec<TokenState>)
    requires
        config.runnable(),
        forall|t: int| 0 <= t < tokens@.len() ==> token_fits(*model, *config, col_major, #[trigger] tokens@[t]),
    ensures
        rows@.len() == tokens@.len(),
        rows_sized(*config, rows@),
        forall|t: int|
            0 <= t < tokens@.len() ==> is_fresh(
                unit,
                *model,
                *config,
                col_major,
                tokens@[t],
                (#[trigger] rows@[t])@,
            ),
{
    let mut rows: Vec<TokenState> = Vec::new();
    while rows.len() < tokens.len()
        invariant
            config.runnable(),
            forall|t: int|
                0 <= t < tokens@.len() ==> token_fits(*model, *config, col_major, #[trigger] tokens@[t]),
            rows@.len() <= tokens@.len(),
            rows_sized(*config, rows@),
            forall|t: int|
                0 <= t < rows@.len() ==> is_fresh(
                    unit,
                    *model,
                    *config,
                    col_major,
                    tokens@[t],
                    (#[trigger] rows@[t])@,
                ),
        decreases tokens@.len() - rows@.len(),
    {
        let t: usize = rows.len();
        let row = fresh_row(model, config, tokens[t], col_major, unit);
        rows.push(row);
    }
    rows
}

proof fn lemma_more_states(
    cache: CacheModel,
    states: Seq<Seq<TokenModel>>,
    more: Seq<TokenModel>,
    n: nat,
    start: int,
)
    requires
        n < states.len(),
    ensures
        prompt_cache(cache, states.push(more), n, start) == prompt_cache(cache, states, n, start),
    decreases n,
{
    if n > 0 {
        lemma_more_states(cache, states, more, (n - 1) as nat, start);
    }
}

/// Passes all tokens of a prompt through the model. The cache then holds the keys and values of all
/// of them. Returns the scores of all tokens to come next.
pub fn batch_forward<U: FloatUnit>(
    model: &HypnoModel<'_>,
    config: &HypnoConfig,
    token_ids: &[u32],
    kv_cache: &mut FlatKVCache,
    col_major: bool,
    unit: &U,
) -> (logits: Vec<u32>)
    requires
        prompt_fits(*model, *config),
        forall|t: int|
            0 <= t < token_ids@.len() ==> token_fits(*model, *config, col_major, #[trigger] token_ids@[t]),
        old(kv_cache).wf(),
        fits_cache(*config, *old(kv_cache)),
        old(kv_cache).cache_pos + token_ids@.len() <= config.max_position_embeddings,
    ensures
        final(kv_cache).wf(),
        fits_cache(*config, *final(kv_cache)),
        is_batch_forward(
            unit,
            *model,
            *config,
            token_ids@,
            col_major,
            old(kv_cache)@,
            final(kv_cache)@,
            logits@,
        ),
        logits@.len() == config.vocab_size,
        final(kv_cache).cache_pos == old(kv_cache).cache_pos + token_ids@.len(),
{
    let ghost before = kv_cache@;
    let start: usize = kv_cache.seq_len();
    let mut rows = fresh_rows(model, config, token_ids, col_major, unit);
    let ghost mut states: Seq<Seq<TokenModel>> = seq![row_models(rows@)];
    let mut l: usize = 0;
    while l < config.num_hidden_layers
        invariant
            l <= config.num_hidden_layers,
            prompt_fits(*model, *config),
            rows_sized(*config, rows@),
            rows@.len() == token_ids@.len(),
            kv_cache.wf(),
            fits_cache(*config, *kv_cache),
            start == before.pos == kv_cache.cache_pos,
            start + token_ids@.len() <= config.max_position_embeddings,
            states.len() == l + 1,
            states.last() == row_models(rows@),
            kv_cache@ == prompt_cache(before, states, l as nat, start as int),
            states[0].len() == token_ids@.len(),
            forall|t: int|
                0 <= t < token_ids@.len() ==> is_fresh(
                    unit,
                    *model,
                    *config,
                    col_major,
                    token_ids@[t],
                    #[trigger] states[0][t],
                ),
            is_prompt_run(unit, *model, *config, col_major, start as int, states),
        decreases config.num_hidden_layers - l,
    {
        let ghost old_states = states;
        assert(norms_fit(*model, *config, l as nat));
        prompt_layer(model, config, l, &mut rows, start, col_major, unit);
        store_prompt(config, l, rows.as_slice(), kv_cache, start);
        proof {
            states = old_states.push(row_models(rows@));
            lemma_more_states(before, old_states, row_models(rows@), l as nat, start as int);
            assert forall|k: int| 0 <= k < states.len() - 1 implies #[trigger] is_prompt_layer_at(
                unit,
                *model,
                *config,
                col_major,
                start as int,
                states,
                k,
            ) by {
                if k < l {
                    assert(is_prompt_layer_at(
                        unit,
                        *model,
                        *config,
                        col_major,
                        start as int,
                        old_states,
                        k,
                    ));
                }
            }
        }
        l = l + 1;
    }
    assert(is_prompt_states(
        unit,
        *model,
        *config,
        token_ids@,
        col_major,
        start as int,
        states,
    ));
    let n: usize = rows.len();
    kv_cache.set_pos(start + n);
    if n == 0 {
        let logits = zero_values(config.vocab_size);
        assert(logits@ =~= Seq::new(config.vocab_size as nat, |i: int| 0u32));
        return logits;
    }
    assert(rows@[n - 1].wf(*config));
    let x = prepare(
        model,
        "model.norm.weight",
        rows[n - 1].hidden.as_slice(),
        config.rms_norm_eps,
        unit,
    );
    let logits = logits_of(model, config.vocab_size, x.as_slice(), col_major, unit);
    assert(is_prepared(
        unit,
        weights(*model, "model.norm.weight"@),
        states.last().last().hidden,
        config.rms_norm_eps,
        x@,
    ));
    assert(is_prompt_logits(unit, *model, *config, col_major, states.last(), logits@));
    logits
}

/// A token of a prompt on an empty cache attends, from the third token on, to just what it would
/// attend to if the tokens before it had been passed through one by one: the cache then holds
/// their keys and values, and both passes find the same.
pub proof fn law_prompt_attends_like_single_tokens<U: FloatUnit>(
    u: &U,
    config: HypnoConfig,
    layer: int,
    all: Seq<HeadsModel>,
    t: int,
    cache: CacheModel,
    out: Seq<u32>,
)
    requires
        2 <= t < all.len(),
        config.num_key_value_heads > 0,
        config.num_attention_heads % config.num_key_value_heads == 0,
        cache.pos == t,
        forall|h: int, p: int|
            0 <= h < config.num_key_value_heads && 0 <= p < t
                ==> #[trigger] cache.keys[layer][h][p] == head_values(
                all[p].k,
                h,
                config.head_dim as int,
            ),
        forall|h: int, p: int|
            0 <= h < config.num_key_value_heads && 0 <= p < t
                ==> #[trigger] cache.values[layer][h][p] == head_values(
                all[p].v,
                h,
                config.head_dim as int,
            ),
    ensures
        is_attention(u, config, layer, true, all[t], cache, out) <==> is_prompt_attention(
            u,
            config,
            all,
            t,
            out,
        ),
{
    let n = config.num_attention_heads as int;
    let n_kv = config.num_key_value_heads as int;
    let dim = config.head_dim as int;
    assert forall|h: int, scale: u32, o: Seq<u32>| 0 <= h < n implies is_head_output(
        u,
        true,
        cached_keys(cache, layer, shared_head(h, n, n_kv)),
        cached_vectors(cache, layer, shared_head(h, n, n_kv)),
        own_heads(all[t], h, shared_head(h, n, n_kv), dim),
        scale,
        o,
    ) == #[trigger] is_prompt_head(u, config, all, t, h, scale, o) by {
        let kv = shared_head(h, n, n_kv);
        lemma_group(h, n, n_kv);
        lemma_same_head(h, n, n_kv);
        assert(cached_keys(cache, layer, kv) =~= prompt_keys(all, t as nat, kv, dim)) by {
            assert forall|p: int| 0 <= p < t implies cached_keys(cache, layer, kv)[p]
                == prompt_keys(all, t as nat, kv, dim)[p] by {
                assert(cache.keys[layer][kv][p] == head_values(all[p].k, kv, dim));
            }
        }
        assert(cached_vectors(cache, layer, kv) =~= prompt_values(all, t as nat, kv, dim)) by {
            assert forall|p: int| 0 <= p < t implies cached_vectors(cache, layer, kv)[p]
                == prompt_values(all, t as nat, kv, dim)[p] by {
                assert(cache.values[layer][kv][p] == head_values(all[p].v, kv, dim));
            }
        }
    }
    if is_attention(u, config, layer, true, all[t], cache, out) {
        let scale = choose|scale: u32|
            {
                &&& #[trigger] is_head_scale(u, dim, scale)
                &&& forall|h: int|
                    0 <= h < n ==> is_head_output(
                        u,
                        true,
                        cached_keys(cache, layer, shared_head(h, n, n_kv)),
                        cached_vectors(cache, layer, shared_head(h, n, n_kv)),
                        own_heads(all[t], h, shared_head(h, n, n_kv), dim),
                        scale,
                        #[trigger] head_values(out, h, dim),
                    )
            };
        assert forall|h: int| 0 <= h < n implies is_prompt_head(
            u,
            config,
            all,
            t,
            h,
            scale,
            #[trigger] head_values(out, h, dim),
        ) by {
        }
    }
    if is_prompt_attention(u, config, all, t, out) {
        let scale = choose|scale: u32|
            {
                &&& #[trigger] is_head_scale(u, dim, scale)
                &&& forall|h: int|
                    0 <= h < n ==> is_prompt_head(
                        u,
                        config,
                        all,
                        t,
                        h,
                        scale,
                        #[trigger] head_values(out, h, dim),
                    )
            };
        assert forall|h: int| 0 <= h < n implies is_head_output(
            u,
            true,
            cached_keys(cache, layer, shared_head(h, n, n_kv)),
            cached_vectors(cache, layer, shared_head(h, n, n_kv)),
            own_heads(all[t], h, shared_head(h, n, n_kv), dim),
            scale,
            #[trigger] head_values(out, h, dim),
        ) by {
            assert(is_prompt_head(u, config, all, t, h, scale, head_values(out, h, dim)));
        }
    }
}

/// Where groups of query heads share a head, both ways to find it agree.
pub(crate) proof fn lemma_same_head(h: int, heads: int, kv_heads: int)
    requires
        0 <= h < heads,
        kv_heads > 0,
        heads % kv_heads == 0,
    ensures
        kv_head(h, heads, kv_heads) == shared_head(h, heads, kv_heads),
{
    lemma_group(h, heads, kv_heads);
    let g = heads / kv_heads;
    vstd::arithmetic::div_mod::lemma_fundamental_div_mod(heads, kv_heads);
    assert(heads == kv_heads * g);
    if kv_heads < heads {
        let q = h / g;
        let r = h % g;
        vstd::arithmetic::div_mod::lemma_fundamental_div_mod(h, g);
        assert(h * kv_heads == q * heads + r * kv_heads && 0 <= r * kv_heads < heads)
            by (nonlinear_arith)
            requires
                h == g * q + r,
                heads == kv_heads * g,
                0 <= r < g,
                kv_heads > 0,
        ;
        vstd::arithmetic::div_mod::lemma_fundamental_div_mod_converse(
            h * kv_heads,
            heads,
            q,
            r * kv_heads,
        );
    } else {
        assert(g == 1) by (nonlinear_arith)
            requires
                heads == kv_heads * g,
                heads <= kv_heads,
                g > 0,
                kv_heads > 0,
        ;
        assert(h / g == h) by (nonlinear_arith)
            requires
                g == 1,
        ;
    }
}

} // verus!
