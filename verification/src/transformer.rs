//! The forward pass of one token through a model.
//!
//! A layer norms the hidden values, projects them to queries, keys and values, lets every query
//! head attend to past positions, projects the result back and adds it to the hidden values, and
//! then does the same with the feed-forward projections.

use vstd::prelude::*;
use crate::cache::{head_values, zero_values, CacheModel, FlatKVCache};
use crate::config::HypnoConfig;
use crate::dtype::DType;
use crate::float::{
    is_count, is_dot, is_product, is_quotient, is_root, is_sum, lemma_dot_step, FloatUnit, ONE,
};
use crate::kernels::{
    copy_values, dot, held, is_normed, is_projection, is_rotated, is_silu, is_softmax, is_weight,
    project, rms_norm, rope_heads, silu_value, softmax_in_place, weight_at,
};
use crate::loader::{tensor_data, HypnoModel};
use crate::text::{decimal, decimal_digits};

verus! {

/// The name of a tensor of a layer.
pub open spec fn layer_tensor(layer: nat, part: Seq<char>) -> Seq<char> {
    "model.layers."@ + decimal_digits(layer) + "."@ + part
}

pub(crate) fn layer_name(layer: usize, part: &str) -> (s: String)
    ensures
        s@ == layer_tensor(layer as nat, part@),
{
    let mut s: String = "model.layers.".to_owned();
    s.append(decimal(layer as u64).as_str());
    s.append(".");
    s.append(part);
    s
}

/// The data of a tensor of a model.
pub open spec fn weights(model: HypnoModel<'_>, name: Seq<char>) -> Option<(Seq<u8>, DType)> {
    tensor_data(model.file(), model.tensors(), name)
}

/// The data of a tensor of a layer.
pub open spec fn layer_weights(model: HypnoModel<'_>, layer: nat, part: Seq<char>) -> Option<
    (Seq<u8>, DType),
> {
    weights(model, layer_tensor(layer, part))
}

/// Whether a norm of `n` values has a weight for each of them: a tensor of plain values has as
/// many.
pub open spec fn norm_fits(w: Option<(Seq<u8>, DType)>, n: nat) -> bool {
    match w {
        Some((data, dtype)) => dtype.quantized() || held(dtype, data.len()) >= n,
        None => true,
    }
}

/// `r` can be the weights of a norm of `n` values: those of the tensor, or ones where there is
/// none or it is quantized.
pub open spec fn is_norm_weights<U: FloatUnit>(
    u: &U,
    w: Option<(Seq<u8>, DType)>,
    n: nat,
    r: Seq<u32>,
) -> bool {
    match w {
        Some((data, dtype)) => if dtype.quantized() {
            r == Seq::new(n, |i: int| ONE)
        } else {
            &&& r.len() == held(dtype, data.len())
            &&& forall|i: int| 0 <= i < r.len() ==> is_weight(u, dtype, data, i, #[trigger] r[i])
        },
        None => r == Seq::new(n, |i: int| ONE),
    }
}

/// The weights of a norm of `len` values.
pub fn load_norm_f32<U: FloatUnit>(
    model: &HypnoModel<'_>,
    name: &str,
    len: usize,
    unit: &U,
) -> (r: Vec<u32>)
    ensures
        is_norm_weights(unit, weights(*model, name@), len as nat, r@),
{
    let mut r: Vec<u32> = Vec::new();
    if let Some((data, dtype)) = model.get_tensor_data(name) {
        if dtype == DType::FP32 || dtype == DType::FP16 {
            let size: usize = data.len();
            let count: usize = match dtype {
                DType::FP32 => size / 4,
                _ => size / 2,
            };
            while r.len() < count
                invariant
                    r@.len() <= count == held(dtype, data@.len()),
                    forall|i: int|
                        0 <= i < r@.len() ==> is_weight(unit, dtype, data@, i, #[trigger] r@[i]),
                decreases count - r@.len(),
            {
                let v: u32 = weight_at(data, dtype, r.len(), unit);
                r.push(v);
            }
            return r;
        }
    }
    while r.len() < len
        invariant
            r@.len() <= len,
            forall|i: int| 0 <= i < r@.len() ==> #[trigger] r@[i] == ONE,
        decreases len - r@.len(),
    {
        r.push(ONE);
    }
    assert(r@ =~= Seq::new(len as nat, |i: int| ONE));
    r
}

/// `y` can be `x`, normed with the weights of a tensor.
pub open spec fn is_prepared<U: FloatUnit>(
    u: &U,
    w: Option<(Seq<u8>, DType)>,
    x: Seq<u32>,
    eps: u32,
    y: Seq<u32>,
) -> bool {
    exists|r: Seq<u32>|
        #[trigger] is_norm_weights(u, w, x.len(), r) && is_normed(u, x, r, eps, y)
}

/// Norms values with the weights of a tensor.
pub(crate) fn prepare<U: FloatUnit>(
    model: &HypnoModel<'_>,
    name: &str,
    x: &[u32],
    eps: u32,
    unit: &U,
) -> (y: Vec<u32>)
    requires
        norm_fits(weights(*model, name@), x@.len()),
    ensures
        is_prepared(unit, weights(*model, name@), x@, eps, y@),
        y@.len() == x@.len(),
{
    let r = load_norm_f32(model, name, x.len(), unit);
    rms_norm(x, r.as_slice(), eps, unit)
}

/// `after` can be `x` projected by the matrix of a tensor, or what was there before where there
/// is no such tensor.
pub open spec fn is_projected<U: FloatUnit>(
    u: &U,
    w: Option<(Seq<u8>, DType)>,
    x: Seq<u32>,
    by_columns: bool,
    before: Seq<u32>,
    after: Seq<u32>,
) -> bool {
    match w {
        Some((data, dtype)) => {
            &&& after.len() == before.len()
            &&& is_projection(u, dtype, data, x, by_columns, after)
        },
        None => after == before,
    }
}

/// Projects `x` by the matrix of a tensor, if there is one.
pub(crate) fn project_with<U: FloatUnit>(
    model: &HypnoModel<'_>,
    name: &str,
    y: &mut Vec<u32>,
    x: &[u32],
    by_columns: bool,
    unit: &U,
)
    requires
        old(y)@.len() * x@.len() <= usize::MAX,
    ensures
        is_projected(unit, weights(*model, name@), x@, by_columns, old(y)@, final(y)@),
        final(y)@.len() == old(y)@.len(),
{
    if let Some((data, dtype)) = model.get_tensor_data(name) {
        project(y.as_mut_slice(), data, dtype, x, by_columns, unit);
    }
}

/// `after` can be `x` projected by the matrix of a tensor, in heads turned to position `pos`.
pub open spec fn is_turned_projection<U: FloatUnit>(
    u: &U,
    w: Option<(Seq<u8>, DType)>,
    x: Seq<u32>,
    by_columns: bool,
    config: HypnoConfig,
    pos: int,
    before: Seq<u32>,
    after: Seq<u32>,
) -> bool {
    exists|y: Seq<u32>|
        #[trigger] is_projected(u, w, x, by_columns, before, y) && is_rotated(
            u,
            y,
            config.head_dim as int,
            pos,
            config.rope_theta,
            after,
        )
}

/// Queries, keys and values of one position.
#[verifier::ext_equal]
pub struct HeadsModel {
    pub q: Seq<u32>,
    pub k: Seq<u32>,
    pub v: Seq<u32>,
}

/// `after` can be the queries, keys and values of hidden values `x` at position `pos`. What no
/// tensor gives stays as it was.
pub open spec fn is_heads<U: FloatUnit>(
    u: &U,
    model: HypnoModel<'_>,
    config: HypnoConfig,
    layer: nat,
    by_columns: bool,
    pos: int,
    x: Seq<u32>,
    before: HeadsModel,
    after: HeadsModel,
) -> bool {
    exists|y: Seq<u32>|
        {
            &&& #[trigger] is_prepared(
                u,
                layer_weights(model, layer, "input_layernorm.weight"@),
                x,
                config.rms_norm_eps,
                y,
            )
            &&& is_turned_projection(
                u,
                layer_weights(model, layer, "self_attn.q_proj.weight"@),
                y,
                by_columns,
                config,
                pos,
                before.q,
                after.q,
            )
            &&& is_turned_projection(
                u,
                layer_weights(model, layer, "self_attn.k_proj.weight"@),
                y,
                by_columns,
                config,
                pos,
                before.k,
                after.k,
            )
            &&& is_projected(
                u,
                layer_weights(model, layer, "self_attn.v_proj.weight"@),
                y,
                by_columns,
                before.v,
                after.v,
            )
        }
}

/// The sizes of queries, keys and values.
pub open spec fn heads_sized(config: HypnoConfig, h: HeadsModel) -> bool {
    &&& h.q.len() == config.num_attention_heads * config.head_dim
    &&& h.k.len() == config.num_key_value_heads * config.head_dim
    &&& h.v.len() == config.num_key_value_heads * config.head_dim
}

/// Queries, keys and values of hidden values at a position.
pub(crate) fn project_heads<U: FloatUnit>(
    model: &HypnoModel<'_>,
    config: &HypnoConfig,
    layer: usize,
    x: &[u32],
    pos: usize,
    q: &mut Vec<u32>,
    k: &mut Vec<u32>,
    v: &mut Vec<u32>,
    by_columns: bool,
    unit: &U,
)
    requires
        config.runnable(),
        x@.len() == config.hidden_size,
        norm_fits(
            layer_weights(*model, layer as nat, "input_layernorm.weight"@),
            config.hidden_size as nat,
        ),
        heads_sized(*config, HeadsModel { q: old(q)@, k: old(k)@, v: old(v)@ }),
    ensures
        heads_sized(*config, HeadsModel { q: final(q)@, k: final(k)@, v: final(v)@ }),
        is_heads(
            unit,
            *model,
            *config,
            layer as nat,
            by_columns,
            pos as int,
            x@,
            HeadsModel { q: old(q)@, k: old(k)@, v: old(v)@ },
            HeadsModel { q: final(q)@, k: final(k)@, v: final(v)@ },
        ),
{
    let norm = layer_name(layer, "input_layernorm.weight");
    let y = prepare(model, norm.as_str(), x, config.rms_norm_eps, unit);
    proof {
        config.lemma_products();
    }
    let q_name = layer_name(layer, "self_attn.q_proj.weight");
    project_with(model, q_name.as_str(), q, y.as_slice(), by_columns, unit);
    let ghost q1 = q@;
    let k_name = layer_name(layer, "self_attn.k_proj.weight");
    project_with(model, k_name.as_str(), k, y.as_slice(), by_columns, unit);
    let ghost k1 = k@;
    let v_name = layer_name(layer, "self_attn.v_proj.weight");
    project_with(model, v_name.as_str(), v, y.as_slice(), by_columns, unit);
    rope_heads(q.as_mut_slice(), config.head_dim, pos, config.rope_theta, unit);
    rope_heads(k.as_mut_slice(), config.head_dim, pos, config.rope_theta, unit);
    proof {
        assert(is_projected(
            unit,
            layer_weights(*model, layer as nat, "self_attn.q_proj.weight"@),
            y@,
            by_columns,
            old(q)@,
            q1,
        ));
        assert(is_projected(
            unit,
            layer_weights(*model, layer as nat, "self_attn.k_proj.weight"@),
            y@,
            by_columns,
            old(k)@,
            k1,
        ));
        assert(is_prepared(
            unit,
            layer_weights(*model, layer as nat, "input_layernorm.weight"@),
            x@,
            config.rms_norm_eps,
            y@,
        ));
    }
}

/// The contents of a list of vectors.
pub open spec fn slices(rows: Seq<&[u32]>) -> Seq<Seq<u32>> {
    Seq::new(rows.len(), |i: int| rows[i]@)
}

/// `r` can be one divided by the root of the size of a head.
pub open spec fn is_head_scale<U: FloatUnit>(u: &U, head_dim: int, r: u32) -> bool {
    exists|n: u32, root: u32|
        {
            &&& #[trigger] is_count(u, head_dim, n)
            &&& #[trigger] is_root(u, n, root)
            &&& is_quotient(u, ONE, root, r)
        }
}

pub(crate) fn head_scale<U: FloatUnit>(head_dim: usize, unit: &U) -> (r: u32)
    ensures
        is_head_scale(unit, head_dim as int, r),
{
    let n: u32 = unit.number(head_dim);
    let root: u32 = unit.root(n);
    let r: u32 = unit.divide(ONE, root);
    assert(is_count(unit, head_dim as int, n) && is_root(unit, n, root));
    r
}

/// `r` can be the score of a key for a query.
pub open spec fn is_score<U: FloatUnit>(
    u: &U,
    q: Seq<u32>,
    key: Seq<u32>,
    scale: u32,
    r: u32,
) -> bool {
    exists|d: u32| #[trigger] is_dot(u, q, key, d) && is_product(u, d, scale, r)
}

fn score<U: FloatUnit>(q: &[u32], key: &[u32], scale: u32, unit: &U) -> (r: u32)
    requires
        q@.len() == key@.len(),
    ensures
        is_score(unit, q@, key@, scale, r),
{
    let d: u32 = dot(q, key, q.len(), unit);
    assert(q@.take(q@.len() as int) =~= q@);
    assert(key@.take(q@.len() as int) =~= key@);
    assert(is_dot(unit, q@, key@, d));
    unit.times(d, scale)
}

/// `r` can be the scores of keys for a query.
pub open spec fn is_scores<U: FloatUnit>(
    u: &U,
    q: Seq<u32>,
    keys: Seq<Seq<u32>>,
    scale: u32,
    r: Seq<u32>,
) -> bool {
    &&& r.len() == keys.len()
    &&& forall|p: int| 0 <= p < keys.len() ==> is_score(u, q, keys[p], scale, #[trigger] r[p])
}

/// Value `d` of each of the vectors.
pub open spec fn column(rows: Seq<Seq<u32>>, d: int) -> Seq<u32> {
    Seq::new(rows.len(), |p: int| rows[p][d])
}

/// `out` can be what a query finds at positions with these keys and values: the sum of the values,
/// weighted by the softmax of the scores of the keys.
pub open spec fn is_attended<U: FloatUnit>(
    u: &U,
    q: Seq<u32>,
    keys: Seq<Seq<u32>>,
    values: Seq<Seq<u32>>,
    scale: u32,
    out: Seq<u32>,
) -> bool {
    exists|raw: Seq<u32>, share: Seq<u32>|
        {
            &&& #[trigger] is_scores(u, q, keys, scale, raw)
            &&& #[trigger] is_softmax(u, raw, share)
            &&& forall|d: int|
                0 <= d < out.len() ==> is_dot(u, share, column(values, d), #[trigger] out[d])
        }
}

fn column_dot<U: FloatUnit>(share: &[u32], values: &Vec<&[u32]>, d: usize, unit: &U) -> (s: u32)
    requires
        share@.len() == values@.len(),
        forall|p: int| 0 <= p < values@.len() ==> d < (#[trigger] values@[p])@.len(),
    ensures
        is_dot(unit, share@, column(slices(values@), d as int), s),
{
    let ghost col = column(slices(values@), d as int);
    let mut s: u32 = 0;
    let mut p: usize = 0;
    assert(share@.take(0) =~= Seq::<u32>::empty());
    while p < share.len()
        invariant
            p <= share@.len() == values@.len(),
            col == column(slices(values@), d as int),
            forall|p: int| 0 <= p < values@.len() ==> d < (#[trigger] values@[p])@.len(),
            is_dot(unit, share@.take(p as int), col.take(p as int), s),
        decreases share@.len() - p,
    {
        let x: u32 = values[p][d];
        let t: u32 = unit.times(share[p], x);
        let next: u32 = unit.plus(s, t);
        proof {
            assert(col[p as int] == x);
            lemma_dot_step(
                unit,
                share@.take(p as int),
                col.take(p as int),
                share@[p as int],
                x,
                s,
                t,
                next,
            );
            assert(share@.take(p as int).push(share@[p as int]) =~= share@.take(p + 1));
            assert(col.take(p as int).push(x) =~= col.take(p + 1));
        }
        s = next;
        p = p + 1;
    }
    assert(share@.take(p as int) =~= share@);
    assert(col.take(p as int) =~= col);
    s
}

/// What a query finds at positions with these keys and values.
pub(crate) fn attend<U: FloatUnit>(
    q: &[u32],
    keys: &Vec<&[u32]>,
    values: &Vec<&[u32]>,
    scale: u32,
    unit: &U,
) -> (out: Vec<u32>)
    requires
        keys@.len() == values@.len(),
        forall|p: int| 0 <= p < keys@.len() ==> (#[trigger] keys@[p])@.len() == q@.len(),
        forall|p: int| 0 <= p < values@.len() ==> (#[trigger] values@[p])@.len() == q@.len(),
    ensures
        out@.len() == q@.len(),
        is_attended(unit, q@, slices(keys@), slices(values@), scale, out@),
{
    let mut share: Vec<u32> = Vec::new();
    while share.len() < keys.len()
        invariant
            share@.len() <= keys@.len(),
            forall|p: int| 0 <= p < keys@.len() ==> (#[trigger] keys@[p])@.len() == q@.len(),
            forall|p: int|
                0 <= p < share@.len() ==> is_score(
                    unit,
                    q@,
                    slices(keys@)[p],
                    scale,
                    #[trigger] share@[p],
                ),
        decreases keys@.len() - share@.len(),
    {
        let r: u32 = score(q, keys[share.len()], scale, unit);
        share.push(r);
    }
    let ghost raw = share@;
    softmax_in_place(share.as_mut_slice(), unit);
    let mut out: Vec<u32> = Vec::new();
    while out.len() < q.len()
        invariant
            out@.len() <= q@.len(),
            share@.len() == values@.len(),
            forall|p: int| 0 <= p < values@.len() ==> (#[trigger] values@[p])@.len() == q@.len(),
            forall|d: int|
                0 <= d < out@.len() ==> is_dot(
                    unit,
                    share@,
                    column(slices(values@), d),
                    #[trigger] out@[d],
                ),
        decreases q@.len() - out@.len(),
    {
        let s: u32 = column_dot(share.as_slice(), values, out.len(), unit);
        out.push(s);
    }
    assert(is_scores(unit, q@, slices(keys@), scale, raw));
    assert(is_softmax(unit, raw, share@));
    out
}

/// `r` can be the weight that a query gives its own position when it attends to nothing else: one
/// where no position was counted, the softmax of its only score otherwise.
pub open spec fn is_own_share<U: FloatUnit>(
    u: &U,
    counted: bool,
    q: Seq<u32>,
    k: Seq<u32>,
    scale: u32,
    r: u32,
) -> bool {
    if counted {
        exists|s: u32, share: Seq<u32>|
            {
                &&& #[trigger] is_score(u, q, k, scale, s)
                &&& #[trigger] is_softmax(u, seq![s], share)
                &&& r == share[0]
            }
    } else {
        r == ONE
    }
}

fn own_share<U: FloatUnit>(counted: bool, q: &[u32], k: &[u32], scale: u32, unit: &U) -> (r: u32)
    requires
        q@.len() == k@.len(),
    ensures
        is_own_share(unit, counted, q@, k@, scale, r),
{
    if !counted {
        return ONE;
    }
    let s: u32 = score(q, k, scale, unit);
    let mut share: Vec<u32> = Vec::new();
    share.push(s);
    assert(share@ =~= seq![s]);
    softmax_in_place(share.as_mut_slice(), unit);
    assert(is_score(unit, q@, k@, scale, s) && is_softmax(unit, seq![s], share@));
    share[0]
}

/// `out` can be what a query head finds that attends to its own position alone.
pub open spec fn is_own_output<U: FloatUnit>(
    u: &U,
    counted: bool,
    own: HeadsModel,
    scale: u32,
    out: Seq<u32>,
) -> bool {
    exists|a: u32|
        {
            &&& #[trigger] is_own_share(u, counted, own.q, own.k, scale, a)
            &&& forall|d: int| 0 <= d < out.len() ==> is_product(u, a, own.v[d], #[trigger] out[d])
        }
}

/// `out` can be what a query head finds. With more than one past position it attends to those; else
/// to its own position alone.
pub open spec fn is_head_output<U: FloatUnit>(
    u: &U,
    cached: bool,
    keys: Seq<Seq<u32>>,
    values: Seq<Seq<u32>>,
    own: HeadsModel,
    scale: u32,
    out: Seq<u32>,
) -> bool {
    if cached && keys.len() > 1 {
        is_attended(u, own.q, keys, values, scale, out)
    } else {
        is_own_output(u, !cached || keys.len() > 0, own, scale, out)
    }
}

/// The head of keys and values that a query head uses, where a group of query heads shares one.
pub open spec fn shared_head(h: int, heads: int, kv_heads: int) -> int {
    h / (heads / kv_heads)
}

/// The keys of a head at all positions so far.
pub open spec fn cached_keys(cache: CacheModel, layer: int, head: int) -> Seq<Seq<u32>> {
    Seq::new(cache.pos, |p: int| cache.keys[layer][head][p])
}

/// The values of a head at all positions so far.
pub open spec fn cached_vectors(cache: CacheModel, layer: int, head: int) -> Seq<Seq<u32>> {
    Seq::new(cache.pos, |p: int| cache.values[layer][head][p])
}

/// Query head `h`, and the key and value head that it uses.
pub open spec fn own_heads(heads: HeadsModel, h: int, kv: int, dim: int) -> HeadsModel {
    HeadsModel {
        q: head_values(heads.q, h, dim),
        k: head_values(heads.k, kv, dim),
        v: head_values(heads.v, kv, dim),
    }
}

/// `out` can be what all query heads find, one head after another, and zeros behind them.
pub open spec fn is_attention<U: FloatUnit>(
    u: &U,
    config: HypnoConfig,
    layer: int,
    cached: bool,
    heads: HeadsModel,
    cache: CacheModel,
    out: Seq<u32>,
) -> bool {
    let n = config.num_attention_heads as int;
    let dim = config.head_dim as int;
    &&& out.len() == config.hidden_size
    &&& forall|i: int| n * dim <= i < out.len() ==> #[trigger] out[i] == 0
    &&& exists|scale: u32|
        {
            &&& #[trigger] is_head_scale(u, dim, scale)
            &&& forall|h: int|
                0 <= h < n ==> is_head_output(
                    u,
                    cached,
                    cached_keys(
                        cache,
                        layer,
                        shared_head(h, n, config.num_key_value_heads as int),
                    ),
                    cached_vectors(
                        cache,
                        layer,
                        shared_head(h, n, config.num_key_value_heads as int),
                    ),
                    own_heads(
                        heads,
                        h,
                        shared_head(h, n, config.num_key_value_heads as int),
                        dim,
                    ),
                    scale,
                    #[trigger] head_values(out, h, dim),
                )
        }
}

/// Head `h` among heads of `dim` values.
pub(crate) fn head_of<'a>(x: &'a [u32], h: usize, dim: usize) -> (r: &'a [u32])
    requires
        (h + 1) * dim <= x@.len(),
    ensures
        r@ == head_values(x@, h as int, dim as int),
        r@.len() == dim,
{
    let size: usize = x.len();
    assert((h + 1) * dim == h * dim + dim && 0 <= h * dim) by (nonlinear_arith);
    let start: usize = h * dim;
    let r = vstd::slice::slice_subrange(x, start, start + dim);
    assert(r@ =~= head_values(x@, h as int, dim as int));
    r
}

/// The vectors of `dim` values that stand in `flat` one after another.
fn rows_of<'a>(flat: &'a [u32], n: usize, dim: usize) -> (r: Vec<&'a [u32]>)
    requires
        flat@.len() == n * dim,
    ensures
        r@.len() == n,
        forall|p: int|
            0 <= p < n ==> (#[trigger] r@[p])@ == flat@.subrange(p * dim, (p + 1) * dim),
{
    let size: usize = flat.len();
    let mut r: Vec<&'a [u32]> = Vec::new();
    while r.len() < n
        invariant
            r@.len() <= n,
            flat@.len() == n * dim == size,
            forall|p: int|
                0 <= p < r@.len() ==> (#[trigger] r@[p])@ == flat@.subrange(
                    p * dim,
                    (p + 1) * dim,
                ),
        decreases n - r@.len(),
    {
        let p: usize = r.len();
        assert((p + 1) * dim == p * dim + dim && 0 <= p * dim && (p + 1) * dim <= n * dim)
            by (nonlinear_arith)
            requires
                p + 1 <= n,
        ;
        let start: usize = p * dim;
        r.push(vstd::slice::slice_subrange(flat, start, start + dim));
    }
    r
}

pub(crate) proof fn lemma_group(h: int, heads: int, kv_heads: int)
    requires
        0 <= h < heads,
        kv_heads > 0,
        heads % kv_heads == 0,
    ensures
        heads / kv_heads > 0,
        0 <= shared_head(h, heads, kv_heads) < kv_heads,
{
    let g = heads / kv_heads;
    vstd::arithmetic::div_mod::lemma_fundamental_div_mod(heads, kv_heads);
    assert(g > 0) by (nonlinear_arith)
        requires
            heads == kv_heads * g,
            heads > 0,
            kv_heads > 0,
    ;
    assert(0 <= h / g < kv_heads) by (nonlinear_arith)
        requires
            g > 0,
            0 <= h < kv_heads * g,
    ;
}

/// Heads that stand in front of something appended stay as they are.
pub(crate) proof fn lemma_head_prefix(a: Seq<u32>, b: Seq<u32>, h: int, dim: int)
    requires
        0 <= h,
        0 <= dim,
        (h + 1) * dim <= a.len(),
    ensures
        head_values(a + b, h, dim) == head_values(a, h, dim),
{
    assert((h + 1) * dim == h * dim + dim && 0 <= h * dim) by (nonlinear_arith)
        requires
            0 <= h,
            0 <= dim,
    ;
    assert(head_values(a + b, h, dim) =~= head_values(a, h, dim));
}

/// The last head of a sequence of heads.
pub(crate) proof fn lemma_head_last(a: Seq<u32>, b: Seq<u32>, h: int, dim: int)
    requires
        a.len() == h * dim,
        b.len() == dim,
    ensures
        head_values(a + b, h, dim) == b,
{
    assert(head_values(a + b, h, dim) =~= b);
}

fn head_output<U: FloatUnit>(
    cached: bool,
    keys: &Vec<&[u32]>,
    values: &Vec<&[u32]>,
    q: &[u32],
    k: &[u32],
    v: &[u32],
    scale: u32,
    unit: &U,
) -> (out: Vec<u32>)
    requires
        q@.len() == k@.len() == v@.len(),
        keys@.len() == values@.len(),
        forall|p: int| 0 <= p < keys@.len() ==> (#[trigger] keys@[p])@.len() == q@.len(),
        forall|p: int| 0 <= p < values@.len() ==> (#[trigger] values@[p])@.len() == q@.len(),
    ensures
        out@.len() == q@.len(),
        is_head_output(
            unit,
            cached,
            slices(keys@),
            slices(values@),
            HeadsModel { q: q@, k: k@, v: v@ },
            scale,
            out@,
        ),
{
    if cached && keys.len() > 1 {
        return attend(q, keys, values, scale, unit);
    }
    let counted: bool = !cached || keys.len() > 0;
    let a: u32 = own_share(counted, q, k, scale, unit);
    let mut out: Vec<u32> = Vec::new();
    while out.len() < v.len()
        invariant
            out@.len() <= v@.len(),
            forall|d: int| 0 <= d < out@.len() ==> is_product(unit, a, v@[d], #[trigger] out@[d]),
        decreases v@.len() - out@.len(),
    {
        let x: u32 = unit.times(a, v[out.len()]);
        out.push(x);
    }
    let ghost own = HeadsModel { q: q@, k: k@, v: v@ };
    assert(is_own_share(unit, counted, own.q, own.k, scale, a));
    assert(is_own_output(unit, counted, own, scale, out@));
    out
}

/// What all query heads find.
fn attention<U: FloatUnit>(
    config: &HypnoConfig,
    layer: usize,
    cached: bool,
    q: &[u32],
    k: &[u32],
    v: &[u32],
    cache: &FlatKVCache,
    unit: &U,
) -> (out: Vec<u32>)
    requires
        config.runnable(),
        config.num_attention_heads % config.num_key_value_heads == 0,
        heads_sized(*config, HeadsModel { q: q@, k: k@, v: v@ }),
        cache.wf(),
        fits_cache(*config, *cache),
        layer < cache.layers(),
        cached ==> cache.cache_pos <= cache.max_positions,
    ensures
        is_attention(
            unit,
            *config,
            layer as int,
            cached,
            HeadsModel { q: q@, k: k@, v: v@ },
            cache@,
            out@,
        ),
{
    let n: usize = config.num_attention_heads;
    let n_kv: usize = config.num_key_value_heads;
    let dim: usize = config.head_dim;
    let ghost heads = HeadsModel { q: q@, k: k@, v: v@ };
    let scale: u32 = head_scale(dim, unit);
    let mut out: Vec<u32> = Vec::new();
    let mut h: usize = 0;
    while h < n
        invariant
            h <= n,
            n == config.num_attention_heads,
            n_kv == config.num_key_value_heads,
            dim == config.head_dim,
            config.runnable(),
            n % n_kv == 0,
            heads == (HeadsModel { q: q@, k: k@, v: v@ }),
            heads_sized(*config, heads),
            cache.wf(),
            fits_cache(*config, *cache),
            layer < cache.layers(),
            cached ==> cache.cache_pos <= cache.max_positions,
            out@.len() == h * dim,
            forall|g: int|
                0 <= g < h ==> is_head_output(
                    unit,
                    cached,
                    cached_keys(
                        cache@,
                        layer as int,
                        shared_head(g, n as int, config.num_key_value_heads as int),
                    ),
                    cached_vectors(
                        cache@,
                        layer as int,
                        shared_head(g, n as int, config.num_key_value_heads as int),
                    ),
                    own_heads(
                        heads,
                        g,
                        shared_head(g, n as int, config.num_key_value_heads as int),
                        dim as int,
                    ),
                    scale,
                    #[trigger] head_values(out@, g, dim as int),
                ),
        decreases n - h,
    {
        proof {
            lemma_group(h as int, n as int, n_kv as int);
        }
        let kv: usize = h / (n / n_kv);
        assert((h + 1) * dim <= n * dim && (kv + 1) * dim <= n_kv * dim) by (nonlinear_arith)
            requires
                h + 1 <= n,
                kv + 1 <= n_kv,
        ;
        let own_q = head_of(q, h, dim);
        let own_k = head_of(k, kv, dim);
        let own_v = head_of(v, kv, dim);
        let ghost own = own_heads(heads, h as int, kv as int, dim as int);
        let piece = if cached {
            let keys = rows_of(cache.get_k_slice(layer, kv), cache.cache_pos, dim);
            let values = rows_of(cache.get_v_slice(layer, kv), cache.cache_pos, dim);
            proof {
                let ks = cached_keys(cache@, layer as int, kv as int);
                let vs = cached_vectors(cache@, layer as int, kv as int);
                assert forall|p: int| 0 <= p < keys@.len() implies (#[trigger] keys@[p])@ == ks[p] by {
                    assert(ks[p] == cache.key(layer as int, kv as int, p));
                }
                assert forall|p: int| 0 <= p < values@.len() implies (#[trigger] values@[p])@
                    == vs[p] by {
                    assert(vs[p] == cache.value(layer as int, kv as int, p));
                }
                assert(slices(keys@) =~= ks);
                assert(slices(values@) =~= vs);
            }
            head_output(cached, &keys, &values, own_q, own_k, own_v, scale, unit)
        } else {
            let none: Vec<&[u32]> = Vec::new();
            let o = head_output(cached, &none, &none, own_q, own_k, own_v, scale, unit);
            o
        };
        let ghost before = out@;
        out.extend_from_slice(piece.as_slice());
        proof {
            assert(out@ =~= before + piece@);
            assert forall|g: int| 0 <= g < h implies #[trigger] head_values(
                out@,
                g,
                dim as int,
            ) == head_values(before, g, dim as int) by {
                assert((g + 1) * dim <= h * dim) by (nonlinear_arith)
                    requires
                        g + 1 <= h,
                ;
                lemma_head_prefix(before, piece@, g, dim as int);
            }
            lemma_head_last(before, piece@, h as int, dim as int);
            assert((h + 1) * dim == h * dim + dim) by (nonlinear_arith);
        }
        h = h + 1;
    }
    let ghost full = out@;
    while out.len() < config.hidden_size
        invariant
            full.len() == n * dim <= out@.len() <= config.hidden_size,
            out@.take(full.len() as int) == full,
            forall|i: int| n * dim <= i < out@.len() ==> #[trigger] out@[i] == 0,
        decreases config.hidden_size - out@.len(),
    {
        let ghost before = out@;
        out.push(0);
        assert(out@.take(full.len() as int) =~= before.take(full.len() as int));
    }
    proof {
        let rest = out@.skip(full.len() as int);
        assert(out@ =~= full + rest);
        assert forall|g: int| 0 <= g < n implies #[trigger] head_values(out@, g, dim as int)
            == head_values(full, g, dim as int) by {
            assert((g + 1) * dim <= n * dim) by (nonlinear_arith)
                requires
                    g + 1 <= n,
            ;
            lemma_head_prefix(full, rest, g, dim as int);
        }
        assert(is_head_scale(unit, dim as int, scale));
    }
    out
}

/// A cache has the dimensions of a model.
pub open spec fn fits_cache(config: HypnoConfig, cache: FlatKVCache) -> bool {
    &&& cache.layers() == config.num_hidden_layers
    &&& cache.n_kv_heads == config.num_key_value_heads
    &&& cache.max_positions == config.max_position_embeddings
    &&& cache.head_dim == config.head_dim
}

/// `r` can be the sums of the values of `a` and `b`.
pub open spec fn is_added<U: FloatUnit>(u: &U, a: Seq<u32>, b: Seq<u32>, r: Seq<u32>) -> bool {
    &&& r.len() == a.len()
    &&& forall|i: int| 0 <= i < a.len() ==> is_sum(u, a[i], b[i], #[trigger] r[i])
}

pub(crate) fn add_values<U: FloatUnit>(a: &[u32], b: &[u32], unit: &U) -> (r: Vec<u32>)
    requires
        a@.len() == b@.len(),
    ensures
        is_added(unit, a@, b@, r@),
{
    let mut r: Vec<u32> = Vec::new();
    while r.len() < a.len()
        invariant
            r@.len() <= a@.len() == b@.len(),
            forall|i: int| 0 <= i < r@.len() ==> is_sum(unit, a@[i], b@[i], #[trigger] r@[i]),
        decreases a@.len() - r@.len(),
    {
        let i: usize = r.len();
        let x: u32 = unit.plus(a[i], b[i]);
        r.push(x);
    }
    r
}

/// `y` can be what heads found, projected by the matrix of a tensor, if there is one.
pub open spec fn is_output<U: FloatUnit>(
    u: &U,
    w: Option<(Seq<u8>, DType)>,
    x: Seq<u32>,
    by_columns: bool,
    y: Seq<u32>,
) -> bool {
    match w {
        Some((data, dtype)) => {
            &&& y.len() == x.len()
            &&& is_projection(u, dtype, data, x, by_columns, y)
        },
        None => y == x,
    }
}

/// What heads found, projected by the matrix of a tensor, if there is one.
pub(crate) fn output<U: FloatUnit>(
    model: &HypnoModel<'_>,
    name: &str,
    x: &[u32],
    by_columns: bool,
    unit: &U,
) -> (y: Vec<u32>)
    requires
        x@.len() * x@.len() <= usize::MAX,
    ensures
        y@.len() == x@.len(),
        is_output(unit, weights(*model, name@), x@, by_columns, y@),
{
    if let Some((data, dtype)) = model.get_tensor_data(name) {
        let mut y = zero_values(x.len());
        project(y.as_mut_slice(), data, dtype, x, by_columns, unit);
        return y;
    }
    copy_values(x)
}

/// The intermediate values of the feed-forward projections.
#[verifier::ext_equal]
pub struct InnerModel {
    pub gate: Seq<u32>,
    pub up: Seq<u32>,
    pub down: Seq<u32>,
}

/// `r` can be `b`, let through by gate `a`.
pub open spec fn is_gated<U: FloatUnit>(u: &U, a: u32, b: u32, r: u32) -> bool {
    exists|s: u32| #[trigger] is_silu(u, a, s) && is_product(u, s, b, r)
}

/// `r` can be the values of `b`, let through by gates `a`.
pub open spec fn is_gated_all<U: FloatUnit>(u: &U, a: Seq<u32>, b: Seq<u32>, r: Seq<u32>) -> bool {
    &&& r.len() == a.len()
    &&& forall|i: int| 0 <= i < a.len() ==> is_gated(u, a[i], b[i], #[trigger] r[i])
}

/// `after` can be the gated values, projected back. Without a matrix for that, it is the first of
/// the gated values where `copies` says so, and what was there before otherwise.
pub open spec fn is_down<U: FloatUnit>(
    u: &U,
    w: Option<(Seq<u8>, DType)>,
    gate: Seq<u32>,
    by_columns: bool,
    copies: bool,
    before: Seq<u32>,
    after: Seq<u32>,
) -> bool {
    if copies && w is None {
        after == gate.take(before.len() as int)
    } else {
        is_projected(u, w, gate, by_columns, before, after)
    }
}

/// The gates before they are weighted by their sigmoids, and what they let through.
pub open spec fn is_inner<U: FloatUnit>(
    u: &U,
    model: HypnoModel<'_>,
    layer: nat,
    by_columns: bool,
    copies: bool,
    x: Seq<u32>,
    before: InnerModel,
    after: InnerModel,
) -> bool {
    &&& exists|g: Seq<u32>|
        {
            &&& #[trigger] is_projected(
                u,
                layer_weights(model, layer, "mlp.gate_proj.weight"@),
                x,
                by_columns,
                before.gate,
                g,
            )
            &&& is_gated_all(u, g, after.up, after.gate)
        }
    &&& is_projected(
        u,
        layer_weights(model, layer, "mlp.up_proj.weight"@),
        x,
        by_columns,
        before.up,
        after.up,
    )
    &&& is_down(
        u,
        layer_weights(model, layer, "mlp.down_proj.weight"@),
        after.gate,
        by_columns,
        copies,
        before.down,
        after.down,
    )
}

/// `y` can be hidden values `x` with their feed-forward projection added.
pub open spec fn is_feed_forward<U: FloatUnit>(
    u: &U,
    model: HypnoModel<'_>,
    config: HypnoConfig,
    layer: nat,
    by_columns: bool,
    copies: bool,
    x: Seq<u32>,
    before: InnerModel,
    after: InnerModel,
    y: Seq<u32>,
) -> bool {
    &&& exists|n: Seq<u32>|
        {
            &&& #[trigger] is_prepared(
                u,
                layer_weights(model, layer, "post_attention_layernorm.weight"@),
                x,
                config.rms_norm_eps,
                n,
            )
            &&& is_inner(u, model, layer, by_columns, copies, n, before, after)
        }
    &&& is_added(u, x, after.down, y)
}

/// The sizes of the intermediate values.
pub open spec fn inner_sized(config: HypnoConfig, inner: InnerModel) -> bool {
    &&& inner.gate.len() == config.intermediate_size
    &&& inner.up.len() == config.intermediate_size
    &&& inner.down.len() == config.hidden_size
}

fn gate_values<U: FloatUnit>(gate: &mut Vec<u32>, up: &[u32], unit: &U)
    requires
        old(gate)@.len() == up@.len(),
    ensures
        is_gated_all(unit, old(gate)@, up@, final(gate)@),
{
    let n: usize = gate.len();
    let ghost start = gate@;
    let mut i: usize = 0;
    while i < n
        invariant
            i <= n == gate@.len() == start.len() == up@.len(),
            forall|k: int| 0 <= k < i ==> is_gated(unit, start[k], up@[k], #[trigger] gate@[k]),
            forall|k: int| i <= k < n ==> #[trigger] gate@[k] == start[k],
        decreases n - i,
    {
        let s: u32 = silu_value(gate[i], unit);
        let r: u32 = unit.times(s, up[i]);
        assert(is_silu(unit, start[i as int], s));
        let ghost before = gate@;
        gate[i] = r;
        assert(gate@ == before.update(i as int, r));
        i = i + 1;
    }
}

/// Hidden values with their feed-forward projection added.
pub(crate) fn feed_forward<U: FloatUnit>(
    model: &HypnoModel<'_>,
    config: &HypnoConfig,
    layer: usize,
    x: &[u32],
    gate: &mut Vec<u32>,
    up: &mut Vec<u32>,
    down: &mut Vec<u32>,
    copies: bool,
    by_columns: bool,
    unit: &U,
) -> (y: Vec<u32>)
    requires
        config.runnable(),
        x@.len() == config.hidden_size,
        norm_fits(
            layer_weights(*model, layer as nat, "post_attention_layernorm.weight"@),
            config.hidden_size as nat,
        ),
        copies ==> down_fits(*model, *config, layer as nat),
        inner_sized(*config, InnerModel { gate: old(gate)@, up: old(up)@, down: old(down)@ }),
    ensures
        inner_sized(*config, InnerModel { gate: final(gate)@, up: final(up)@, down: final(down)@ }),
        y@.len() == config.hidden_size,
        is_feed_forward(
            unit,
            *model,
            *config,
            layer as nat,
            by_columns,
            copies,
            x@,
            InnerModel { gate: old(gate)@, up: old(up)@, down: old(down)@ },
            InnerModel { gate: final(gate)@, up: final(up)@, down: final(down)@ },
            y@,
        ),
{
    let norm = layer_name(layer, "post_attention_layernorm.weight");
    let n = prepare(model, norm.as_str(), x, config.rms_norm_eps, unit);
    proof {
        config.lemma_products();
    }
    let gate_name = layer_name(layer, "mlp.gate_proj.weight");
    project_with(model, gate_name.as_str(), gate, n.as_slice(), by_columns, unit);
    let ghost g = gate@;
    let up_name = layer_name(layer, "mlp.up_proj.weight");
    project_with(model, up_name.as_str(), up, n.as_slice(), by_columns, unit);
    gate_values(gate, up.as_slice(), unit);
    let down_name = layer_name(layer, "mlp.down_proj.weight");
    if copies && model.get_tensor_data(down_name.as_str()).is_none() {
        *down = copy_values(vstd::slice::slice_subrange(gate.as_slice(), 0, config.hidden_size));
        assert(down@ =~= gate@.take(config.hidden_size as int));
    } else {
        project_with(model, down_name.as_str(), down, gate.as_slice(), by_columns, unit);
    }
    proof {
        assert(is_projected(
            unit,
            layer_weights(*model, layer as nat, "mlp.gate_proj.weight"@),
            n@,
            by_columns,
            old(gate)@,
            g,
        ));
        assert(is_prepared(
            unit,
            layer_weights(*model, layer as nat, "post_attention_layernorm.weight"@),
            x@,
            config.rms_norm_eps,
            n@,
        ));
    }
    add_values(x, down.as_slice(), unit)
}

/// The gated values can be copied where there is no matrix to project them back with.
pub open spec fn down_fits(model: HypnoModel<'_>, config: HypnoConfig, layer: nat) -> bool {
    layer_weights(model, layer, "mlp.down_proj.weight"@) is Some || config.hidden_size
        <= config.intermediate_size
}

/// The values of a forward pass, and the cache.
pub struct ForwardBuffers {
    pub hidden: Vec<u32>,
    pub residual: Vec<u32>,
    pub q: Vec<u32>,
    pub k: Vec<u32>,
    pub v: Vec<u32>,
    pub attn_output: Vec<u32>,
    pub ffn_gate: Vec<u32>,
    pub ffn_up: Vec<u32>,
    pub ffn_down: Vec<u32>,
    pub kv_cache: FlatKVCache,
}

/// The mathematical content of [`ForwardBuffers`].
#[verifier::ext_equal]
pub struct BuffersModel {
    pub hidden: Seq<u32>,
    pub residual: Seq<u32>,
    pub heads: HeadsModel,
    pub found: Seq<u32>,
    pub inner: InnerModel,
    pub cache: CacheModel,
}

impl View for ForwardBuffers {
    type V = BuffersModel;

    open spec fn view(&self) -> BuffersModel {
        BuffersModel {
            hidden: self.hidden@,
            residual: self.residual@,
            heads: self.heads(),
            found: self.attn_output@,
            inner: self.inner(),
            cache: self.kv_cache@,
        }
    }
}

impl ForwardBuffers {
    /// Queries, keys and values.
    pub open spec fn heads(self) -> HeadsModel {
        HeadsModel { q: self.q@, k: self.k@, v: self.v@ }
    }

    /// The intermediate values.
    pub open spec fn inner(self) -> InnerModel {
        InnerModel { gate: self.ffn_gate@, up: self.ffn_up@, down: self.ffn_down@ }
    }

    /// All values have the sizes of a model, and so has the cache.
    pub open spec fn wf(self, config: HypnoConfig) -> bool {
        &&& self.hidden@.len() == config.hidden_size
        &&& self.residual@.len() == config.hidden_size
        &&& self.attn_output@.len() == config.hidden_size
        &&& heads_sized(config, self.heads())
        &&& inner_sized(config, self.inner())
        &&& self.kv_cache.wf()
        &&& fits_cache(config, self.kv_cache)
    }

    /// All values are 0.
    pub open spec fn zeroed(self) -> bool {
        &&& forall|i: int| 0 <= i < self.hidden@.len() ==> #[trigger] self.hidden@[i] == 0
        &&& forall|i: int| 0 <= i < self.residual@.len() ==> #[trigger] self.residual@[i] == 0
        &&& forall|i: int| 0 <= i < self.q@.len() ==> #[trigger] self.q@[i] == 0
        &&& forall|i: int| 0 <= i < self.k@.len() ==> #[trigger] self.k@[i] == 0
        &&& forall|i: int| 0 <= i < self.v@.len() ==> #[trigger] self.v@[i] == 0
        &&& forall|i: int|
            0 <= i < self.attn_output@.len() ==> #[trigger] self.attn_output@[i] == 0
        &&& forall|i: int| 0 <= i < self.ffn_gate@.len() ==> #[trigger] self.ffn_gate@[i] == 0
        &&& forall|i: int| 0 <= i < self.ffn_up@.len() ==> #[trigger] self.ffn_up@[i] == 0
        &&& forall|i: int| 0 <= i < self.ffn_down@.len() ==> #[trigger] self.ffn_down@[i] == 0
    }

    /// Values that are all 0, and an empty cache.
    pub fn new(config: &HypnoConfig) -> (r: ForwardBuffers)
        requires
            config.num_attention_heads * config.head_dim <= usize::MAX,
            config.num_key_value_heads * config.head_dim <= usize::MAX,
            config.num_key_value_heads * config.max_position_embeddings <= usize::MAX,
            config.cached_values() <= usize::MAX,
        ensures
            r.wf(*config),
            r.zeroed(),
            r.kv_cache.cache_pos == 0,
    {
        ForwardBuffers {
            hidden: zero_values(config.hidden_size),
            residual: zero_values(config.hidden_size),
            q: zero_values(config.num_attention_heads * config.head_dim),
            k: zero_values(config.num_key_value_heads * config.head_dim),
            v: zero_values(config.num_key_value_heads * config.head_dim),
            attn_output: zero_values(config.hidden_size),
            ffn_gate: zero_values(config.intermediate_size),
            ffn_up: zero_values(config.intermediate_size),
            ffn_down: zero_values(config.hidden_size),
            kv_cache: FlatKVCache::new(
                config.num_hidden_layers,
                config.num_key_value_heads,
                config.max_position_embeddings,
                config.head_dim,
            ),
        }
    }

    /// Forgets all positions.
    pub fn reset_cache(&mut self)
        ensures
            *final(self) == (ForwardBuffers {
                kv_cache: (FlatKVCache { cache_pos: 0, ..old(self).kv_cache }),
                ..*old(self)
            }),
    {
        self.kv_cache.clear();
    }

    /// The number of values outside of the cache, with room for the scores of one head.
    pub open spec fn scratch(self) -> int {
        self.hidden@.len() + self.residual@.len() + self.q@.len() + self.k@.len() + self.v@.len()
            + self.attn_output@.len() + self.ffn_gate@.len() + self.ffn_up@.len()
            + self.ffn_down@.len() + self.kv_cache.max_positions
    }

    /// The memory of the values and of the cache, each in whole megabytes of 2^20 bytes.
    pub fn ram_mb(&self) -> (r: usize)
        requires
            self.kv_cache.wf(),
            self.scratch() * 4 <= usize::MAX,
            2 * (self.kv_cache.layers() * self.kv_cache.per_layer()) * 4 <= usize::MAX,
        ensures
            r == self.scratch() * 4 / 1_048_576 + 2 * (self.kv_cache.layers()
                * self.kv_cache.per_layer()) * 4 / 1_048_576,
    {
        let scratch: usize = self.hidden.len() + self.residual.len() + self.q.len() + self.k.len()
            + self.v.len() + self.attn_output.len() + self.ffn_gate.len() + self.ffn_up.len()
            + self.ffn_down.len() + self.kv_cache.max_positions;
        scratch * 4 / 1_048_576 + self.kv_cache.ram_mb()
    }
}

/// `mid` can be hidden values `x` with the projection of what heads found added.
pub open spec fn is_mixed<U: FloatUnit>(
    u: &U,
    w: Option<(Seq<u8>, DType)>,
    found: Seq<u32>,
    by_columns: bool,
    x: Seq<u32>,
    mid: Seq<u32>,
) -> bool {
    exists|o: Seq<u32>|
        #[trigger] is_output(u, w, found, by_columns, o) && is_added(u, o, x, mid)
}

/// The position of the current token.
pub open spec fn position(cached: bool, cache: CacheModel) -> int {
    if cached {
        cache.pos as int
    } else {
        0
    }
}

/// A cache after keys and values were stored at its position, if they were.
pub open spec fn keeping(
    cached: bool,
    layer: int,
    heads: HeadsModel,
    cache: CacheModel,
) -> CacheModel {
    if cached {
        cache.storing(layer, heads.k, heads.v, cache.pos as int)
    } else {
        cache
    }
}

/// `after` can be what one layer makes of `before`.
pub open spec fn is_layer<U: FloatUnit>(
    u: &U,
    model: HypnoModel<'_>,
    config: HypnoConfig,
    layer: nat,
    cached: bool,
    by_columns: bool,
    before: BuffersModel,
    after: BuffersModel,
) -> bool {
    &&& is_heads(
        u,
        model,
        config,
        layer,
        by_columns,
        position(cached, before.cache),
        before.hidden,
        before.heads,
        after.heads,
    )
    &&& after.cache == keeping(cached, layer as int, after.heads, before.cache)
    &&& is_attention(u, config, layer as int, cached, after.heads, after.cache, after.found)
    &&& is_mixed(
        u,
        layer_weights(model, layer, "self_attn.o_proj.weight"@),
        after.found,
        by_columns,
        before.hidden,
        after.residual,
    )
    &&& is_feed_forward(
        u,
        model,
        config,
        layer,
        by_columns,
        true,
        after.residual,
        before.inner,
        after.inner,
        after.hidden,
    )
}

/// The weights of a layer fit the dimensions.
pub open spec fn layer_fits(model: HypnoModel<'_>, config: HypnoConfig, layer: nat) -> bool {
    &&& norm_fits(
        layer_weights(model, layer, "input_layernorm.weight"@),
        config.hidden_size as nat,
    )
    &&& norm_fits(
        layer_weights(model, layer, "post_attention_layernorm.weight"@),
        config.hidden_size as nat,
    )
    &&& down_fits(model, config, layer)
}

/// Passes the hidden values through one layer.
pub fn transformer_layer_forward<U: FloatUnit>(
    model: &HypnoModel<'_>,
    config: &HypnoConfig,
    layer_idx: usize,
    buffers: &mut ForwardBuffers,
    use_kv_cache: bool,
    col_major: bool,
    unit: &U,
)
    requires
        config.runnable(),
        config.num_attention_heads % config.num_key_value_heads == 0,
        layer_idx < config.num_hidden_layers,
        layer_fits(*model, *config, layer_idx as nat),
        old(buffers).wf(*config),
        use_kv_cache ==> old(buffers).kv_cache.cache_pos < config.max_position_embeddings,
    ensures
        final(buffers).wf(*config),
        is_layer(
            unit,
            *model,
            *config,
            layer_idx as nat,
            use_kv_cache,
            col_major,
            old(buffers)@,
            final(buffers)@,
        ),
        final(buffers).kv_cache.cache_pos == old(buffers).kv_cache.cache_pos,
{
    let ghost start = *buffers;
    let pos: usize = if use_kv_cache {
        buffers.kv_cache.seq_len()
    } else {
        0
    };
    project_heads(
        model,
        config,
        layer_idx,
        buffers.hidden.as_slice(),
        pos,
        &mut buffers.q,
        &mut buffers.k,
        &mut buffers.v,
        col_major,
        unit,
    );
    if use_kv_cache {
        buffers.kv_cache.store(layer_idx, buffers.k.as_slice(), buffers.v.as_slice());
    }
    buffers.attn_output =
    attention(
        config,
        layer_idx,
        use_kv_cache,
        buffers.q.as_slice(),
        buffers.k.as_slice(),
        buffers.v.as_slice(),
        &buffers.kv_cache,
        unit,
    );
    let name = layer_name(layer_idx, "self_attn.o_proj.weight");
    let o = output(model, name.as_str(), buffers.attn_output.as_slice(), col_major, unit);
    buffers.residual = add_values(o.as_slice(), buffers.hidden.as_slice(), unit);
    assert(is_output(
        unit,
        layer_weights(*model, layer_idx as nat, "self_attn.o_proj.weight"@),
        buffers.attn_output@,
        col_major,
        o@,
    ));
    buffers.hidden =
    feed_forward(
        model,
        config,
        layer_idx,
        buffers.residual.as_slice(),
        &mut buffers.ffn_gate,
        &mut buffers.ffn_up,
        &mut buffers.ffn_down,
        true,
        col_major,
        unit,
    );
}

/// Where element `i` of the row of a token stands in a matrix of `vocab` rows of `n` elements.
pub open spec fn row_place(by_columns: bool, token: nat, n: nat, vocab: nat, i: int) -> int {
    if by_columns {
        i * vocab + token
    } else {
        token * n + i
    }
}

/// Whether the embeddings hold the row of a token.
pub open spec fn has_row(
    w: Option<(Seq<u8>, DType)>,
    by_columns: bool,
    token: nat,
    n: nat,
    vocab: nat,
) -> bool {
    match w {
        Some((data, dtype)) => if by_columns {
            n > 0 ==> token < vocab && (n - 1) * vocab + token < held(dtype, data.len())
        } else {
            held(dtype, data.len()) >= (token + 1) * n
        },
        None => true,
    }
}

/// `x` can be the embedding of a token: its row, or zeros where there are no embeddings.
pub open spec fn is_embedding<U: FloatUnit>(
    u: &U,
    w: Option<(Seq<u8>, DType)>,
    by_columns: bool,
    token: nat,
    n: nat,
    vocab: nat,
    x: Seq<u32>,
) -> bool {
    match w {
        Some((data, dtype)) => {
            &&& x.len() == n
            &&& forall|i: int|
                0 <= i < n ==> is_weight(
                    u,
                    dtype,
                    data,
                    row_place(by_columns, token, n, vocab, i),
                    #[trigger] x[i],
                )
        },
        None => x == Seq::new(n, |i: int| 0u32),
    }
}

/// The embedding of a token.
pub(crate) fn embed<U: FloatUnit>(
    model: &HypnoModel<'_>,
    config: &HypnoConfig,
    token: u32,
    by_columns: bool,
    unit: &U,
) -> (x: Vec<u32>)
    requires
        token_fits(*model, *config, by_columns, token),
    ensures
        is_embedding(
            unit,
            weights(*model, "model.embed_tokens.weight"@),
            by_columns,
            token as nat,
            config.hidden_size as nat,
            config.vocab_size as nat,
            x@,
        ),
        x@.len() == config.hidden_size,
{
    let n: usize = config.hidden_size;
    let vocab: usize = config.vocab_size;
    if let Some((data, dtype)) = model.get_tensor_data("model.embed_tokens.weight") {
        let row: usize = token as usize;
        assert((row + 1) * n == row * n + n && 0 <= row * n) by (nonlinear_arith);
        let mut x: Vec<u32> = Vec::new();
        while x.len() < n
            invariant
                x@.len() <= n,
                row == token,
                has_row(Some((data@, dtype)), by_columns, row as nat, n as nat, vocab as nat),
                if by_columns {
                    n * vocab <= usize::MAX
                } else {
                    row * n + n == (row + 1) * n && row * n + n <= usize::MAX
                },
                row * n >= 0,
                forall|i: int|
                    0 <= i < x@.len() ==> is_weight(
                        unit,
                        dtype,
                        data@,
                        row_place(by_columns, token as nat, n as nat, vocab as nat, i),
                        #[trigger] x@[i],
                    ),
            decreases n - x@.len(),
        {
            let i: usize = x.len();
            let at: usize = if by_columns {
                assert(i * vocab <= (n - 1) * vocab && (n - 1) * vocab + vocab == n * vocab && 0 <= i
                    * vocab) by (nonlinear_arith)
                    requires
                        0 <= i <= n - 1,
                        0 <= vocab,
                ;
                i * vocab + row
            } else {
                row * n + i
            };
            let v: u32 = weight_at(data, dtype, at, unit);
            x.push(v);
        }
        return x;
    }
    let x = zero_values(n);
    assert(x@ =~= Seq::new(n as nat, |i: int| 0u32));
    x
}

/// The matrix that gives the logits: that of the head, or else the embeddings.
pub open spec fn head_matrix(model: HypnoModel<'_>) -> Option<(Seq<u8>, DType)> {
    match weights(model, "lm_head.weight"@) {
        Some(w) => Some(w),
        None => weights(model, "model.embed_tokens.weight"@),
    }
}

/// `logits` can be the scores of all tokens for hidden values `x`: their products with the rows of
/// the head's matrix, or zeros where there is none.
pub open spec fn is_logits<U: FloatUnit>(
    u: &U,
    model: HypnoModel<'_>,
    by_columns: bool,
    vocab: nat,
    x: Seq<u32>,
    logits: Seq<u32>,
) -> bool {
    match head_matrix(model) {
        Some((data, dtype)) => {
            &&& logits.len() == vocab
            &&& is_projection(u, dtype, data, x, by_columns, logits)
        },
        None => logits == Seq::new(vocab, |i: int| 0u32),
    }
}

/// The scores of all tokens for hidden values.
pub(crate) fn logits_of<U: FloatUnit>(
    model: &HypnoModel<'_>,
    vocab: usize,
    x: &[u32],
    by_columns: bool,
    unit: &U,
) -> (logits: Vec<u32>)
    requires
        vocab * x@.len() <= usize::MAX,
    ensures
        is_logits(unit, *model, by_columns, vocab as nat, x@, logits@),
{
    let found = match model.get_tensor_data("lm_head.weight") {
        Some(w) => Some(w),
        None => model.get_tensor_data("model.embed_tokens.weight"),
    };
    let mut logits = zero_values(vocab);
    if let Some((data, dtype)) = found {
        project(logits.as_mut_slice(), data, dtype, x, by_columns, unit);
    } else {
        assert(logits@ =~= Seq::new(vocab as nat, |i: int| 0u32));
    }
    logits
}

/// The weights of a model fit its dimensions.
pub open spec fn model_fits(model: HypnoModel<'_>, config: HypnoConfig) -> bool {
    &&& config.runnable()
    &&& config.num_attention_heads % config.num_key_value_heads == 0
    &&& forall|l: nat|
        l < config.num_hidden_layers ==> #[trigger] layer_fits(model, config, l)
    &&& norm_fits(weights(model, "model.norm.weight"@), config.hidden_size as nat)
}

fn check_norm(model: &HypnoModel<'_>, name: &str, n: usize) -> (r: bool)
    ensures
        r == norm_fits(weights(*model, name@), n as nat),
{
    match model.get_tensor_data(name) {
        Some((data, dtype)) => match dtype {
            DType::FP32 => data.len() / 4 >= n,
            DType::FP16 => data.len() / 2 >= n,
            _ => true,
        },
        None => true,
    }
}

/// Whether the weights of a model fit its dimensions, so that tokens can be passed through it.
pub fn can_run(model: &HypnoModel<'_>, config: &HypnoConfig) -> (r: bool)
    ensures
        r == model_fits(*model, *config),
{
    if !config.is_runnable() || config.num_attention_heads % config.num_key_value_heads != 0
        || !check_norm(model, "model.norm.weight", config.hidden_size) {
        return false;
    }
    let mut l: usize = 0;
    while l < config.num_hidden_layers
        invariant
            l <= config.num_hidden_layers,
            forall|k: nat| k < l ==> #[trigger] layer_fits(*model, *config, k),
        decreases config.num_hidden_layers - l,
    {
        let input = layer_name(l, "input_layernorm.weight");
        let post = layer_name(l, "post_attention_layernorm.weight");
        let down = layer_name(l, "mlp.down_proj.weight");
        if !check_norm(model, input.as_str(), config.hidden_size) || !check_norm(
            model,
            post.as_str(),
            config.hidden_size,
        ) || (model.get_tensor_data(down.as_str()).is_none() && config.hidden_size
            > config.intermediate_size) {
            assert(!layer_fits(*model, *config, l as nat));
            return false;
        }
        l = l + 1;
    }
    true
}

/// The embeddings hold the row of a token, at an address.
pub open spec fn token_fits(
    model: HypnoModel<'_>,
    config: HypnoConfig,
    by_columns: bool,
    token: u32,
) -> bool {
    &&& has_row(
        weights(model, "model.embed_tokens.weight"@),
        by_columns,
        token as nat,
        config.hidden_size as nat,
        config.vocab_size as nat,
    )
    &&& if by_columns {
        config.hidden_size * config.vocab_size <= usize::MAX
    } else {
        (token + 1) * config.hidden_size <= usize::MAX
    }
}

/// Whether a model can embed a token.
pub fn has_token(
    model: &HypnoModel<'_>,
    config: &HypnoConfig,
    token: u32,
    col_major: bool,
) -> (r: bool)
    ensures
        r == token_fits(*model, *config, col_major, token),
{
    let n: usize = config.hidden_size;
    let hidden: u128 = n as u128;
    let rows: u128 = if col_major {
        config.vocab_size as u128
    } else {
        token as u128 + 1
    };
    assert(0 <= hidden * rows <= 0xFFFF_FFFF_FFFF_FFFF * 0x1_0000_0000_0000_0000) by (nonlinear_arith)
        requires
            0 <= rows <= 0x1_0000_0000_0000_0000,
            0 <= hidden <= 0xFFFF_FFFF_FFFF_FFFF,
    ;
    let size: u128 = hidden * rows;
    assert(rows * n == size) by (nonlinear_arith)
        requires
            size == hidden * rows,
            hidden == n,
    ;
    if size > usize::MAX as u128 {
        return false;
    }
    match model.get_tensor_data("model.embed_tokens.weight") {
        Some((data, dtype)) => {
            let len: u128 = data.len() as u128;
            let total: u128 = match dtype {
                DType::FP32 => len / 4,
                DType::FP16 => len / 2,
                DType::Q8_0 => len / 34 * 32,
                DType::Q4_0 => len / 18 * 32,
            };
            if col_major {
                if n == 0 {
                    return true;
                }
                assert((n - 1) * rows + rows == size) by (nonlinear_arith)
                    requires
                        size == hidden * rows,
                        hidden == n,
                ;
                (token as u128) < rows && size - rows + (token as u128) < total
            } else {
                total >= size
            }
        },
        None => true,
    }
}

/// `r` is `b` with other hidden values.
pub open spec fn differs_in_hidden(b: BuffersModel, r: BuffersModel) -> bool {
    &&& r.residual == b.residual
    &&& r.found == b.found
    &&& r.heads == b.heads
    &&& r.inner == b.inner
}

/// Layer `l` can make state `l + 1` of state `l`.
pub open spec fn is_layer_at<U: FloatUnit>(
    u: &U,
    model: HypnoModel<'_>,
    config: HypnoConfig,
    cached: bool,
    by_columns: bool,
    states: Seq<BuffersModel>,
    l: int,
) -> bool {
    is_layer(u, model, config, l as nat, cached, by_columns, states[l], states[l + 1])
}

/// `states` can be the values before the first layer and after each layer.
pub open spec fn is_run<U: FloatUnit>(
    u: &U,
    model: HypnoModel<'_>,
    config: HypnoConfig,
    cached: bool,
    by_columns: bool,
    states: Seq<BuffersModel>,
) -> bool {
    forall|l: int|
        0 <= l < states.len() - 1 ==> #[trigger] is_layer_at(
            u,
            model,
            config,
            cached,
            by_columns,
            states,
            l,
        )
}

/// `states` can be the values of a token before the first layer and after each layer, and `after`
/// what it leaves: the token is embedded, passed through all layers and normed, and the cache goes
/// on by one position.
pub open spec fn is_token_run<U: FloatUnit>(
    u: &U,
    model: HypnoModel<'_>,
    config: HypnoConfig,
    token: u32,
    cached: bool,
    by_columns: bool,
    before: BuffersModel,
    after: BuffersModel,
    states: Seq<BuffersModel>,
) -> bool {
    &&& is_run(u, model, config, cached, by_columns, states)
    &&& states.len() == config.num_hidden_layers + 1
    &&& is_embedding(
        u,
        weights(model, "model.embed_tokens.weight"@),
        by_columns,
        token as nat,
        config.hidden_size as nat,
        config.vocab_size as nat,
        states[0].hidden,
    )
    &&& differs_in_hidden(before, states[0])
    &&& states[0].cache == before.cache
    &&& differs_in_hidden(states.last(), after)
    &&& after.cache == if cached {
        states.last().cache.at(states.last().cache.pos + 1)
    } else {
        states.last().cache
    }
    &&& is_prepared(
        u,
        weights(model, "model.norm.weight"@),
        states.last().hidden,
        config.rms_norm_eps,
        after.hidden,
    )
}

/// `after` and `logits` can be what a token makes of `before`.
#[verifier::opaque]
pub open spec fn is_forward<U: FloatUnit>(
    u: &U,
    model: HypnoModel<'_>,
    config: HypnoConfig,
    token: u32,
    cached: bool,
    by_columns: bool,
    before: BuffersModel,
    after: BuffersModel,
    logits: Seq<u32>,
) -> bool {
    &&& exists|states: Seq<BuffersModel>|
        #[trigger] is_token_run(
            u,
            model,
            config,
            token,
            cached,
            by_columns,
            before,
            after,
            states,
        )
    &&& is_logits(u, model, by_columns, config.vocab_size as nat, after.hidden, logits)
}

/// Passes a token through the model. Returns the scores of all tokens to come next.
pub fn model_forward<U: FloatUnit>(
    model: &HypnoModel<'_>,
    config: &HypnoConfig,
    token_id: u32,
    buffers: &mut ForwardBuffers,
    use_kv_cache: bool,
    col_major: bool,
    unit: &U,
) -> (logits: Vec<u32>)
    requires
        model_fits(*model, *config),
        token_fits(*model, *config, col_major, token_id),
        old(buffers).wf(*config),
        use_kv_cache ==> old(buffers).kv_cache.cache_pos < config.max_position_embeddings,
    ensures
        final(buffers).wf(*config),
        is_forward(
            unit,
            *model,
            *config,
            token_id,
            use_kv_cache,
            col_major,
            old(buffers)@,
            final(buffers)@,
            logits@,
        ),
        logits@.len() == config.vocab_size,
        final(buffers).kv_cache.cache_pos == old(buffers).kv_cache.cache_pos + if use_kv_cache {
            1int
        } else {
            0int
        },
{
    let ghost before = buffers@;
    buffers.hidden = embed(model, config, token_id, col_major, unit);
    let ghost mut states: Seq<BuffersModel> = seq![buffers@];
    let mut l: usize = 0;
    while l < config.num_hidden_layers
        invariant
            l <= config.num_hidden_layers,
            model_fits(*model, *config),
            buffers.wf(*config),
            before.cache.pos == buffers.kv_cache.cache_pos,
            use_kv_cache ==> before.cache.pos < config.max_position_embeddings,
            states.len() == l + 1,
            states.last() == buffers@,
            states[0].hidden.len() == config.hidden_size,
            is_embedding(
                unit,
                weights(*model, "model.embed_tokens.weight"@),
                col_major,
                token_id as nat,
                config.hidden_size as nat,
                config.vocab_size as nat,
                states[0].hidden,
            ),
            differs_in_hidden(before, states[0]),
            states[0].cache == before.cache,
            is_run(unit, *model, *config, use_kv_cache, col_major, states),
        decreases config.num_hidden_layers - l,
    {
        let ghost old_states = states;
        assert(layer_fits(*model, *config, l as nat));
        transformer_layer_forward(model, config, l, buffers, use_kv_cache, col_major, unit);
        proof {
            states = old_states.push(buffers@);
            assert forall|k: int| 0 <= k < states.len() - 1 implies #[trigger] is_layer_at(
                unit,
                *model,
                *config,
                use_kv_cache,
                col_major,
                states,
                k,
            ) by {
                if k < l {
                    assert(is_layer_at(
                        unit,
                        *model,
                        *config,
                        use_kv_cache,
                        col_major,
                        old_states,
                        k,
                    ));
                }
            }
        }
        l = l + 1;
    }
    if use_kv_cache {
        buffers.kv_cache.advance();
    }
    buffers.hidden =
    prepare(model, "model.norm.weight", buffers.hidden.as_slice(), config.rms_norm_eps, unit);
    let logits = logits_of(model, config.vocab_size, buffers.hidden.as_slice(), col_major, unit);
    proof {
        reveal(is_forward);
        assert(is_token_run(
            unit,
            *model,
            *config,
            token_id,
            use_kv_cache,
            col_major,
            before,
            buffers@,
            states,
        ));
    }
    logits
}

} // verus!
