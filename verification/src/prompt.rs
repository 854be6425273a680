//! That a prompt may as well be passed through a model at once as token by token.
//!
//! Both ways add, multiply and norm the same values, but not always in the same order, and the
//! first two tokens find their own values in different ways. They agree on a unit whose arithmetic
//! does not tell these apart.

use vstd::prelude::*;
use crate::bytes::{le_value, lemma_le_value_bound, lemma_pow256_values};
use crate::cache::{head_values, placed, CacheModel};
use crate::config::HypnoConfig;
use crate::dtype::DType;
use crate::float::{
    all_numbers, is_count, is_difference, is_dot, is_exponential, is_finite, is_larger, is_nan,
    is_number, is_product, is_quotient, is_root, is_scaled, is_sum, is_wide, lemma_dot_step,
    FloatUnit, NEGATIVE_INFINITY, ONE,
};
use crate::generate::{is_fed, is_prompt_pass, is_prompt_step};
use crate::kernels::{
    bias_at, columns_present, held, is_column, is_column_result, is_inverse_rms, is_normed,
    is_maximum, is_projection, is_rotated, is_row, is_row_product, is_row_result, is_shifted_exp,
    is_softmax, is_total, is_twice_scaled, is_weight, lemma_columns, lemma_columns_bound, present,
};
use crate::loader::HypnoModel;
use crate::quant::{byte_step, nibble_step, scale_in};
use crate::transformer::{
    cached_keys, cached_vectors, head_matrix, heads_sized, inner_sized, is_added, is_attention,
    is_feed_forward, is_forward, is_gated_all, is_head_output, is_head_scale, is_heads, is_inner,
    is_layer, is_layer_at, is_logits, is_mixed, is_norm_weights, is_output, is_own_output,
    is_own_share, is_prepared, is_projected, is_score, is_token_run, is_turned_projection,
    layer_weights, lemma_group, model_fits, own_heads, shared_head, weights, BuffersModel,
    ForwardBuffers, HeadsModel, InnerModel,
};
use crate::turbo::{
    heads_of, is_batch_forward, is_fresh, is_prompt_attention, is_prompt_head, is_prompt_layer_at,
    is_prompt_logits, is_prompt_mix, is_prompt_row, is_prompt_states, keys_of,
    law_prompt_attends_like_single_tokens, lemma_same_head, placed_rows, prompt_cache, token_sized,
    values_of, TokenModel,
};

verus! {

/// The arithmetic of a unit is plain: sums of numbers do not depend on the order and are no numbers
/// if a summand is none, one times a number is that number, and the softmax of a single finite score
/// is one.
pub open spec fn is_plain<U: FloatUnit>(u: &U) -> bool {
    &&& forall|a: u32, b: u32, r: u32, s: u32|
        !is_nan(a) && !is_nan(b) && #[trigger] is_sum(u, a, b, r) && #[trigger] is_sum(u, b, a, s)
            ==> r == s
    &&& forall|a: u32, b: u32, r: u32|
        !is_nan(r) && #[trigger] is_sum(u, a, b, r) ==> !is_nan(a) && !is_nan(b)
    &&& forall|a: u32, r: u32| !is_nan(a) && #[trigger] is_product(u, ONE, a, r) ==> r == a
    &&& forall|s: u32, y: Seq<u32>|
        is_finite(s) && #[trigger] is_softmax(u, seq![s], y) ==> y == seq![ONE]
}

/// Two values have a sum.
pub open spec fn has_sum<U: FloatUnit>(u: &U, a: u32, b: u32) -> bool {
    exists|r: u32| is_sum(u, a, b, r)
}

/// Two values have a product.
pub open spec fn has_product<U: FloatUnit>(u: &U, a: u32, b: u32) -> bool {
    exists|r: u32| is_product(u, a, b, r)
}

/// Two values have a quotient.
pub open spec fn has_quotient<U: FloatUnit>(u: &U, a: u32, b: u32) -> bool {
    exists|r: u32| is_quotient(u, a, b, r)
}

/// A value has a square root.
pub open spec fn has_root<U: FloatUnit>(u: &U, a: u32) -> bool {
    exists|r: u32| is_root(u, a, r)
}

/// A value has a value of the exponential function.
pub open spec fn has_exponential<U: FloatUnit>(u: &U, a: u32) -> bool {
    exists|r: u32| is_exponential(u, a, r)
}

/// Two values have a difference.
pub open spec fn has_difference<U: FloatUnit>(u: &U, a: u32, b: u32) -> bool {
    exists|r: u32| is_difference(u, a, b, r)
}

/// Two values have a larger one.
pub open spec fn has_larger<U: FloatUnit>(u: &U, a: u32, b: u32) -> bool {
    exists|r: u32| is_larger(u, a, b, r)
}

/// A whole number has a value.
pub open spec fn has_number<U: FloatUnit>(u: &U, n: usize) -> bool {
    exists|r: u32| is_number(u, n, r)
}

/// A 16-bit value has a 32-bit one.
pub open spec fn has_wide<U: FloatUnit>(u: &U, a: u16) -> bool {
    exists|r: u32| is_wide(u, a, r)
}

/// An integer and a value have a product.
pub open spec fn has_scaled<U: FloatUnit>(u: &U, step: i32, by: u32) -> bool {
    exists|r: u32| is_scaled(u, step, by, r)
}

/// The methods of a unit return something.
pub open spec fn gives_results<U: FloatUnit>(u: &U) -> bool {
    &&& forall|a: u32, b: u32| #[trigger] has_sum(u, a, b)
    &&& forall|a: u32, b: u32| #[trigger] has_product(u, a, b)
    &&& forall|a: u32, b: u32| #[trigger] has_quotient(u, a, b)
    &&& forall|a: u32, b: u32| #[trigger] has_difference(u, a, b)
    &&& forall|a: u32, b: u32| #[trigger] has_larger(u, a, b)
    &&& forall|a: u32| #[trigger] has_root(u, a)
    &&& forall|a: u32| #[trigger] has_exponential(u, a)
    &&& forall|n: usize| #[trigger] has_number(u, n)
    &&& forall|a: u16| #[trigger] has_wide(u, a)
    &&& forall|step: i32, by: u32| #[trigger] has_scaled(u, step, by)
}

proof fn lemma_sum_exists<U: FloatUnit>(u: &U, a: u32, b: u32) -> (r: u32)
    requires
        gives_results(u),
    ensures
        is_sum(u, a, b, r),
{
    assert(has_sum(u, a, b));
    choose|r: u32| is_sum(u, a, b, r)
}

proof fn lemma_product_exists<U: FloatUnit>(u: &U, a: u32, b: u32) -> (r: u32)
    requires
        gives_results(u),
    ensures
        is_product(u, a, b, r),
{
    assert(has_product(u, a, b));
    choose|r: u32| is_product(u, a, b, r)
}

proof fn lemma_quotient_exists<U: FloatUnit>(u: &U, a: u32, b: u32) -> (r: u32)
    requires
        gives_results(u),
    ensures
        is_quotient(u, a, b, r),
{
    assert(has_quotient(u, a, b));
    choose|r: u32| is_quotient(u, a, b, r)
}

proof fn lemma_dot_exists<U: FloatUnit>(u: &U, xs: Seq<u32>, ys: Seq<u32>) -> (r: u32)
    requires
        gives_results(u),
        xs.len() == ys.len(),
    ensures
        is_dot(u, xs, ys, r),
    decreases xs.len(),
{
    if xs.len() == 0 {
        0u32
    } else {
        let before = lemma_dot_exists(u, xs.drop_last(), ys.drop_last());
        let p = lemma_product_exists(u, xs.last(), ys.last());
        let r = lemma_sum_exists(u, before, p);
        lemma_dot_step(
            u,
            xs.drop_last(),
            ys.drop_last(),
            xs.last(),
            ys.last(),
            before,
            p,
            r,
        );
        assert(xs.drop_last().push(xs.last()) =~= xs);
        assert(ys.drop_last().push(ys.last()) =~= ys);
        r
    }
}

/// A single score has a softmax.
proof fn lemma_softmax_exists<U: FloatUnit>(u: &U, s: u32) -> (y: Seq<u32>)
    requires
        gives_results(u),
    ensures
        is_softmax(u, seq![s], y),
{
    let x = seq![s];
    let none = x.drop_last();
    assert(has_larger(u, NEGATIVE_INFINITY, s));
    let top = choose|top: u32| is_larger(u, NEGATIVE_INFINITY, s, top);
    assert(is_maximum(u, none, NEGATIVE_INFINITY));
    assert(is_larger(u, NEGATIVE_INFINITY, x.last(), top));
    assert(is_maximum(u, x, top));
    assert(has_difference(u, s, top));
    let d = choose|d: u32| is_difference(u, s, top, d);
    assert(has_exponential(u, d));
    let e = choose|e: u32| is_exponential(u, d, e);
    assert(is_difference(u, s, top, d) && is_shifted_exp(u, s, top, e));
    let all = seq![e];
    let total = lemma_sum_exists(u, 0, e);
    assert(is_total(u, all.drop_last(), 0));
    assert(is_sum(u, 0, all.last(), total));
    assert(is_total(u, all, total));
    let inv = lemma_quotient_exists(u, ONE, total);
    let r = lemma_product_exists(u, e, inv);
    let y = seq![r];
    assert(is_maximum(u, x, top) && is_total(u, all, total) && is_quotient(u, ONE, total, inv));
    assert(all.len() == x.len() && y.len() == x.len());
    assert(is_shifted_exp(u, x[0], top, all[0]));
    assert(is_product(u, all[0], inv, y[0]));
    y
}

/// A layer has all projections that give queries, keys, values and intermediate values.
pub open spec fn is_complete_layer(model: HypnoModel<'_>, layer: nat) -> bool {
    &&& layer_weights(model, layer, "self_attn.q_proj.weight"@) is Some
    &&& layer_weights(model, layer, "self_attn.k_proj.weight"@) is Some
    &&& layer_weights(model, layer, "self_attn.v_proj.weight"@) is Some
    &&& layer_weights(model, layer, "mlp.gate_proj.weight"@) is Some
    &&& layer_weights(model, layer, "mlp.up_proj.weight"@) is Some
    &&& layer_weights(model, layer, "mlp.down_proj.weight"@) is Some
}

/// All layers have all of their projections.
pub open spec fn is_complete(model: HypnoModel<'_>, config: HypnoConfig) -> bool {
    forall|l: nat| l < config.num_hidden_layers ==> #[trigger] is_complete_layer(model, l)
}

/// The scores of a token's own key are finite, for all of its query heads.
pub open spec fn has_finite_scores<U: FloatUnit>(
    u: &U,
    config: HypnoConfig,
    heads: HeadsModel,
) -> bool {
    let n = config.num_attention_heads as int;
    let dim = config.head_dim as int;
    forall|h: int, scale: u32, s: u32|
        0 <= h < n && #[trigger] is_head_scale(u, dim, scale) && #[trigger] is_score(
            u,
            head_values(heads.q, h, dim),
            head_values(heads.k, shared_head(h, n, config.num_key_value_heads as int), dim),
            scale,
            s,
        ) ==> is_finite(s)
}

/// Token `t` after a layer is ordinary: its hidden values with what its heads found are numbers, and
/// where it attends to itself alone, so are its values, and its scores are finite.
pub open spec fn is_ordinary<U: FloatUnit>(
    u: &U,
    config: HypnoConfig,
    t: int,
    heads: HeadsModel,
    mixed: Seq<u32>,
) -> bool {
    &&& all_numbers(mixed)
    &&& t < 2 ==> all_numbers(heads.v)
    &&& t == 1 ==> has_finite_scores(u, config, heads)
}

/// Queries, keys and values of the same sizes.
spec fn same_sizes(a: HeadsModel, b: HeadsModel) -> bool {
    a.q.len() == b.q.len() && a.k.len() == b.k.len() && a.v.len() == b.v.len()
}

/// Intermediate values of the same sizes.
spec fn same_inner_sizes(a: InnerModel, b: InnerModel) -> bool {
    a.gate.len() == b.gate.len() && a.up.len() == b.up.len() && a.down.len() == b.down.len()
}

proof fn lemma_turned_over<U: FloatUnit>(
    u: &U,
    w: Option<(Seq<u8>, DType)>,
    x: Seq<u32>,
    by_columns: bool,
    config: HypnoConfig,
    pos: int,
    one: Seq<u32>,
    two: Seq<u32>,
    after: Seq<u32>,
)
    requires
        w is Some,
        one.len() == two.len(),
        is_turned_projection(u, w, x, by_columns, config, pos, one, after),
    ensures
        is_turned_projection(u, w, x, by_columns, config, pos, two, after),
        after.len() == one.len(),
{
    let y = choose|y: Seq<u32>|
        #[trigger] is_projected(u, w, x, by_columns, one, y) && is_rotated(
            u,
            y,
            config.head_dim as int,
            pos,
            config.rope_theta,
            after,
        );
    assert(is_projected(u, w, x, by_columns, two, y));
}

/// What was there before a layer does not matter where the layer is complete.
proof fn lemma_heads_over<U: FloatUnit>(
    u: &U,
    model: HypnoModel<'_>,
    config: HypnoConfig,
    layer: nat,
    by_columns: bool,
    pos: int,
    x: Seq<u32>,
    one: HeadsModel,
    two: HeadsModel,
    after: HeadsModel,
)
    requires
        is_complete_layer(model, layer),
        same_sizes(one, two),
        is_heads(u, model, config, layer, by_columns, pos, x, one, after),
    ensures
        is_heads(u, model, config, layer, by_columns, pos, x, two, after),
        same_sizes(one, after),
{
    let norm = layer_weights(model, layer, "input_layernorm.weight"@);
    let wq = layer_weights(model, layer, "self_attn.q_proj.weight"@);
    let wk = layer_weights(model, layer, "self_attn.k_proj.weight"@);
    let wv = layer_weights(model, layer, "self_attn.v_proj.weight"@);
    let y = choose|y: Seq<u32>|
        {
            &&& #[trigger] is_prepared(u, norm, x, config.rms_norm_eps, y)
            &&& is_turned_projection(u, wq, y, by_columns, config, pos, one.q, after.q)
            &&& is_turned_projection(u, wk, y, by_columns, config, pos, one.k, after.k)
            &&& is_projected(u, wv, y, by_columns, one.v, after.v)
        };
    lemma_turned_over(u, wq, y, by_columns, config, pos, one.q, two.q, after.q);
    lemma_turned_over(u, wk, y, by_columns, config, pos, one.k, two.k, after.k);
    assert(is_prepared(u, norm, x, config.rms_norm_eps, y));
}

proof fn lemma_inner_over<U: FloatUnit>(
    u: &U,
    model: HypnoModel<'_>,
    config: HypnoConfig,
    layer: nat,
    by_columns: bool,
    copies: bool,
    x: Seq<u32>,
    one: InnerModel,
    two: InnerModel,
    after: InnerModel,
    y: Seq<u32>,
)
    requires
        is_complete_layer(model, layer),
        same_inner_sizes(one, two),
        is_feed_forward(u, model, config, layer, by_columns, copies, x, one, after, y),
    ensures
        is_feed_forward(u, model, config, layer, by_columns, !copies, x, two, after, y),
        same_inner_sizes(one, after),
        y.len() == x.len(),
{
    let norm = layer_weights(model, layer, "post_attention_layernorm.weight"@);
    let n = choose|n: Seq<u32>|
        {
            &&& #[trigger] is_prepared(u, norm, x, config.rms_norm_eps, n)
            &&& is_inner(u, model, layer, by_columns, copies, n, one, after)
        };
    let wg = layer_weights(model, layer, "mlp.gate_proj.weight"@);
    let g = choose|g: Seq<u32>|
        {
            &&& #[trigger] is_projected(u, wg, n, by_columns, one.gate, g)
            &&& is_gated_all(u, g, after.up, after.gate)
        };
    assert(is_projected(u, wg, n, by_columns, two.gate, g));
    assert(is_inner(u, model, layer, by_columns, !copies, n, two, after));
    assert(is_prepared(u, norm, x, config.rms_norm_eps, n));
}

proof fn lemma_sum_turned<U: FloatUnit>(u: &U, a: u32, b: u32, r: u32)
    requires
        is_plain(u),
        gives_results(u),
        !is_nan(r),
        is_sum(u, a, b, r),
    ensures
        is_sum(u, b, a, r),
{
    let s = lemma_sum_exists(u, b, a);
}

/// Heads find the same, and the sum with it does not depend on the order.
proof fn lemma_mix<U: FloatUnit>(
    u: &U,
    w: Option<(Seq<u8>, DType)>,
    found: Seq<u32>,
    by_columns: bool,
    x: Seq<u32>,
    mixed: Seq<u32>,
)
    requires
        is_plain(u),
        gives_results(u),
        all_numbers(mixed),
        found.len() == x.len(),
    ensures
        is_mixed(u, w, found, by_columns, x, mixed) <==> is_prompt_mix(
            u,
            w,
            found,
            by_columns,
            x,
            mixed,
        ),
{
    if is_mixed(u, w, found, by_columns, x, mixed) {
        let o = choose|o: Seq<u32>|
            #[trigger] is_output(u, w, found, by_columns, o) && is_added(u, o, x, mixed);
        assert forall|i: int| 0 <= i < x.len() implies is_sum(u, x[i], o[i], #[trigger] mixed[i]) by {
            lemma_sum_turned(u, o[i], x[i], mixed[i]);
        }
        assert(is_output(u, w, found, by_columns, o) && is_added(u, x, o, mixed));
    }
    if is_prompt_mix(u, w, found, by_columns, x, mixed) {
        let o = choose|o: Seq<u32>|
            #[trigger] is_output(u, w, found, by_columns, o) && is_added(u, x, o, mixed);
        assert forall|i: int| 0 <= i < o.len() implies is_sum(u, o[i], x[i], #[trigger] mixed[i]) by {
            lemma_sum_turned(u, x[i], o[i], mixed[i]);
        }
        assert(is_output(u, w, found, by_columns, o) && is_added(u, o, x, mixed));
    }
}

/// The cache holds the keys and values of the first `t` tokens in one layer.
spec fn holds_tokens(
    config: HypnoConfig,
    cache: CacheModel,
    layer: int,
    all: Seq<HeadsModel>,
    t: int,
) -> bool {
    &&& cache.pos == t
    &&& forall|h: int, p: int|
        0 <= h < config.num_key_value_heads && 0 <= p < t ==> #[trigger] cache.keys[layer][h][p]
            == head_values(all[p].k, h, config.head_dim as int)
    &&& forall|h: int, p: int|
        0 <= h < config.num_key_value_heads && 0 <= p < t ==> #[trigger] cache.values[layer][h][p]
            == head_values(all[p].v, h, config.head_dim as int)
}

/// A query that attends to its own position alone finds the value there.
proof fn lemma_own_value<U: FloatUnit>(
    u: &U,
    counted: bool,
    own: HeadsModel,
    scale: u32,
    out: Seq<u32>,
)
    requires
        is_plain(u),
        all_numbers(own.v),
        counted ==> forall|s: u32| #[trigger] is_score(u, own.q, own.k, scale, s) ==> is_finite(s),
        out.len() == own.v.len(),
        is_own_output(u, counted, own, scale, out),
    ensures
        out == own.v,
{
    let a = choose|a: u32|
        {
            &&& #[trigger] is_own_share(u, counted, own.q, own.k, scale, a)
            &&& forall|d: int| 0 <= d < out.len() ==> is_product(u, a, own.v[d], #[trigger] out[d])
        };
    assert(a == ONE);
    assert forall|d: int| 0 <= d < out.len() implies #[trigger] out[d] == own.v[d] by {
        assert(is_product(u, ONE, own.v[d], out[d]));
    }
    assert(out =~= own.v);
}

/// A head of numbers is of numbers.
proof fn lemma_own_numbers(config: HypnoConfig, heads: HeadsModel, h: int, kv: int)
    requires
        heads_sized(config, heads),
        all_numbers(heads.v),
        0 <= h < config.num_attention_heads,
        config.num_key_value_heads > 0,
        config.num_attention_heads % config.num_key_value_heads == 0,
        kv == shared_head(
            h,
            config.num_attention_heads as int,
            config.num_key_value_heads as int,
        ),
    ensures
        all_numbers(own_heads(heads, h, kv, config.head_dim as int).v),
{
    let dim = config.head_dim as int;
    let n_kv = config.num_key_value_heads as int;
    lemma_group(h, config.num_attention_heads as int, n_kv);
    let own = head_values(heads.v, kv, dim);
    assert forall|d: int| 0 <= d < own.len() implies !is_nan(#[trigger] own[d]) by {
        assert(0 <= kv * dim + d < n_kv * dim) by (nonlinear_arith)
            requires
                0 <= kv,
                kv + 1 <= n_kv,
                0 <= d < dim,
        ;
        assert(own[d] == heads.v[kv * dim + d]);
    }
}

/// What a token attends to in the cache is what it attends to in a prompt.
proof fn lemma_attends<U: FloatUnit>(
    u: &U,
    config: HypnoConfig,
    layer: int,
    all: Seq<HeadsModel>,
    t: int,
    cache: CacheModel,
    out: Seq<u32>,
)
    requires
        is_plain(u),
        0 <= t < all.len(),
        t < 2 ==> all_numbers(all[t].v),
        t == 1 ==> has_finite_scores(u, config, all[t]),
        heads_sized(config, all[t]),
        config.num_key_value_heads > 0,
        config.num_attention_heads % config.num_key_value_heads == 0,
        holds_tokens(config, cache, layer, all, t),
        is_attention(u, config, layer, true, all[t], cache, out),
    ensures
        is_prompt_attention(u, config, all, t, out),
{
    if t >= 2 {
        law_prompt_attends_like_single_tokens(u, config, layer, all, t, cache, out);
    } else {
        let n = config.num_attention_heads as int;
        let n_kv = config.num_key_value_heads as int;
        let dim = config.head_dim as int;
        let scale = choose|scale: u32|
            {
                &&& #[trigger] is_head_scale(u, dim, scale)
                &&& forall|h: int|
                    0 <= h < n ==> is_head_output(
                        u,
                        true,
                        cached_keys(cache, layer, shared_head(h, n, n_kv)),
                        cached_vectors(cache, layer, shared_head(h, n, n_kv)),
                        own_heads(all[t], h, shared_head(h, n, n_kv), dim),
                        scale,
                        #[trigger] head_values(out, h, dim),
                    )
            };
        assert forall|h: int| 0 <= h < n implies is_prompt_head(
            u,
            config,
            all,
            t,
            h,
            scale,
            #[trigger] head_values(out, h, dim),
        ) by {
            let kv = shared_head(h, n, n_kv);
            lemma_same_head(h, n, n_kv);
            lemma_own_numbers(config, all[t], h, kv);
            lemma_own_value(
                u,
                t > 0,
                own_heads(all[t], h, kv, dim),
                scale,
                head_values(out, h, dim),
            );
        }
    }
}

/// Tables with the same entries are the same.
proof fn lemma_same_table(a: Seq<Seq<Seq<Seq<u32>>>>, b: Seq<Seq<Seq<Seq<u32>>>>)
    requires
        a.len() == b.len(),
        forall|l: int| 0 <= l < a.len() ==> (#[trigger] a[l]).len() == b[l].len(),
        forall|l: int, h: int|
            0 <= l < a.len() && 0 <= h < a[l].len() ==> (#[trigger] a[l][h]).len() == b[l][h].len(),
        forall|l: int, h: int, p: int|
            0 <= l < a.len() && 0 <= h < a[l].len() && 0 <= p < a[l][h].len()
                ==> #[trigger] a[l][h][p] == b[l][h][p],
    ensures
        a == b,
{
    assert forall|l: int| 0 <= l < a.len() implies #[trigger] a[l] == b[l] by {
        assert forall|h: int| 0 <= h < a[l].len() implies #[trigger] a[l][h] == b[l][h] by {
            assert(a[l][h] =~= b[l][h]);
        }
        assert(a[l] =~= b[l]);
    }
    assert(a =~= b);
}

/// `all` with the vectors of the first `t` positions replaced by the heads of `src`, in the first
/// `n` layers also those of the position behind them.
spec fn filled(
    all: Seq<Seq<Seq<Seq<u32>>>>,
    src: Seq<Seq<Seq<u32>>>,
    t: int,
    n: int,
    dim: int,
) -> Seq<Seq<Seq<Seq<u32>>>> {
    Seq::new(
        all.len(),
        |l: int|
            Seq::new(
                all[l].len(),
                |h: int|
                    Seq::new(
                        all[l][h].len(),
                        |p: int|
                            if p < t || (p == t && l < n) {
                                head_values(src[l][p], h, dim)
                            } else {
                                all[l][h][p]
                            },
                    ),
            ),
    )
}

proof fn lemma_filled_more(
    all: Seq<Seq<Seq<Seq<u32>>>>,
    src: Seq<Seq<Seq<u32>>>,
    t: int,
    n: int,
    dim: int,
)
    ensures
        placed(filled(all, src, t, n, dim), n, src[n][t], t, dim) == filled(all, src, t, n + 1, dim),
{
    lemma_same_table(
        placed(filled(all, src, t, n, dim), n, src[n][t], t, dim),
        filled(all, src, t, n + 1, dim),
    );
}

proof fn lemma_filled_position(
    all: Seq<Seq<Seq<Seq<u32>>>>,
    src: Seq<Seq<Seq<u32>>>,
    t: int,
    dim: int,
)
    ensures
        filled(all, src, t, all.len() as int, dim) == filled(all, src, t + 1, 0, dim),
{
    lemma_same_table(filled(all, src, t, all.len() as int, dim), filled(all, src, t + 1, 0, dim));
}

/// `all` with the vectors of the first `t` positions of the first `n` layers replaced by the heads
/// of `src`.
spec fn filled_layers(
    all: Seq<Seq<Seq<Seq<u32>>>>,
    src: Seq<Seq<Seq<u32>>>,
    t: int,
    n: int,
    dim: int,
) -> Seq<Seq<Seq<Seq<u32>>>> {
    Seq::new(
        all.len(),
        |l: int|
            Seq::new(
                all[l].len(),
                |h: int|
                    Seq::new(
                        all[l][h].len(),
                        |p: int|
                            if p < t && l < n {
                                head_values(src[l][p], h, dim)
                            } else {
                                all[l][h][p]
                            },
                    ),
            ),
    )
}

proof fn lemma_filled_layer(
    all: Seq<Seq<Seq<Seq<u32>>>>,
    src: Seq<Seq<Seq<u32>>>,
    t: int,
    n: int,
    dim: int,
)
    requires
        0 <= n < src.len(),
        src[n].len() == t,
    ensures
        placed_rows(filled_layers(all, src, t, n, dim), n, src[n], 0, dim) == filled_layers(
            all,
            src,
            t,
            n + 1,
            dim,
        ),
{
    lemma_same_table(
        placed_rows(filled_layers(all, src, t, n, dim), n, src[n], 0, dim),
        filled_layers(all, src, t, n + 1, dim),
    );
}

/// The keys of all tokens after each layer.
spec fn kept_keys(states: Seq<Seq<TokenModel>>) -> Seq<Seq<Seq<u32>>> {
    Seq::new((states.len() - 1) as nat, |l: int| keys_of(heads_of(states[l + 1])))
}

/// The values of all tokens after each layer.
spec fn kept_values(states: Seq<Seq<TokenModel>>) -> Seq<Seq<Seq<u32>>> {
    Seq::new((states.len() - 1) as nat, |l: int| values_of(heads_of(states[l + 1])))
}

/// A cache at position `t` that holds the first `t` tokens, and in the first `n` layers also the
/// token behind them.
spec fn filling(cache: CacheModel, states: Seq<Seq<TokenModel>>, t: int, n: int) -> CacheModel {
    CacheModel {
        keys: filled(cache.keys, kept_keys(states), t, n, cache.dim as int),
        values: filled(cache.values, kept_values(states), t, n, cache.dim as int),
        pos: t as nat,
        dim: cache.dim,
    }
}

/// A state for each number of layers, each with `n` tokens.
spec fn is_grid(states: Seq<Seq<TokenModel>>, layers: int, n: int) -> bool {
    &&& states.len() == layers + 1
    &&& forall|l: int| 0 <= l < states.len() ==> (#[trigger] states[l]).len() == n
}

proof fn lemma_filling_more(cache: CacheModel, states: Seq<Seq<TokenModel>>, t: int, n: int)
    requires
        is_grid(states, states.len() - 1, states[0].len() as int),
        0 <= n < states.len() - 1,
        0 <= t < states[0].len(),
    ensures
        ({
            let heads = states[n + 1][t].heads;
            filling(cache, states, t, n).storing(n, heads.k, heads.v, t) == filling(
                cache,
                states,
                t,
                n + 1,
            )
        }),
{
    let heads = states[n + 1][t].heads;
    let dim = cache.dim as int;
    assert(states[n + 1].len() == states[0].len());
    assert(kept_keys(states)[n][t] == heads.k);
    assert(kept_values(states)[n][t] == heads.v);
    lemma_filled_more(cache.keys, kept_keys(states), t, n, dim);
    lemma_filled_more(cache.values, kept_values(states), t, n, dim);
}

proof fn lemma_filling_next(cache: CacheModel, states: Seq<Seq<TokenModel>>, t: int, layers: int)
    requires
        cache.keys.len() == cache.values.len() == layers,
        t >= 0,
    ensures
        filling(cache, states, t, layers).at((t + 1) as nat) == filling(cache, states, t + 1, 0),
{
    let dim = cache.dim as int;
    lemma_filled_position(cache.keys, kept_keys(states), t, dim);
    lemma_filled_position(cache.values, kept_values(states), t, dim);
}

proof fn lemma_prompt_cache(cache: CacheModel, states: Seq<Seq<TokenModel>>, n: nat, t: int)
    requires
        is_grid(states, states.len() - 1, t),
        n < states.len(),
    ensures
        ({
            let r = prompt_cache(cache, states, n, 0);
            let dim = cache.dim as int;
            &&& r.keys == filled_layers(cache.keys, kept_keys(states), t, n as int, dim)
            &&& r.values == filled_layers(cache.values, kept_values(states), t, n as int, dim)
            &&& r.pos == cache.pos
            &&& r.dim == cache.dim
        }),
    decreases n,
{
    let dim = cache.dim as int;
    if n == 0 {
        lemma_same_table(cache.keys, filled_layers(cache.keys, kept_keys(states), t, 0, dim));
        lemma_same_table(cache.values, filled_layers(cache.values, kept_values(states), t, 0, dim));
    } else {
        lemma_prompt_cache(cache, states, (n - 1) as nat, t);
        assert(states[n as int].len() == t);
        lemma_filled_layer(cache.keys, kept_keys(states), t, n - 1, dim);
        lemma_filled_layer(cache.values, kept_values(states), t, n - 1, dim);
    }
}

/// The cache of a prompt on an empty cache is that of its tokens, passed through one by one.
proof fn lemma_whole_prompt(cache: CacheModel, states: Seq<Seq<TokenModel>>, layers: nat, t: int)
    requires
        is_grid(states, layers as int, t),
        cache.keys.len() == cache.values.len() == layers,
        t >= 0,
    ensures
        prompt_cache(cache, states, layers, 0).at(t as nat) == filling(cache, states, t, 0),
{
    let dim = cache.dim as int;
    lemma_prompt_cache(cache, states, layers, t);
    lemma_same_table(
        filled_layers(cache.keys, kept_keys(states), t, layers as int, dim),
        filled(cache.keys, kept_keys(states), t, 0, dim),
    );
    lemma_same_table(
        filled_layers(cache.values, kept_values(states), t, layers as int, dim),
        filled(cache.values, kept_values(states), t, 0, dim),
    );
}

/// A cache has room for the heads and positions of a model.
spec fn cache_sized(config: HypnoConfig, cache: CacheModel) -> bool {
    &&& table_sized(config, cache.keys)
    &&& table_sized(config, cache.values)
    &&& cache.dim == config.head_dim
}

spec fn table_sized(config: HypnoConfig, all: Seq<Seq<Seq<Seq<u32>>>>) -> bool {
    &&& all.len() == config.num_hidden_layers
    &&& forall|l: int| 0 <= l < all.len() ==> (#[trigger] all[l]).len() == config.num_key_value_heads
    &&& forall|l: int, h: int|
        0 <= l < all.len() && 0 <= h < all[l].len() ==> (#[trigger] all[l][h]).len()
            == config.max_position_embeddings
}

/// A cache that was filled token by token holds the tokens of before in each layer.
proof fn lemma_filling_holds(
    config: HypnoConfig,
    cache: CacheModel,
    states: Seq<Seq<TokenModel>>,
    t: int,
    l: int,
)
    requires
        cache_sized(config, cache),
        is_grid(states, config.num_hidden_layers as int, states[0].len() as int),
        0 <= l < config.num_hidden_layers,
        0 <= t < states[0].len() <= config.max_position_embeddings,
    ensures
        holds_tokens(config, filling(cache, states, t, l + 1), l, heads_of(states[l + 1]), t),
{
    let full = filling(cache, states, t, l + 1);
    let all = heads_of(states[l + 1]);
    let dim = config.head_dim as int;
    assert(states[l + 1].len() == states[0].len());
    assert forall|h: int, p: int|
        0 <= h < config.num_key_value_heads && 0 <= p < t implies #[trigger] full.keys[l][h][p]
        == head_values(all[p].k, h, dim) by {
        assert(kept_keys(states)[l][p] == all[p].k);
        assert(cache.keys[l].len() == config.num_key_value_heads);
        assert(cache.keys[l][h].len() == config.max_position_embeddings);
    }
    assert forall|h: int, p: int|
        0 <= h < config.num_key_value_heads && 0 <= p < t implies #[trigger] full.values[l][h][p]
        == head_values(all[p].v, h, dim) by {
        assert(kept_values(states)[l][p] == all[p].v);
        assert(cache.values[l].len() == config.num_key_value_heads);
        assert(cache.values[l][h].len() == config.max_position_embeddings);
    }
}

/// The values of a forward pass have the sizes of a model.
spec fn is_sized(config: HypnoConfig, b: BuffersModel) -> bool {
    &&& b.hidden.len() == config.hidden_size
    &&& heads_sized(config, b.heads)
    &&& inner_sized(config, b.inner)
}

proof fn lemma_layer_keeps_sizes<U: FloatUnit>(
    u: &U,
    model: HypnoModel<'_>,
    config: HypnoConfig,
    layer: nat,
    by_columns: bool,
    before: BuffersModel,
    after: BuffersModel,
)
    requires
        is_complete_layer(model, layer),
        is_sized(config, before),
        is_layer(u, model, config, layer, true, by_columns, before, after),
    ensures
        is_sized(config, after),
{
    let pos = before.cache.pos as int;
    lemma_heads_over(
        u,
        model,
        config,
        layer,
        by_columns,
        pos,
        before.hidden,
        before.heads,
        before.heads,
        after.heads,
    );
    lemma_inner_over(
        u,
        model,
        config,
        layer,
        by_columns,
        true,
        after.residual,
        before.inner,
        before.inner,
        after.inner,
        after.hidden,
    );
}

/// Token `t` can make step `t + 1` of step `t`, with the states of its run.
pub open spec fn is_run_at<U: FloatUnit>(
    u: &U,
    model: HypnoModel<'_>,
    config: HypnoConfig,
    tokens: Seq<u32>,
    by_columns: bool,
    steps: Seq<BuffersModel>,
    runs: Seq<Seq<BuffersModel>>,
    t: int,
) -> bool {
    is_token_run(
        u,
        model,
        config,
        tokens[t],
        true,
        by_columns,
        steps[t],
        steps[t + 1],
        runs[t],
    )
}

/// `steps` can be the values before and after each token, and `runs` the states of each token.
pub open spec fn is_passed<U: FloatUnit>(
    u: &U,
    model: HypnoModel<'_>,
    config: HypnoConfig,
    tokens: Seq<u32>,
    by_columns: bool,
    steps: Seq<BuffersModel>,
    runs: Seq<Seq<BuffersModel>>,
) -> bool {
    &&& steps.len() == tokens.len() + 1
    &&& runs.len() == tokens.len()
    &&& forall|t: int|
        0 <= t < tokens.len() ==> #[trigger] is_run_at(
            u,
            model,
            config,
            tokens,
            by_columns,
            steps,
            runs,
            t,
        )
}

/// A model, a unit and a cache on which both ways agree.
spec fn is_regular<U: FloatUnit>(
    u: &U,
    model: HypnoModel<'_>,
    config: HypnoConfig,
    before: BuffersModel,
    n: nat,
) -> bool {
    &&& is_plain(u)
    &&& gives_results(u)
    &&& is_complete(model, config)
    &&& config.num_key_value_heads > 0
    &&& config.num_attention_heads % config.num_key_value_heads == 0
    &&& heads_sized(config, before.heads)
    &&& inner_sized(config, before.inner)
    &&& cache_sized(config, before.cache)
    &&& before.cache.pos == 0
    &&& n <= config.max_position_embeddings
}

/// `n` zeros.
spec fn zeros(n: int) -> Seq<u32> {
    Seq::new(n as nat, |i: int| 0u32)
}

/// A token of a prompt before the first layer.
spec fn fresh_token(config: HypnoConfig, hidden: Seq<u32>) -> TokenModel {
    let kv = config.num_key_value_heads * config.head_dim;
    let inner = config.intermediate_size as int;
    TokenModel {
        hidden,
        heads: HeadsModel {
            q: zeros(config.num_attention_heads * config.head_dim),
            k: zeros(kv),
            v: zeros(kv),
        },
        found: Seq::empty(),
        mixed: Seq::empty(),
        inner: InnerModel {
            gate: zeros(inner),
            up: zeros(inner),
            down: zeros(config.hidden_size as int),
        },
    }
}

/// A token of a prompt after `l` layers, from the states of its run.
spec fn token_at(config: HypnoConfig, run: Seq<BuffersModel>, l: int) -> TokenModel {
    if l == 0 {
        fresh_token(config, run[0].hidden)
    } else {
        TokenModel {
            hidden: run[l].hidden,
            heads: run[l].heads,
            found: run[l].found,
            mixed: run[l].residual,
            inner: run[l].inner,
        }
    }
}

/// The tokens of a prompt before the first layer and after each layer.
spec fn grid_of(config: HypnoConfig, runs: Seq<Seq<BuffersModel>>) -> Seq<Seq<TokenModel>> {
    Seq::new(
        (config.num_hidden_layers + 1) as nat,
        |l: int| Seq::new(runs.len(), |t: int| token_at(config, runs[t], l)),
    )
}

/// What the first `l` layers leave of token `t`.
proof fn lemma_run<U: FloatUnit>(
    u: &U,
    model: HypnoModel<'_>,
    config: HypnoConfig,
    tokens: Seq<u32>,
    by_columns: bool,
    steps: Seq<BuffersModel>,
    runs: Seq<Seq<BuffersModel>>,
    t: int,
    l: int,
)
    requires
        is_complete(model, config),
        is_passed(u, model, config, tokens, by_columns, steps, runs),
        0 <= t < tokens.len(),
        0 <= l <= config.num_hidden_layers,
        heads_sized(config, steps[t].heads),
        inner_sized(config, steps[t].inner),
        steps[t].cache == filling(steps[0].cache, grid_of(config, runs), t, 0),
    ensures
        is_sized(config, runs[t][l]),
        runs[t][l].cache == filling(steps[0].cache, grid_of(config, runs), t, l),
    decreases l,
{
    let states = grid_of(config, runs);
    let run = runs[t];
    assert(is_run_at(u, model, config, tokens, by_columns, steps, runs, t));
    if l > 0 {
        lemma_run(u, model, config, tokens, by_columns, steps, runs, t, l - 1);
        assert(is_layer_at(u, model, config, true, by_columns, run, l - 1));
        assert(is_complete_layer(model, (l - 1) as nat));
        lemma_layer_keeps_sizes(
            u,
            model,
            config,
            (l - 1) as nat,
            by_columns,
            run[l - 1],
            run[l],
        );
        assert(states[l][t].heads == run[l].heads);
        lemma_filling_more(steps[0].cache, states, t, l - 1);
    }
}

/// What the first `t` tokens leave.
proof fn lemma_steps<U: FloatUnit>(
    u: &U,
    model: HypnoModel<'_>,
    config: HypnoConfig,
    tokens: Seq<u32>,
    by_columns: bool,
    steps: Seq<BuffersModel>,
    runs: Seq<Seq<BuffersModel>>,
    t: int,
)
    requires
        is_regular(u, model, config, steps[0], tokens.len()),
        is_passed(u, model, config, tokens, by_columns, steps, runs),
        0 <= t <= tokens.len(),
    ensures
        heads_sized(config, steps[t].heads),
        inner_sized(config, steps[t].inner),
        steps[t].cache == filling(steps[0].cache, grid_of(config, runs), t, 0),
    decreases t,
{
    let states = grid_of(config, runs);
    let cache = steps[0].cache;
    let dim = cache.dim as int;
    if t == 0 {
        lemma_same_table(cache.keys, filled(cache.keys, kept_keys(states), 0, 0, dim));
        lemma_same_table(cache.values, filled(cache.values, kept_values(states), 0, 0, dim));
    } else {
        let layers = config.num_hidden_layers as int;
        lemma_steps(u, model, config, tokens, by_columns, steps, runs, t - 1);
        lemma_run(u, model, config, tokens, by_columns, steps, runs, t - 1, layers);
        assert(is_run_at(u, model, config, tokens, by_columns, steps, runs, t - 1));
        lemma_filling_next(cache, states, t - 1, layers);
    }
}

/// A layer makes of each token of a prompt what it makes of the token alone.
proof fn lemma_row<U: FloatUnit>(
    u: &U,
    model: HypnoModel<'_>,
    config: HypnoConfig,
    tokens: Seq<u32>,
    by_columns: bool,
    steps: Seq<BuffersModel>,
    runs: Seq<Seq<BuffersModel>>,
    l: int,
    t: int,
)
    requires
        is_regular(u, model, config, steps[0], tokens.len()),
        is_passed(u, model, config, tokens, by_columns, steps, runs),
        0 <= t < tokens.len(),
        0 <= l < config.num_hidden_layers,
        is_ordinary(u, config, t, runs[t][l + 1].heads, runs[t][l + 1].residual),
    ensures
        is_prompt_row(
            u,
            model,
            config,
            l as nat,
            by_columns,
            0,
            grid_of(config, runs)[l],
            grid_of(config, runs)[l + 1],
            t,
        ),
{
    let states = grid_of(config, runs);
    let cache = steps[0].cache;
    let run = runs[t];
    lemma_steps(u, model, config, tokens, by_columns, steps, runs, t);
    lemma_run(u, model, config, tokens, by_columns, steps, runs, t, l);
    lemma_run(u, model, config, tokens, by_columns, steps, runs, t, l + 1);
    assert(is_run_at(u, model, config, tokens, by_columns, steps, runs, t));
    assert(is_layer_at(u, model, config, true, by_columns, run, l));
    assert(is_complete_layer(model, l as nat));
    let before = states[l][t];
    let after = states[l + 1][t];
    assert(before.hidden == run[l].hidden);
    assert(same_sizes(run[l].heads, before.heads));
    assert(same_inner_sizes(run[l].inner, before.inner));
    lemma_heads_over(
        u,
        model,
        config,
        l as nat,
        by_columns,
        t,
        run[l].hidden,
        run[l].heads,
        before.heads,
        after.heads,
    );
    lemma_filling_holds(config, cache, states, t, l);
    let all = heads_of(states[l + 1]);
    assert(all[t] == after.heads);
    lemma_attends(u, config, l, all, t, run[l + 1].cache, after.found);
    lemma_mix(
        u,
        layer_weights(model, l as nat, "self_attn.o_proj.weight"@),
        after.found,
        by_columns,
        before.hidden,
        after.mixed,
    );
    lemma_inner_over(
        u,
        model,
        config,
        l as nat,
        by_columns,
        true,
        after.mixed,
        run[l].inner,
        before.inner,
        after.inner,
        after.hidden,
    );
}

/// Buffers with the sizes of a model, on an empty cache.
proof fn lemma_empty_buffers(config: HypnoConfig, b: ForwardBuffers)
    requires
        b.wf(config),
    ensures
        heads_sized(config, b@.heads),
        inner_sized(config, b@.inner),
        cache_sized(config, b@.cache),
{
}

/// The values before and after each token of a pass.
pub open spec fn steps_of(pass: Seq<(BuffersModel, Seq<u32>)>) -> Seq<BuffersModel> {
    Seq::new(pass.len(), |t: int| pass[t].0)
}

/// All tokens are ordinary after each layer of their runs.
pub open spec fn are_ordinary_runs<U: FloatUnit>(
    u: &U,
    config: HypnoConfig,
    runs: Seq<Seq<BuffersModel>>,
) -> bool {
    forall|t: int, l: int|
        0 <= t < runs.len() && 1 <= l <= config.num_hidden_layers ==> is_ordinary(
            u,
            config,
            t,
            (#[trigger] runs[t][l]).heads,
            runs[t][l].residual,
        )
}

/// All tokens of a prompt are ordinary after each layer.
pub open spec fn are_ordinary_rows<U: FloatUnit>(
    u: &U,
    config: HypnoConfig,
    states: Seq<Seq<TokenModel>>,
) -> bool {
    forall|l: int, t: int|
        1 <= l < states.len() && 0 <= t < states[l].len() ==> is_ordinary(
            u,
            config,
            t,
            (#[trigger] states[l][t]).heads,
            states[l][t].mixed,
        )
}

/// `after` and `logits` can be what tokens lead to one by one, and they are ordinary on the way.
pub open spec fn is_ordinary_feed<U: FloatUnit>(
    u: &U,
    model: HypnoModel<'_>,
    config: HypnoConfig,
    tokens: Seq<u32>,
    by_columns: bool,
    before: BuffersModel,
    after: BuffersModel,
    logits: Seq<u32>,
) -> bool {
    exists|pass: Seq<(BuffersModel, Seq<u32>)>, runs: Seq<Seq<BuffersModel>>|
        {
            &&& #[trigger] is_prompt_pass(u, model, config, tokens, by_columns, pass)
            &&& #[trigger] is_passed(u, model, config, tokens, by_columns, steps_of(pass), runs)
            &&& are_ordinary_runs(u, config, runs)
            &&& pass[0] == (before, Seq::<u32>::empty())
            &&& pass.last() == (after, logits)
        }
}

/// `after` and `logits` can be what a prompt makes of a cache, and its tokens are ordinary on the
/// way.
pub open spec fn is_ordinary_batch<U: FloatUnit>(
    u: &U,
    model: HypnoModel<'_>,
    config: HypnoConfig,
    tokens: Seq<u32>,
    by_columns: bool,
    before: CacheModel,
    after: CacheModel,
    logits: Seq<u32>,
) -> bool {
    exists|states: Seq<Seq<TokenModel>>|
        {
            &&& #[trigger] is_prompt_states(
                u,
                model,
                config,
                tokens,
                by_columns,
                before.pos as int,
                states,
            )
            &&& are_ordinary_rows(u, config, states)
            &&& after == prompt_cache(
                before,
                states,
                config.num_hidden_layers as nat,
                before.pos as int,
            ).at(before.pos + tokens.len())
            &&& is_prompt_logits(u, model, config, by_columns, states.last(), logits)
        }
}

/// The tokens of a prompt, passed through a model one by one from an empty cache on, lead to scores
/// and a cache that the prompt can lead to at once. The unit is plain and gives results, the tokens
/// are ordinary on the way, and the model has all of its projections.
pub proof fn law_single_tokens_make_a_prompt<U: FloatUnit>(
    u: &U,
    model: HypnoModel<'_>,
    config: HypnoConfig,
    tokens: Seq<u32>,
    by_columns: bool,
    before: ForwardBuffers,
    after: BuffersModel,
    logits: Seq<u32>,
)
    requires
        is_plain(u),
        gives_results(u),
        is_complete(model, config),
        model_fits(model, config),
        before.wf(config),
        before.kv_cache.cache_pos == 0,
        0 < tokens.len() <= config.max_position_embeddings,
        is_ordinary_feed(u, model, config, tokens, by_columns, before@, after, logits),
    ensures
        is_ordinary_batch(
            u,
            model,
            config,
            tokens,
            by_columns,
            before.kv_cache@,
            after.cache,
            logits,
        ),
        is_batch_forward(
            u,
            model,
            config,
            tokens,
            by_columns,
            before.kv_cache@,
            after.cache,
            logits,
        ),
{
    reveal(is_forward);
    let n = tokens.len() as int;
    let layers = config.num_hidden_layers as int;
    let (pass, runs) = choose|
        pass: Seq<(BuffersModel, Seq<u32>)>,
        runs: Seq<Seq<BuffersModel>>,
    |
        {
            &&& #[trigger] is_prompt_pass(u, model, config, tokens, by_columns, pass)
            &&& #[trigger] is_passed(u, model, config, tokens, by_columns, steps_of(pass), runs)
            &&& are_ordinary_runs(u, config, runs)
            &&& pass[0] == (before@, Seq::<u32>::empty())
            &&& pass.last() == (after, logits)
        };
    let steps = steps_of(pass);
    lemma_empty_buffers(config, before);
    let states = grid_of(config, runs);
    assert forall|l: int| 0 <= l < layers implies #[trigger] is_prompt_layer_at(
        u,
        model,
        config,
        by_columns,
        0,
        states,
        l,
    ) by {
        assert forall|t: int| 0 <= t < n implies #[trigger] is_prompt_row(
            u,
            model,
            config,
            l as nat,
            by_columns,
            0,
            states[l],
            states[l + 1],
            t,
        ) by {
            assert(is_ordinary(u, config, t, runs[t][l + 1].heads, runs[t][l + 1].residual));
            lemma_row(u, model, config, tokens, by_columns, steps, runs, l, t);
        }
    }
    assert forall|t: int| 0 <= t < n implies is_fresh(
        u,
        model,
        config,
        by_columns,
        tokens[t],
        #[trigger] states[0][t],
    ) by {
        assert(is_run_at(u, model, config, tokens, by_columns, steps, runs, t));
        lemma_steps(u, model, config, tokens, by_columns, steps, runs, t);
        lemma_run(u, model, config, tokens, by_columns, steps, runs, t, 0);
    }
    assert(is_prompt_states(u, model, config, tokens, by_columns, 0, states));
    lemma_steps(u, model, config, tokens, by_columns, steps, runs, n);
    lemma_whole_prompt(before@.cache, states, layers as nat, n);
    assert(is_run_at(u, model, config, tokens, by_columns, steps, runs, n - 1));
    assert(is_prompt_step(u, model, config, tokens, by_columns, pass, n - 1));
    let run = runs[n - 1];
    assert(states.last().last().hidden == run.last().hidden);
    assert(is_prepared(
        u,
        weights(model, "model.norm.weight"@),
        states.last().last().hidden,
        config.rms_norm_eps,
        after.hidden,
    ));
    assert(is_prompt_logits(u, model, config, by_columns, states.last(), logits));
    let cache = before.kv_cache@;
    assert(after.cache == prompt_cache(cache, states, layers as nat, cache.pos as int).at(
        cache.pos + tokens.len(),
    ));
    assert(is_prompt_states(u, model, config, tokens, by_columns, cache.pos as int, states));
    assert forall|l: int, t: int|
        1 <= l < states.len() && 0 <= t < states[l].len() implies is_ordinary(
        u,
        config,
        t,
        (#[trigger] states[l][t]).heads,
        states[l][t].mixed,
    ) by {
        assert(is_ordinary(u, config, t, runs[t][l].heads, runs[t][l].residual));
    }
    assert(are_ordinary_rows(u, config, states));
}

/// A query that attends to its own position alone can find the value there.
proof fn lemma_finds_own_value<U: FloatUnit>(u: &U, counted: bool, own: HeadsModel, scale: u32)
    requires
        is_plain(u),
        gives_results(u),
        all_numbers(own.v),
        counted ==> forall|s: u32| #[trigger] is_score(u, own.q, own.k, scale, s) ==> is_finite(s),
        own.q.len() == own.k.len(),
    ensures
        is_own_output(u, counted, own, scale, own.v),
{
    if counted {
        let d = lemma_dot_exists(u, own.q, own.k);
        let s = lemma_product_exists(u, d, scale);
        assert(is_score(u, own.q, own.k, scale, s));
        let y = lemma_softmax_exists(u, s);
        assert(is_softmax(u, seq![s], seq![ONE]));
    }
    assert(is_own_share(u, counted, own.q, own.k, scale, ONE));
    assert forall|d: int| 0 <= d < own.v.len() implies is_product(
        u,
        ONE,
        own.v[d],
        #[trigger] own.v[d],
    ) by {
        let r = lemma_product_exists(u, ONE, own.v[d]);
    }
}

/// What a token attends to in a prompt is what it attends to in the cache.
proof fn lemma_attends_back<U: FloatUnit>(
    u: &U,
    config: HypnoConfig,
    layer: int,
    all: Seq<HeadsModel>,
    t: int,
    cache: CacheModel,
    out: Seq<u32>,
)
    requires
        is_plain(u),
        gives_results(u),
        0 <= t < all.len(),
        t < 2 ==> all_numbers(all[t].v),
        t == 1 ==> has_finite_scores(u, config, all[t]),
        heads_sized(config, all[t]),
        config.num_key_value_heads > 0,
        config.num_attention_heads % config.num_key_value_heads == 0,
        holds_tokens(config, cache, layer, all, t),
        is_prompt_attention(u, config, all, t, out),
    ensures
        is_attention(u, config, layer, true, all[t], cache, out),
{
    if t >= 2 {
        law_prompt_attends_like_single_tokens(u, config, layer, all, t, cache, out);
    } else {
        let n = config.num_attention_heads as int;
        let n_kv = config.num_key_value_heads as int;
        let dim = config.head_dim as int;
        let scale = choose|scale: u32|
            {
                &&& #[trigger] is_head_scale(u, dim, scale)
                &&& forall|h: int|
                    0 <= h < n ==> is_prompt_head(
                        u,
                        config,
                        all,
                        t,
                        h,
                        scale,
                        #[trigger] head_values(out, h, dim),
                    )
            };
        assert forall|h: int| 0 <= h < n implies is_head_output(
            u,
            true,
            cached_keys(cache, layer, shared_head(h, n, n_kv)),
            cached_vectors(cache, layer, shared_head(h, n, n_kv)),
            own_heads(all[t], h, shared_head(h, n, n_kv), dim),
            scale,
            #[trigger] head_values(out, h, dim),
        ) by {
            let kv = shared_head(h, n, n_kv);
            lemma_same_head(h, n, n_kv);
            assert(is_prompt_head(u, config, all, t, h, scale, head_values(out, h, dim)));
            lemma_own_numbers(config, all[t], h, kv);
            lemma_finds_own_value(u, t > 0, own_heads(all[t], h, kv, dim), scale);
        }
    }
}

proof fn lemma_prompt_sizes<U: FloatUnit>(
    u: &U,
    model: HypnoModel<'_>,
    config: HypnoConfig,
    tokens: Seq<u32>,
    by_columns: bool,
    states: Seq<Seq<TokenModel>>,
    l: int,
)
    requires
        is_complete(model, config),
        is_prompt_states(u, model, config, tokens, by_columns, 0, states),
        0 <= l <= config.num_hidden_layers,
    ensures
        states[l].len() == tokens.len(),
        forall|t: int| 0 <= t < tokens.len() ==> token_sized(config, #[trigger] states[l][t]),
    decreases l,
{
    if l > 0 {
        lemma_prompt_sizes(u, model, config, tokens, by_columns, states, l - 1);
        let before = states[l - 1];
        let after = states[l];
        let layer = (l - 1) as nat;
        assert(is_prompt_layer_at(u, model, config, by_columns, 0, states, l - 1));
        assert(is_complete_layer(model, layer));
        assert forall|t: int| 0 <= t < tokens.len() implies token_sized(
            config,
            #[trigger] after[t],
        ) by {
            assert(is_prompt_row(u, model, config, layer, by_columns, 0, before, after, t));
            assert(token_sized(config, before[t]));
            lemma_heads_over(
                u,
                model,
                config,
                layer,
                by_columns,
                t,
                before[t].hidden,
                before[t].heads,
                before[t].heads,
                after[t].heads,
            );
            lemma_inner_over(
                u,
                model,
                config,
                layer,
                by_columns,
                false,
                after[t].mixed,
                before[t].inner,
                before[t].inner,
                after[t].inner,
                after[t].hidden,
            );
        }
    } else {
        assert forall|t: int| 0 <= t < tokens.len() implies token_sized(
            config,
            #[trigger] states[0][t],
        ) by {
            assert(is_fresh(u, model, config, by_columns, tokens[t], states[0][t]));
        }
    }
}

/// The values of token `t` after `l` layers, where the token before it left `prev`.
spec fn buffers_at(
    prev: BuffersModel,
    cache: CacheModel,
    states: Seq<Seq<TokenModel>>,
    t: int,
    l: int,
) -> BuffersModel {
    if l == 0 {
        BuffersModel {
            hidden: states[0][t].hidden,
            cache: filling(cache, states, t, 0),
            ..prev
        }
    } else {
        let row = states[l][t];
        BuffersModel {
            hidden: row.hidden,
            residual: row.mixed,
            heads: row.heads,
            found: row.found,
            inner: row.inner,
            cache: filling(cache, states, t, l),
        }
    }
}

/// What `t` tokens of a prompt leave, one after another; `ends` are the normed values of each.
spec fn left_by(
    before: BuffersModel,
    states: Seq<Seq<TokenModel>>,
    ends: Seq<Seq<u32>>,
    t: int,
) -> BuffersModel
    decreases t,
{
    if t <= 0 {
        before
    } else {
        BuffersModel {
            hidden: ends[t - 1],
            cache: filling(before.cache, states, t, 0),
            ..buffers_at(
                left_by(before, states, ends, t - 1),
                before.cache,
                states,
                t - 1,
                states.len() - 1,
            )
        }
    }
}

/// The states of the run of token `t`.
spec fn run_of(
    before: BuffersModel,
    states: Seq<Seq<TokenModel>>,
    ends: Seq<Seq<u32>>,
    t: int,
) -> Seq<BuffersModel> {
    Seq::new(
        states.len(),
        |l: int|
            buffers_at(left_by(before, states, ends, t), before.cache, states, t, l),
    )
}

proof fn lemma_left<U: FloatUnit>(
    u: &U,
    model: HypnoModel<'_>,
    config: HypnoConfig,
    tokens: Seq<u32>,
    by_columns: bool,
    before: BuffersModel,
    states: Seq<Seq<TokenModel>>,
    ends: Seq<Seq<u32>>,
    t: int,
)
    requires
        is_regular(u, model, config, before, tokens.len()),
        is_prompt_states(u, model, config, tokens, by_columns, 0, states),
        0 <= t <= tokens.len(),
    ensures
        ({
            let left = left_by(before, states, ends, t);
            &&& heads_sized(config, left.heads)
            &&& inner_sized(config, left.inner)
            &&& left.cache == filling(before.cache, states, t, 0)
        }),
    decreases t,
{
    let cache = before.cache;
    let dim = cache.dim as int;
    if t == 0 {
        lemma_same_table(cache.keys, filled(cache.keys, kept_keys(states), 0, 0, dim));
        lemma_same_table(cache.values, filled(cache.values, kept_values(states), 0, 0, dim));
    } else {
        let layers = config.num_hidden_layers as int;
        lemma_left(u, model, config, tokens, by_columns, before, states, ends, t - 1);
        lemma_prompt_sizes(u, model, config, tokens, by_columns, states, layers);
        assert(token_sized(config, states[layers][t - 1]));
    }
}

/// A layer makes of a token alone what it makes of it in a prompt.
proof fn lemma_layer_back<U: FloatUnit>(
    u: &U,
    model: HypnoModel<'_>,
    config: HypnoConfig,
    tokens: Seq<u32>,
    by_columns: bool,
    before: BuffersModel,
    states: Seq<Seq<TokenModel>>,
    ends: Seq<Seq<u32>>,
    t: int,
    l: int,
)
    requires
        is_regular(u, model, config, before, tokens.len()),
        is_prompt_states(u, model, config, tokens, by_columns, 0, states),
        0 <= t < tokens.len(),
        0 <= l < config.num_hidden_layers,
        is_ordinary(u, config, t, states[l + 1][t].heads, states[l + 1][t].mixed),
    ensures
        is_layer_at(
            u,
            model,
            config,
            true,
            by_columns,
            run_of(before, states, ends, t),
            l,
        ),
{
    let run = run_of(before, states, ends, t);
    let from = states[l][t];
    let to = states[l + 1][t];
    let layer = l as nat;
    assert forall|k: int| 0 <= k < states.len() implies (#[trigger] states[k]).len()
        == tokens.len() by {
        lemma_prompt_sizes(u, model, config, tokens, by_columns, states, k);
    }
    lemma_prompt_sizes(u, model, config, tokens, by_columns, states, l);
    lemma_prompt_sizes(u, model, config, tokens, by_columns, states, l + 1);
    assert(token_sized(config, from) && token_sized(config, to));
    lemma_left(u, model, config, tokens, by_columns, before, states, ends, t);
    assert(is_prompt_layer_at(u, model, config, by_columns, 0, states, l));
    assert(is_prompt_row(u, model, config, layer, by_columns, 0, states[l], states[l + 1], t));
    assert(is_complete_layer(model, layer));
    assert(same_sizes(from.heads, run[l].heads));
    assert(same_inner_sizes(from.inner, run[l].inner));
    lemma_heads_over(
        u,
        model,
        config,
        layer,
        by_columns,
        t,
        from.hidden,
        from.heads,
        run[l].heads,
        to.heads,
    );
    lemma_filling_more(before.cache, states, t, l);
    lemma_filling_holds(config, before.cache, states, t, l);
    let all = heads_of(states[l + 1]);
    assert(all[t] == to.heads);
    lemma_attends_back(u, config, l, all, t, run[l + 1].cache, to.found);
    lemma_mix(
        u,
        layer_weights(model, layer, "self_attn.o_proj.weight"@),
        to.found,
        by_columns,
        from.hidden,
        to.mixed,
    );
    lemma_inner_over(
        u,
        model,
        config,
        layer,
        by_columns,
        false,
        to.mixed,
        from.inner,
        run[l].inner,
        to.inner,
        to.hidden,
    );
}

proof fn lemma_scaled_exists<U: FloatUnit>(u: &U, half: u16, step: i32) -> (r: (u32, u32))
    requires
        gives_results(u),
    ensures
        is_wide(u, half, r.0),
        is_scaled(u, step, r.0, r.1),
{
    assert(has_wide(u, half));
    let s = choose|s: u32| is_wide(u, half, s);
    assert(has_scaled(u, step, s));
    (s, choose|v: u32| is_scaled(u, step, s, v))
}

proof fn lemma_weight_exists<U: FloatUnit>(u: &U, dtype: DType, w: Seq<u8>, i: int) -> (v: u32)
    requires
        gives_results(u),
        0 <= i < held(dtype, w.len()),
    ensures
        is_weight(u, dtype, w, i, v),
{
    match dtype {
        DType::FP32 => {
            lemma_pow256_values();
            lemma_le_value_bound(w.subrange(4 * i, 4 * i + 4));
            le_value(w.subrange(4 * i, 4 * i + 4)) as u32
        },
        DType::FP16 => {
            let half = le_value(w.subrange(2 * i, 2 * i + 2)) as u16;
            assert(has_wide(u, half));
            choose|v: u32| is_wide(u, half, v)
        },
        DType::Q8_0 => {
            let b = 34 * (i / 32);
            let step = byte_step(w.subrange(b + 2, b + 34), i % 32) as i32;
            lemma_scaled_exists(u, scale_in(w, b), step).1
        },
        DType::Q4_0 => {
            let b = 18 * (i / 32);
            let step = nibble_step(w.subrange(b + 2, b + 18), i % 32) as i32;
            lemma_scaled_exists(u, scale_in(w, b), step).1
        },
    }
}

/// A weight at a place.
spec fn some_weight<U: FloatUnit>(u: &U, dtype: DType, w: Seq<u8>, i: int) -> u32 {
    choose|v: u32| is_weight(u, dtype, w, i, v)
}

proof fn lemma_row_exists<U: FloatUnit>(
    u: &U,
    dtype: DType,
    w: Seq<u8>,
    r: int,
    x: Seq<u32>,
) -> (v: u32)
    requires
        gives_results(u),
        0 <= r,
    ensures
        is_row_result(u, dtype, w, r, x.len() as int, x, 0, v),
{
    let m = x.len() as int;
    assert(0 <= r * m) by (nonlinear_arith)
        requires
            0 <= r,
            0 <= m,
    ;
    let row = Seq::new(
        present(held(dtype, w.len()), (r * m) as nat, m as nat),
        |j: int| some_weight(u, dtype, w, r * m + j),
    );
    assert forall|j: int| 0 <= j < row.len() implies is_weight(
        u,
        dtype,
        w,
        r * m + j,
        #[trigger] row[j],
    ) by {
        let v = lemma_weight_exists(u, dtype, w, r * m + j);
    }
    assert(is_row(u, dtype, w, r * m, row));
    let s = lemma_dot_exists(u, row, x.take(row.len() as int));
    assert(is_row_product(u, dtype, w, r, m, x, s));
    lemma_sum_exists(u, s, 0)
}

proof fn lemma_column_exists<U: FloatUnit>(
    u: &U,
    dtype: DType,
    w: Seq<u8>,
    n: int,
    r: int,
    x: Seq<u32>,
) -> (v: u32)
    requires
        gives_results(u),
        0 <= r < n,
    ensures
        is_column_result(u, dtype, w, n, r, x, None, v),
{
    let total = held(dtype, w.len());
    lemma_columns_bound(total, n as nat, r as nat, x.len());
    let column = Seq::new(
        columns_present(total, n as nat, r as nat, x.len()),
        |k: int| some_weight(u, dtype, w, k * n + r),
    );
    assert forall|k: int| 0 <= k < column.len() implies is_weight(
        u,
        dtype,
        w,
        k * n + r,
        #[trigger] column[k],
    ) by {
        lemma_columns(total, n as nat, r as nat, x.len(), k as nat);
        assert(0 <= k * n) by (nonlinear_arith)
            requires
                0 <= k,
                0 <= n,
        ;
        let v = lemma_weight_exists(u, dtype, w, k * n + r);
    }
    assert(is_column(u, dtype, w, n, r, column));
    lemma_dot_exists(u, column, x.take(column.len() as int))
}

/// A product of a stored matrix and a vector.
proof fn lemma_projection_exists<U: FloatUnit>(
    u: &U,
    dtype: DType,
    w: Seq<u8>,
    x: Seq<u32>,
    by_columns: bool,
    n: nat,
) -> (y: Seq<u32>)
    requires
        gives_results(u),
    ensures
        y.len() == n,
        is_projection(u, dtype, w, x, by_columns, y),
{
    let m = x.len() as int;
    if by_columns {
        let y = Seq::new(
            n,
            |r: int| choose|v: u32| is_column_result(u, dtype, w, n as int, r, x, None, v),
        );
        assert forall|r: int| 0 <= r < y.len() implies is_column_result(
            u,
            dtype,
            w,
            y.len() as int,
            r,
            x,
            None,
            #[trigger] y[r],
        ) by {
            let v = lemma_column_exists(u, dtype, w, n as int, r, x);
        }
        y
    } else {
        let y = Seq::new(
            n,
            |r: int| choose|v: u32| is_row_result(u, dtype, w, r, m, x, 0, v),
        );
        assert forall|r: int| 0 <= r < y.len() implies is_row_result(
            u,
            dtype,
            w,
            r,
            m,
            x,
            bias_at(None, r),
            #[trigger] y[r],
        ) by {
            let v = lemma_row_exists(u, dtype, w, r, x);
        }
        y
    }
}

proof fn lemma_normed_exists<U: FloatUnit>(
    u: &U,
    x: Seq<u32>,
    weight: Seq<u32>,
    eps: u32,
) -> (y: Seq<u32>)
    requires
        gives_results(u),
    ensures
        is_normed(u, x, weight, eps, y),
{
    let sum = lemma_dot_exists(u, x, x);
    let count = x.len() as int as usize;
    assert(has_number(u, count));
    let n = choose|n: u32| is_number(u, count, n);
    assert(is_count(u, x.len() as int, n));
    let mean = lemma_quotient_exists(u, sum, n);
    let shifted = lemma_sum_exists(u, mean, eps);
    assert(has_root(u, shifted));
    let root = choose|root: u32| is_root(u, shifted, root);
    let inv = lemma_quotient_exists(u, ONE, root);
    assert(is_inverse_rms(u, x, eps, inv));
    let y = Seq::new(
        x.len(),
        |i: int| choose|r: u32| is_twice_scaled(u, x[i], inv, weight[i], r),
    );
    assert forall|i: int| 0 <= i < x.len() implies is_twice_scaled(
        u,
        x[i],
        inv,
        weight[i],
        #[trigger] y[i],
    ) by {
        let p = lemma_product_exists(u, x[i], inv);
        let r = lemma_product_exists(u, p, weight[i]);
        assert(is_twice_scaled(u, x[i], inv, weight[i], r));
    }
    y
}

/// Hidden values have scores.
proof fn lemma_scores_exist<U: FloatUnit>(
    u: &U,
    model: HypnoModel<'_>,
    config: HypnoConfig,
    by_columns: bool,
    x: Seq<u32>,
) -> (r: (Seq<u32>, Seq<u32>))
    requires
        gives_results(u),
    ensures
        is_prepared(u, weights(model, "model.norm.weight"@), x, config.rms_norm_eps, r.0),
        is_logits(u, model, by_columns, config.vocab_size as nat, r.0, r.1),
{
    let w = weights(model, "model.norm.weight"@);
    let ones = Seq::new(x.len(), |i: int| ONE);
    let norm = match w {
        Some((data, dtype)) => if dtype.quantized() {
            ones
        } else {
            Seq::new(held(dtype, data.len()), |i: int| some_weight(u, dtype, data, i))
        },
        None => ones,
    };
    assert(is_norm_weights(u, w, x.len(), norm)) by {
        if let Some((data, dtype)) = w {
            if !dtype.quantized() {
                assert forall|i: int| 0 <= i < norm.len() implies is_weight(
                    u,
                    dtype,
                    data,
                    i,
                    #[trigger] norm[i],
                ) by {
                    let v = lemma_weight_exists(u, dtype, data, i);
                }
            }
        }
    }
    let y = lemma_normed_exists(u, x, norm, config.rms_norm_eps);
    let vocab = config.vocab_size as nat;
    let logits = match head_matrix(model) {
        Some((data, dtype)) => lemma_projection_exists(u, dtype, data, y, by_columns, vocab),
        None => Seq::new(vocab, |i: int| 0u32),
    };
    (y, logits)
}

/// Normed values and scores of hidden values `x`.
spec fn is_scored<U: FloatUnit>(
    u: &U,
    model: HypnoModel<'_>,
    config: HypnoConfig,
    by_columns: bool,
    x: Seq<u32>,
    r: (Seq<u32>, Seq<u32>),
) -> bool {
    &&& is_prepared(u, weights(model, "model.norm.weight"@), x, config.rms_norm_eps, r.0)
    &&& is_logits(u, model, by_columns, config.vocab_size as nat, r.0, r.1)
}

/// What a prompt can lead to at once, on an empty cache, its tokens can lead to one by one: the same
/// scores and the same cache. The unit is plain and gives results, the tokens are ordinary on the
/// way, and the model has all of its projections.
pub proof fn law_prompt_is_made_of_single_tokens<U: FloatUnit>(
    u: &U,
    model: HypnoModel<'_>,
    config: HypnoConfig,
    tokens: Seq<u32>,
    by_columns: bool,
    before: ForwardBuffers,
    cache: CacheModel,
    logits: Seq<u32>,
) -> (after: BuffersModel)
    requires
        is_plain(u),
        gives_results(u),
        is_complete(model, config),
        model_fits(model, config),
        before.wf(config),
        before.kv_cache.cache_pos == 0,
        0 < tokens.len() <= config.max_position_embeddings,
        is_ordinary_batch(
            u,
            model,
            config,
            tokens,
            by_columns,
            before.kv_cache@,
            cache,
            logits,
        ),
    ensures
        after.cache == cache,
        is_ordinary_feed(u, model, config, tokens, by_columns, before@, after, logits),
        is_fed(u, model, config, tokens, by_columns, before@, after, logits),
{
    reveal(is_forward);
    let n = tokens.len() as int;
    let layers = config.num_hidden_layers as int;
    let empty = before@;
    lemma_empty_buffers(config, before);
    let states = choose|states: Seq<Seq<TokenModel>>|
        {
            &&& #[trigger] is_prompt_states(
                u,
                model,
                config,
                tokens,
                by_columns,
                empty.cache.pos as int,
                states,
            )
            &&& are_ordinary_rows(u, config, states)
            &&& cache == prompt_cache(
                empty.cache,
                states,
                config.num_hidden_layers as nat,
                empty.cache.pos as int,
            ).at(empty.cache.pos + tokens.len())
            &&& is_prompt_logits(u, model, config, by_columns, states.last(), logits)
        };
    assert forall|l: int| 0 <= l < states.len() implies (#[trigger] states[l]).len()
        == tokens.len() by {
        lemma_prompt_sizes(u, model, config, tokens, by_columns, states, l);
    }
    let last = choose|x: Seq<u32>|
        {
            &&& #[trigger] is_prepared(
                u,
                weights(model, "model.norm.weight"@),
                states.last().last().hidden,
                config.rms_norm_eps,
                x,
            )
            &&& is_logits(u, model, by_columns, config.vocab_size as nat, x, logits)
        };
    let scores = Seq::new(
        tokens.len(),
        |t: int|
            if t == n - 1 {
                (last, logits)
            } else {
                choose|r: (Seq<u32>, Seq<u32>)|
                    is_scored(u, model, config, by_columns, states.last()[t].hidden, r)
            },
    );
    assert forall|t: int| 0 <= t < n implies is_scored(
        u,
        model,
        config,
        by_columns,
        states.last()[t].hidden,
        #[trigger] scores[t],
    ) by {
        let r = lemma_scores_exist(u, model, config, by_columns, states.last()[t].hidden);
        assert(is_scored(u, model, config, by_columns, states.last()[t].hidden, r));
    }
    let ends = Seq::new(tokens.len(), |t: int| scores[t].0);
    let pass = Seq::new(
        tokens.len() + 1,
        |t: int|
            (
                left_by(empty, states, ends, t),
                if t == 0 {
                    Seq::<u32>::empty()
                } else {
                    scores[t - 1].1
                },
            ),
    );
    let runs = Seq::new(tokens.len(), |t: int| run_of(empty, states, ends, t));
    assert forall|t: int| 0 <= t < n implies (#[trigger] is_prompt_step(
        u,
        model,
        config,
        tokens,
        by_columns,
        pass,
        t,
    ) && is_run_at(u, model, config, tokens, by_columns, steps_of(pass), runs, t)) by {
        let run = run_of(empty, states, ends, t);
        assert forall|l: int| 0 <= l < layers implies #[trigger] is_layer_at(
            u,
            model,
            config,
            true,
            by_columns,
            run,
            l,
        ) by {
            assert(is_ordinary(u, config, t, states[l + 1][t].heads, states[l + 1][t].mixed));
            lemma_layer_back(
                u,
                model,
                config,
                tokens,
                by_columns,
                empty,
                states,
                ends,
                t,
                l,
            );
        }
        assert(is_fresh(u, model, config, by_columns, tokens[t], states[0][t]));
        lemma_left(u, model, config, tokens, by_columns, empty, states, ends, t);
        lemma_filling_next(empty.cache, states, t, layers);
        assert(is_scored(u, model, config, by_columns, states.last()[t].hidden, scores[t]));
        assert(run.last().hidden == states.last()[t].hidden);
        assert(is_token_run(
            u,
            model,
            config,
            tokens[t],
            true,
            by_columns,
            pass[t].0,
            pass[t + 1].0,
            run,
        ));
    }
    lemma_left(u, model, config, tokens, by_columns, empty, states, ends, n);
    lemma_whole_prompt(empty.cache, states, layers as nat, n);
    assert(pass.last() == (left_by(empty, states, ends, n), logits));
    assert(is_prompt_pass(u, model, config, tokens, by_columns, pass));
    assert forall|t: int| 0 <= t < n implies #[trigger] is_run_at(
        u,
        model,
        config,
        tokens,
        by_columns,
        steps_of(pass),
        runs,
        t,
    ) by {
        assert(is_prompt_step(u, model, config, tokens, by_columns, pass, t));
    }
    assert(is_passed(u, model, config, tokens, by_columns, steps_of(pass), runs));
    assert forall|t: int, l: int|
        0 <= t < runs.len() && 1 <= l <= config.num_hidden_layers implies is_ordinary(
        u,
        config,
        t,
        (#[trigger] runs[t][l]).heads,
        runs[t][l].residual,
    ) by {
        assert(is_ordinary(u, config, t, states[l][t].heads, states[l][t].mixed));
    }
    assert(are_ordinary_runs(u, config, runs));
    left_by(empty, states, ends, n)
}

} // verus!
