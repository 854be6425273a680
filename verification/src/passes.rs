//! Laws of the forward pass: what each part of a layer is made of, and what it makes of whole numbers.

use vstd::prelude::*;
use crate::cache::head_values;
use crate::config::HypnoConfig;
use crate::dtype::DType;
use crate::exact::{counts, lemma_sum_same, patterns, sum_to, within};
use crate::float::{
    is_exponential, is_product, is_quotient, is_sum, negative, FloatUnit, ONE,
};
use crate::kernels::{is_normed, is_projection, is_rotated, is_silu, is_weight};
use crate::loader::HypnoModel;
use crate::sampling::same_number;
use crate::steady::{
    is_steady, lemma_gated_once, lemma_head_output_once, lemma_head_scale_once, lemma_output_once,
    lemma_prepared_once, lemma_projected_once, lemma_projection_once, lemma_turned_projection_once,
};
use crate::text::decimal_digits;
use crate::transformer::{
    cached_keys, cached_vectors, head_matrix, is_added, is_attention, is_forward,
    is_gated, is_gated_all, is_head_output, is_head_scale, is_heads, is_inner, is_layer,
    is_layer_at, is_logits, is_norm_weights, is_output, is_prepared, is_projected, is_token_run,
    is_turned_projection, layer_weights, own_heads, shared_head, weights,
    BuffersModel, HeadsModel,
};
use crate::whole::{
    holds, law_norm_is_by_the_root_mean_square, law_projection_is_the_matrix_product, matrix_place,
    measures,
};

verus! {

/// The tensor `part` of a layer.
pub open spec fn part_of(model: HypnoModel<'_>, layer: nat, part: Seq<char>) -> Option<
    (Seq<u8>, DType),
> {
    weights(model, "model.layers."@ + decimal_digits(layer) + "."@ + part)
}

/// Two models have the same tensor `part` in a layer.
pub open spec fn share(
    a: HypnoModel<'_>,
    b: HypnoModel<'_>,
    layer: nat,
    part: Seq<char>,
) -> bool {
    part_of(a, layer, part) == part_of(b, layer, part)
}

/// Multiplying a number by 1 changes nothing.
pub open spec fn has_usual_one<U: FloatUnit>(u: &U) -> bool {
    forall|a: u32, r: u32| #[trigger] is_product(u, a, ONE, r) ==> same_number(a, r)
}

/// In the feed-forward part of a layer each value `x` of the matrix "gate_proj" is weighted by its sigmoid,
/// and lets a value of the matrix "up_proj" through: where that value is 1, `x / (1 + exp(-x))` comes out,
/// and where it is 0, a product with 0, whatever `x` is.
pub proof fn law_gate_is_weighted_and_up_let_through<U: FloatUnit>(
    u: &U,
    model: HypnoModel<'_>,
    config: HypnoConfig,
    layer: nat,
    cached: bool,
    by_columns: bool,
    before: BuffersModel,
    after: BuffersModel,
    gate: (Seq<u8>, DType),
    up: (Seq<u8>, DType),
)
    requires
        has_usual_one(u),
        is_layer(u, model, config, layer, cached, by_columns, before, after),
        part_of(model, layer, "mlp.gate_proj.weight"@) == Some(gate),
        part_of(model, layer, "mlp.up_proj.weight"@) == Some(up),
    ensures
        exists|n: Seq<u32>, g: Seq<u32>|
            {
                &&& is_prepared(
                    u,
                    part_of(model, layer, "post_attention_layernorm.weight"@),
                    after.residual,
                    config.rms_norm_eps,
                    n,
                )
                &&& #[trigger] is_projection(u, up.1, up.0, n, by_columns, after.inner.up)
                &&& #[trigger] is_projection(u, gate.1, gate.0, n, by_columns, g)
                &&& g.len() == after.inner.gate.len()
                &&& forall|i: int|
                    0 <= i < g.len() ==> is_let_through(
                        u,
                        g[i],
                        after.inner.up[i],
                        #[trigger] after.inner.gate[i],
                    )
            },
{
    let x = after.residual;
    let n = choose|n: Seq<u32>|
        {
            &&& #[trigger] is_prepared(
                u,
                layer_weights(model, layer, "post_attention_layernorm.weight"@),
                x,
                config.rms_norm_eps,
                n,
            )
            &&& is_inner(u, model, layer, by_columns, true, n, before.inner, after.inner)
        };
    let g = choose|g: Seq<u32>|
        {
            &&& #[trigger] is_projected(
                u,
                layer_weights(model, layer, "mlp.gate_proj.weight"@),
                n,
                by_columns,
                before.inner.gate,
                g,
            )
            &&& is_gated_all(u, g, after.inner.up, after.inner.gate)
        };
    assert(is_projection(u, up.1, up.0, n, by_columns, after.inner.up));
    assert(is_projection(u, gate.1, gate.0, n, by_columns, g));
    assert forall|i: int| 0 <= i < g.len() implies is_let_through(
        u,
        g[i],
        after.inner.up[i],
        #[trigger] after.inner.gate[i],
    ) by {
        assert(is_gated(u, g[i], after.inner.up[i], after.inner.gate[i]));
        let s = choose|s: u32| #[trigger]
            is_silu(u, g[i], s) && is_product(u, s, after.inner.up[i], after.inner.gate[i]);
        let (e, d) = choose|e: u32, d: u32|
            {
                &&& #[trigger] is_exponential(u, negative(g[i]), e)
                &&& #[trigger] is_sum(u, ONE, e, d)
                &&& is_quotient(u, g[i], d, s)
            };
        assert(is_sum(u, ONE, e, d) && is_quotient(u, g[i], d, s));
    }
}

/// `r` can be the value `up`, let through by the value `gate`, as far as values of 1 and 0 tell.
pub open spec fn is_let_through<U: FloatUnit>(u: &U, gate: u32, up: u32, r: u32) -> bool {
    &&& up == ONE ==> exists|e: u32, d: u32, s: u32|
        {
            &&& #[trigger] is_exponential(u, negative(gate), e)
            &&& #[trigger] is_sum(u, ONE, e, d)
            &&& #[trigger] is_quotient(u, gate, d, s)
            &&& same_number(s, r)
        }
    &&& up == 0 ==> exists|s: u32| #[trigger] is_product(u, s, 0, r)
}

/// What is let through is linear in what it is made of: on whole numbers, where a sigmoid-weighted value is
/// `m` and the value that it lets through is `n`, `m * n` comes out.
pub proof fn law_gate_multiplies<U: FloatUnit>(
    u: &U,
    w: spec_fn(nat) -> u32,
    limit: nat,
    gate: Seq<u32>,
    up: Seq<u32>,
    out: Seq<u32>,
    i: int,
    m: nat,
    n: nat,
)
    requires
        counts(u, w, limit),
        is_gated_all(u, gate, up, out),
        0 <= i < gate.len(),
        up[i] == w(n),
        m <= limit,
        n <= limit,
        m * n <= limit,
        forall|e: u32, d: u32, s: u32|
            #[trigger] is_exponential(u, negative(gate[i]), e) && #[trigger] is_sum(u, ONE, e, d)
                && #[trigger] is_quotient(u, gate[i], d, s) ==> s == w(m),
    ensures
        out[i] == w(m * n),
{
    assert(is_gated(u, gate[i], up[i], out[i]));
    let s = choose|s: u32| #[trigger] is_silu(u, gate[i], s) && is_product(u, s, up[i], out[i]);
    assert(s == w(m));
}

proof fn lemma_same_heads<U: FloatUnit>(
    u: &U,
    a: HypnoModel<'_>,
    b: HypnoModel<'_>,
    config: HypnoConfig,
    layer: nat,
    by_columns: bool,
    pos: int,
    x: Seq<u32>,
    before: HeadsModel,
    first: HeadsModel,
    second: HeadsModel,
)
    requires
        is_steady(u),
        is_heads(u, a, config, layer, by_columns, pos, x, before, first),
        is_heads(u, b, config, layer, by_columns, pos, x, before, second),
        share(a, b, layer, "input_layernorm.weight"@),
    ensures
        share(a, b, layer, "self_attn.q_proj.weight"@) ==> first.q == second.q,
        share(a, b, layer, "self_attn.k_proj.weight"@) ==> first.k == second.k,
        share(a, b, layer, "self_attn.v_proj.weight"@) ==> first.v == second.v,
{
    let norm = layer_weights(a, layer, "input_layernorm.weight"@);
    let y = choose|y: Seq<u32>|
        {
            &&& #[trigger] is_prepared(u, norm, x, config.rms_norm_eps, y)
            &&& is_turned_projection(
                u,
                layer_weights(a, layer, "self_attn.q_proj.weight"@),
                y,
                by_columns,
                config,
                pos,
                before.q,
                first.q,
            )
            &&& is_turned_projection(
                u,
                layer_weights(a, layer, "self_attn.k_proj.weight"@),
                y,
                by_columns,
                config,
                pos,
                before.k,
                first.k,
            )
            &&& is_projected(
                u,
                layer_weights(a, layer, "self_attn.v_proj.weight"@),
                y,
                by_columns,
                before.v,
                first.v,
            )
        };
    let z = choose|z: Seq<u32>|
        {
            &&& #[trigger] is_prepared(
                u,
                layer_weights(b, layer, "input_layernorm.weight"@),
                x,
                config.rms_norm_eps,
                z,
            )
            &&& is_turned_projection(
                u,
                layer_weights(b, layer, "self_attn.q_proj.weight"@),
                z,
                by_columns,
                config,
                pos,
                before.q,
                second.q,
            )
            &&& is_turned_projection(
                u,
                layer_weights(b, layer, "self_attn.k_proj.weight"@),
                z,
                by_columns,
                config,
                pos,
                before.k,
                second.k,
            )
            &&& is_projected(
                u,
                layer_weights(b, layer, "self_attn.v_proj.weight"@),
                z,
                by_columns,
                before.v,
                second.v,
            )
        };
    lemma_prepared_once(u, norm, x, config.rms_norm_eps, y, z);
    if share(a, b, layer, "self_attn.q_proj.weight"@) {
        lemma_turned_projection_once(
            u,
            layer_weights(a, layer, "self_attn.q_proj.weight"@),
            y,
            by_columns,
            config,
            pos,
            before.q,
            first.q,
            second.q,
        );
    }
    if share(a, b, layer, "self_attn.k_proj.weight"@) {
        lemma_turned_projection_once(
            u,
            layer_weights(a, layer, "self_attn.k_proj.weight"@),
            y,
            by_columns,
            config,
            pos,
            before.k,
            first.k,
            second.k,
        );
    }
    if share(a, b, layer, "self_attn.v_proj.weight"@) {
        lemma_projected_once(
            u,
            layer_weights(a, layer, "self_attn.v_proj.weight"@),
            y,
            by_columns,
            before.v,
            first.v,
            second.v,
        );
    }
}

/// What a query head finds depends on its own query and on one head of keys and values: where a group
/// of `g` query heads shares one, query head `kv * g + j` uses the head `kv`, and what the other heads
/// hold does not matter.
pub proof fn law_query_heads_share_by_groups<U: FloatUnit>(
    u: &U,
    config: HypnoConfig,
    layer: int,
    cached: bool,
    heads: HeadsModel,
    other: HeadsModel,
    cache: crate::cache::CacheModel,
    other_cache: crate::cache::CacheModel,
    out: Seq<u32>,
    other_out: Seq<u32>,
    g: int,
    kv: int,
    j: int,
    d: int,
)
    requires
        is_steady(u),
        config.num_attention_heads == g * config.num_key_value_heads,
        0 <= kv < config.num_key_value_heads,
        0 <= j < g,
        0 <= d < config.head_dim,
        is_attention(u, config, layer, cached, heads, cache, out),
        is_attention(u, config, layer, cached, other, other_cache, other_out),
        cache.pos == other_cache.pos,
        forall|p: int|
            0 <= p < cache.pos ==> #[trigger] cache.keys[layer][kv][p]
                == other_cache.keys[layer][kv][p],
        forall|p: int|
            0 <= p < cache.pos ==> #[trigger] cache.values[layer][kv][p]
                == other_cache.values[layer][kv][p],
        forall|e: int|
            0 <= e < config.head_dim ==> heads.q[#[trigger] at(kv * g + j, config.head_dim, e)]
                == other.q[at(kv * g + j, config.head_dim, e)],
        forall|e: int|
            0 <= e < config.head_dim ==> heads.k[#[trigger] at(kv, config.head_dim, e)]
                == other.k[at(kv, config.head_dim, e)] && heads.v[at(kv, config.head_dim, e)]
                == other.v[at(kv, config.head_dim, e)],
    ensures
        out[at(kv * g + j, config.head_dim, d)] == other_out[at(kv * g + j, config.head_dim, d)],
{
    let n = config.num_attention_heads as int;
    let n_kv = config.num_key_value_heads as int;
    let dim = config.head_dim as int;
    let h = kv * g + j;
    assert(n / n_kv == g) by {
        vstd::arithmetic::div_mod::lemma_div_multiples_vanish(g, n_kv);
        vstd::arithmetic::mul::lemma_mul_is_commutative(g, n_kv);
    }
    vstd::arithmetic::div_mod::lemma_fundamental_div_mod_converse(h, g, kv, j);
    assert(shared_head(h, n, n_kv) == kv);
    assert(0 <= h < n) by (nonlinear_arith)
        requires
            h == kv * g + j,
            n == g * n_kv,
            0 <= kv < n_kv,
            0 <= j < g,
    ;
    let s = choose|s: u32|
        {
            &&& #[trigger] is_head_scale(u, dim, s)
            &&& forall|h: int|
                0 <= h < n ==> is_head_output(
                    u,
                    cached,
                    cached_keys(cache, layer, shared_head(h, n, n_kv)),
                    cached_vectors(cache, layer, shared_head(h, n, n_kv)),
                    own_heads(heads, h, shared_head(h, n, n_kv), dim),
                    s,
                    #[trigger] head_values(out, h, dim),
                )
        };
    let t = choose|t: u32|
        {
            &&& #[trigger] is_head_scale(u, dim, t)
            &&& forall|h: int|
                0 <= h < n ==> is_head_output(
                    u,
                    cached,
                    cached_keys(other_cache, layer, shared_head(h, n, n_kv)),
                    cached_vectors(other_cache, layer, shared_head(h, n, n_kv)),
                    own_heads(other, h, shared_head(h, n, n_kv), dim),
                    t,
                    #[trigger] head_values(other_out, h, dim),
                )
        };
    lemma_head_scale_once(u, dim, s, t);
    assert(cached_keys(cache, layer, kv) =~= cached_keys(other_cache, layer, kv));
    assert(cached_vectors(cache, layer, kv) =~= cached_vectors(other_cache, layer, kv));
    let own = own_heads(heads, h, kv, dim);
    let own_other = own_heads(other, h, kv, dim);
    assert forall|e: int| 0 <= e < dim implies own.q[e] == own_other.q[e] && own.k[e]
        == own_other.k[e] && own.v[e] == own_other.v[e] by {
        assert(heads.q[at(h, config.head_dim, e)] == other.q[at(h, config.head_dim, e)]);
        assert(heads.k[at(kv, config.head_dim, e)] == other.k[at(kv, config.head_dim, e)]);
    }
    assert(own =~= own_other);
    let x = head_values(out, h, dim);
    let y = head_values(other_out, h, dim);
    lemma_head_output_once(
        u,
        cached,
        cached_keys(cache, layer, kv),
        cached_vectors(cache, layer, kv),
        own,
        s,
        x,
        y,
    );
    assert(x[d] == y[d]);
}

/// The place of value `d` of head `h`, where heads of `dim` values stand one after another.
pub open spec fn at(h: int, dim: usize, d: int) -> int {
    h * dim + d
}

proof fn lemma_same_attention<U: FloatUnit>(
    u: &U,
    config: HypnoConfig,
    layer: int,
    cached: bool,
    heads: HeadsModel,
    cache: crate::cache::CacheModel,
    out: Seq<u32>,
    other: Seq<u32>,
)
    requires
        is_steady(u),
        is_attention(u, config, layer, cached, heads, cache, out),
        is_attention(u, config, layer, cached, heads, cache, other),
    ensures
        out == other,
{
    let n = config.num_attention_heads as int;
    let n_kv = config.num_key_value_heads as int;
    let dim = config.head_dim as int;
    let s = choose|s: u32|
        {
            &&& #[trigger] is_head_scale(u, dim, s)
            &&& forall|h: int|
                0 <= h < n ==> is_head_output(
                    u,
                    cached,
                    cached_keys(cache, layer, shared_head(h, n, n_kv)),
                    cached_vectors(cache, layer, shared_head(h, n, n_kv)),
                    own_heads(heads, h, shared_head(h, n, n_kv), dim),
                    s,
                    #[trigger] head_values(out, h, dim),
                )
        };
    let t = choose|t: u32|
        {
            &&& #[trigger] is_head_scale(u, dim, t)
            &&& forall|h: int|
                0 <= h < n ==> is_head_output(
                    u,
                    cached,
                    cached_keys(cache, layer, shared_head(h, n, n_kv)),
                    cached_vectors(cache, layer, shared_head(h, n, n_kv)),
                    own_heads(heads, h, shared_head(h, n, n_kv), dim),
                    t,
                    #[trigger] head_values(other, h, dim),
                )
        };
    lemma_head_scale_once(u, dim, s, t);
    assert forall|i: int| 0 <= i < out.len() implies #[trigger] out[i] == other[i] by {
        if i < n * dim {
            assert(dim > 0) by (nonlinear_arith)
                requires
                    0 <= i < n * dim,
                    dim >= 0,
            ;
            let h = i / dim;
            let d = i % dim;
            vstd::arithmetic::div_mod::lemma_fundamental_div_mod(i, dim);
            assert(0 <= h < n) by (nonlinear_arith)
                requires
                    i == dim * h + d,
                    0 <= d < dim,
                    0 <= i < n * dim,
            ;
            assert(h * dim == dim * h) by (nonlinear_arith);
            let x = head_values(out, h, dim);
            let y = head_values(other, h, dim);
            lemma_head_output_once(
                u,
                cached,
                cached_keys(cache, layer, shared_head(h, n, n_kv)),
                cached_vectors(cache, layer, shared_head(h, n, n_kv)),
                own_heads(heads, h, shared_head(h, n, n_kv), dim),
                s,
                x,
                y,
            );
            assert(x[d] == out[i] && y[d] == other[i]);
        }
    }
    assert(out =~= other);
}

proof fn lemma_same_sums<U: FloatUnit>(u: &U, a: Seq<u32>, b: Seq<u32>, x: Seq<u32>, y: Seq<u32>)
    requires
        is_steady(u),
        is_added(u, a, b, x),
        is_added(u, a, b, y),
    ensures
        x == y,
{
    assert forall|i: int| 0 <= i < x.len() implies #[trigger] x[i] == y[i] by {
        assert(is_sum(u, a[i], b[i], x[i]) && is_sum(u, a[i], b[i], y[i]));
    }
    assert(x =~= y);
}

/// Each tensor of a layer is used for its own part: two models whose layers begin with the same values
/// differ in a part only where they differ in the tensors that the part is made with, or in an earlier
/// part.
pub proof fn law_tensors_are_used_for_their_parts<U: FloatUnit>(
    u: &U,
    a: HypnoModel<'_>,
    b: HypnoModel<'_>,
    config: HypnoConfig,
    layer: nat,
    cached: bool,
    by_columns: bool,
    before: BuffersModel,
    x: BuffersModel,
    y: BuffersModel,
)
    requires
        is_steady(u),
        is_layer(u, a, config, layer, cached, by_columns, before, x),
        is_layer(u, b, config, layer, cached, by_columns, before, y),
    ensures
        share(a, b, layer, "input_layernorm.weight"@) ==> {
            &&& share(a, b, layer, "self_attn.q_proj.weight"@) ==> x.heads.q == y.heads.q
            &&& share(a, b, layer, "self_attn.k_proj.weight"@) ==> x.heads.k == y.heads.k
            &&& share(a, b, layer, "self_attn.v_proj.weight"@) ==> x.heads.v == y.heads.v
        },
        x.heads == y.heads ==> x.cache == y.cache && x.found == y.found,
        x.found == y.found && share(a, b, layer, "self_attn.o_proj.weight"@) ==> x.residual
            == y.residual,
        x.residual == y.residual && share(a, b, layer, "post_attention_layernorm.weight"@)
            && share(a, b, layer, "mlp.up_proj.weight"@) ==> {
            &&& x.inner.up == y.inner.up
            &&& share(a, b, layer, "mlp.gate_proj.weight"@) ==> x.inner.gate == y.inner.gate
        },
        x.inner.gate == y.inner.gate && share(a, b, layer, "mlp.down_proj.weight"@)
            ==> x.inner.down == y.inner.down,
        x.residual == y.residual && x.inner.down == y.inner.down ==> x.hidden == y.hidden,
{
    let pos = crate::transformer::position(cached, before.cache);
    if share(a, b, layer, "input_layernorm.weight"@) {
        lemma_same_heads(
            u,
            a,
            b,
            config,
            layer,
            by_columns,
            pos,
            before.hidden,
            before.heads,
            x.heads,
            y.heads,
        );
    }
    if x.heads == y.heads {
        lemma_same_attention(
            u,
            config,
            layer as int,
            cached,
            x.heads,
            x.cache,
            x.found,
            y.found,
        );
    }
    let wo = layer_weights(a, layer, "self_attn.o_proj.weight"@);
    if x.found == y.found && share(a, b, layer, "self_attn.o_proj.weight"@) {
        let o = choose|o: Seq<u32>| #[trigger]
            is_output(u, wo, x.found, by_columns, o) && is_added(u, o, before.hidden, x.residual);
        let p = choose|p: Seq<u32>| #[trigger]
            is_output(u, wo, y.found, by_columns, p) && is_added(u, p, before.hidden, y.residual);
        lemma_output_once(u, wo, x.found, by_columns, o, p);
        lemma_same_sums(u, o, before.hidden, x.residual, y.residual);
    }
    let norm = layer_weights(a, layer, "post_attention_layernorm.weight"@);
    let n = choose|n: Seq<u32>|
        {
            &&& #[trigger] is_prepared(u, norm, x.residual, config.rms_norm_eps, n)
            &&& is_inner(u, a, layer, by_columns, true, n, before.inner, x.inner)
        };
    let m = choose|m: Seq<u32>|
        {
            &&& #[trigger] is_prepared(
                u,
                layer_weights(b, layer, "post_attention_layernorm.weight"@),
                y.residual,
                config.rms_norm_eps,
                m,
            )
            &&& is_inner(u, b, layer, by_columns, true, m, before.inner, y.inner)
        };
    if x.residual == y.residual && share(a, b, layer, "post_attention_layernorm.weight"@) {
        lemma_prepared_once(u, norm, x.residual, config.rms_norm_eps, n, m);
        if share(a, b, layer, "mlp.up_proj.weight"@) {
            lemma_projected_once(
                u,
                layer_weights(a, layer, "mlp.up_proj.weight"@),
                n,
                by_columns,
                before.inner.up,
                x.inner.up,
                y.inner.up,
            );
            if share(a, b, layer, "mlp.gate_proj.weight"@) {
                let wg = layer_weights(a, layer, "mlp.gate_proj.weight"@);
                let g = choose|g: Seq<u32>|
                    {
                        &&& #[trigger] is_projected(u, wg, n, by_columns, before.inner.gate, g)
                        &&& is_gated_all(u, g, x.inner.up, x.inner.gate)
                    };
                let h = choose|h: Seq<u32>|
                    {
                        &&& #[trigger] is_projected(u, wg, m, by_columns, before.inner.gate, h)
                        &&& is_gated_all(u, h, y.inner.up, y.inner.gate)
                    };
                lemma_projected_once(u, wg, n, by_columns, before.inner.gate, g, h);
                lemma_gated_once(u, g, x.inner.up, x.inner.gate, y.inner.gate);
            }
        }
    }
    if x.inner.gate == y.inner.gate && share(a, b, layer, "mlp.down_proj.weight"@) {
        let wd = layer_weights(a, layer, "mlp.down_proj.weight"@);
        if wd is Some {
            lemma_projected_once(
                u,
                wd,
                x.inner.gate,
                by_columns,
                before.inner.down,
                x.inner.down,
                y.inner.down,
            );
        }
    }
    if x.residual == y.residual && x.inner.down == y.inner.down {
        lemma_same_sums(u, x.residual, x.inner.down, x.hidden, y.hidden);
    }
}

/// A layer adds to the hidden values: on whole numbers, what comes out of the attention part is the
/// hidden values plus the projection of what the heads found, and what comes out of the layer is that
/// plus the feed-forward projection.
pub proof fn law_layer_adds_to_the_hidden_values<U: FloatUnit>(
    u: &U,
    w: spec_fn(nat) -> u32,
    limit: nat,
    model: HypnoModel<'_>,
    config: HypnoConfig,
    layer: nat,
    cached: bool,
    by_columns: bool,
    before: BuffersModel,
    after: BuffersModel,
    x: Seq<nat>,
    o: Seq<nat>,
    d: Seq<nat>,
    i: int,
)
    requires
        is_steady(u),
        counts(u, w, limit),
        is_layer(u, model, config, layer, cached, by_columns, before, after),
        before.hidden == patterns(w, x),
        is_output(
            u,
            part_of(model, layer, "self_attn.o_proj.weight"@),
            after.found,
            by_columns,
            patterns(w, o),
        ),
        after.inner.down == patterns(w, d),
        x.len() == o.len() == d.len(),
        0 <= i < x.len(),
        forall|k: int| 0 <= k < x.len() ==> #[trigger] x[k] + o[k] + d[k] <= limit,
    ensures
        after.residual[i] == w(x[i] + o[i]),
        after.hidden[i] == w(x[i] + o[i] + d[i]),
{
    let wo = layer_weights(model, layer, "self_attn.o_proj.weight"@);
    let p = choose|p: Seq<u32>| #[trigger]
        is_output(u, wo, after.found, by_columns, p) && is_added(
            u,
            p,
            before.hidden,
            after.residual,
        );
    lemma_output_once(u, wo, after.found, by_columns, p, patterns(w, o));
    assert(x[i] + o[i] + d[i] <= limit);
    assert(is_sum(u, w(o[i]), w(x[i]), after.residual[i]));
    assert(is_sum(u, after.residual[i], after.inner.down[i], after.hidden[i]));
    assert(is_sum(u, w(o[i] + x[i]), w(d[i]), after.hidden[i]));
}

/// With a cache a layer stores the keys and values of a token at the position that the cache is at, and
/// turns queries and keys to that position; nothing else of the cache changes. Without one, nothing is
/// stored.
pub proof fn law_layer_stores_its_keys_and_values<U: FloatUnit>(
    u: &U,
    model: HypnoModel<'_>,
    config: HypnoConfig,
    layer: nat,
    cached: bool,
    by_columns: bool,
    before: BuffersModel,
    after: BuffersModel,
    l: int,
    h: int,
    p: int,
    d: int,
)
    requires
        is_layer(u, model, config, layer, cached, by_columns, before, after),
        0 <= l < before.cache.keys.len() == before.cache.values.len(),
        0 <= h < before.cache.keys[l].len() == before.cache.values[l].len(),
        0 <= p < before.cache.keys[l][h].len() == before.cache.values[l][h].len(),
        0 <= d < before.cache.dim,
    ensures
        after.cache.pos == before.cache.pos,
        cached && l == layer && p == before.cache.pos ==> {
            &&& after.cache.keys[l][h][p][d] == after.heads.k[h * before.cache.dim + d]
            &&& after.cache.values[l][h][p][d] == after.heads.v[h * before.cache.dim + d]
        },
        !cached || l != layer || p != before.cache.pos ==> {
            &&& after.cache.keys[l][h][p] == before.cache.keys[l][h][p]
            &&& after.cache.values[l][h][p] == before.cache.values[l][h][p]
        },
{
}

/// A token goes through every layer of a model, one after another: the embedding is what the first layer
/// gets, each layer gets what the one before it gives, and what the last one gives is normed.
pub proof fn law_token_goes_through_every_layer<U: FloatUnit>(
    u: &U,
    model: HypnoModel<'_>,
    config: HypnoConfig,
    token: u32,
    cached: bool,
    by_columns: bool,
    before: BuffersModel,
    after: BuffersModel,
    logits: Seq<u32>,
)
    requires
        is_forward(u, model, config, token, cached, by_columns, before, after, logits),
    ensures
        after.cache.pos == before.cache.pos + if cached {
            1int
        } else {
            0int
        },
        exists|states: Seq<BuffersModel>|
            {
                &&& states.len() == config.num_hidden_layers + 1
                &&& states[0].hidden.len() == config.hidden_size
                &&& weights(model, "model.embed_tokens.weight"@) matches Some(table) ==> forall|i: int|
                    0 <= i < config.hidden_size ==> is_weight(
                        u,
                        table.1,
                        table.0,
                        if by_columns {
                            i * config.vocab_size + token
                        } else {
                            token * config.hidden_size + i
                        },
                        #[trigger] states[0].hidden[i],
                    )
                &&& states[0].cache == before.cache
                &&& forall|l: int|
                    0 <= l < config.num_hidden_layers ==> is_layer(
                        u,
                        model,
                        config,
                        l as nat,
                        cached,
                        by_columns,
                        #[trigger] states[l],
                        states[l + 1],
                    )
                &&& #[trigger] is_prepared(
                    u,
                    weights(model, "model.norm.weight"@),
                    states.last().hidden,
                    config.rms_norm_eps,
                    after.hidden,
                )
            },
{
    reveal(is_forward);
    let states = choose|states: Seq<BuffersModel>| #[trigger]
        is_token_run(u, model, config, token, cached, by_columns, before, after, states);
    assert forall|l: int| 0 <= l < config.num_hidden_layers implies is_layer(
        u,
        model,
        config,
        l as nat,
        cached,
        by_columns,
        #[trigger] states[l],
        states[l + 1],
    ) by {
        assert(is_layer_at(u, model, config, cached, by_columns, states, l));
    }
    lemma_position_stays(u, model, config, cached, by_columns, states, states.len() as int - 1);
    assert(is_prepared(
        u,
        weights(model, "model.norm.weight"@),
        states.last().hidden,
        config.rms_norm_eps,
        after.hidden,
    ));
}

proof fn lemma_position_stays<U: FloatUnit>(
    u: &U,
    model: HypnoModel<'_>,
    config: HypnoConfig,
    cached: bool,
    by_columns: bool,
    states: Seq<BuffersModel>,
    l: int,
)
    requires
        crate::transformer::is_run(u, model, config, cached, by_columns, states),
        0 <= l < states.len(),
    ensures
        states[l].cache.pos == states[0].cache.pos,
    decreases l,
{
    if l > 0 {
        lemma_position_stays(u, model, config, cached, by_columns, states, l - 1);
        assert(is_layer_at(u, model, config, cached, by_columns, states, l - 1));
    }
}

/// The logits are made of the normed hidden values by the matrix of the head, or by the embeddings where
/// a model has no head: two models with the same matrix give the same logits for the same values.
pub proof fn law_logits_are_of_the_head<U: FloatUnit>(
    u: &U,
    a: HypnoModel<'_>,
    b: HypnoModel<'_>,
    by_columns: bool,
    vocab: nat,
    x: Seq<u32>,
    first: Seq<u32>,
    second: Seq<u32>,
)
    requires
        is_steady(u),
        is_logits(u, a, by_columns, vocab, x, first),
        is_logits(u, b, by_columns, vocab, x, second),
        weights(a, "lm_head.weight"@) == weights(b, "lm_head.weight"@),
        weights(a, "lm_head.weight"@) is None ==> weights(a, "model.embed_tokens.weight"@)
            == weights(b, "model.embed_tokens.weight"@),
    ensures
        first == second,
        first.len() == vocab,
{
    if let Some((data, dtype)) = head_matrix(a) {
        lemma_projection_once(u, dtype, data, x, by_columns, first, second);
    }
}

/// Queries and keys carry their position, values do not: where the same hidden values are passed through a
/// layer at two positions, the values of both are the same, and the queries and keys of both are the same
/// projections, turned to the one position and to the other.
pub proof fn law_queries_and_keys_carry_their_position<U: FloatUnit>(
    u: &U,
    model: HypnoModel<'_>,
    config: HypnoConfig,
    layer: nat,
    by_columns: bool,
    a: BuffersModel,
    b: BuffersModel,
    x: BuffersModel,
    y: BuffersModel,
)
    requires
        is_steady(u),
        is_layer(u, model, config, layer, true, by_columns, a, x),
        is_layer(u, model, config, layer, true, by_columns, b, y),
        a.hidden == b.hidden,
        a.heads == b.heads,
    ensures
        x.heads.v == y.heads.v,
        exists|q: Seq<u32>|
            {
                &&& #[trigger] is_rotated(
                    u,
                    q,
                    config.head_dim as int,
                    a.cache.pos as int,
                    config.rope_theta,
                    x.heads.q,
                )
                &&& is_rotated(
                    u,
                    q,
                    config.head_dim as int,
                    b.cache.pos as int,
                    config.rope_theta,
                    y.heads.q,
                )
            },
        exists|k: Seq<u32>|
            {
                &&& #[trigger] is_rotated(
                    u,
                    k,
                    config.head_dim as int,
                    a.cache.pos as int,
                    config.rope_theta,
                    x.heads.k,
                )
                &&& is_rotated(
                    u,
                    k,
                    config.head_dim as int,
                    b.cache.pos as int,
                    config.rope_theta,
                    y.heads.k,
                )
            },
{
    let norm = layer_weights(model, layer, "input_layernorm.weight"@);
    let wq = layer_weights(model, layer, "self_attn.q_proj.weight"@);
    let wk = layer_weights(model, layer, "self_attn.k_proj.weight"@);
    let wv = layer_weights(model, layer, "self_attn.v_proj.weight"@);
    let dim = config.head_dim as int;
    let (p1, p2) = (a.cache.pos as int, b.cache.pos as int);
    let n = choose|n: Seq<u32>|
        {
            &&& #[trigger] is_prepared(u, norm, a.hidden, config.rms_norm_eps, n)
            &&& is_turned_projection(u, wq, n, by_columns, config, p1, a.heads.q, x.heads.q)
            &&& is_turned_projection(u, wk, n, by_columns, config, p1, a.heads.k, x.heads.k)
            &&& is_projected(u, wv, n, by_columns, a.heads.v, x.heads.v)
        };
    let m = choose|m: Seq<u32>|
        {
            &&& #[trigger] is_prepared(u, norm, b.hidden, config.rms_norm_eps, m)
            &&& is_turned_projection(u, wq, m, by_columns, config, p2, b.heads.q, y.heads.q)
            &&& is_turned_projection(u, wk, m, by_columns, config, p2, b.heads.k, y.heads.k)
            &&& is_projected(u, wv, m, by_columns, b.heads.v, y.heads.v)
        };
    lemma_prepared_once(u, norm, a.hidden, config.rms_norm_eps, n, m);
    lemma_projected_once(u, wv, n, by_columns, a.heads.v, x.heads.v, y.heads.v);
    let theta = config.rope_theta;
    let q1 = choose|q: Seq<u32>| #[trigger]
        is_projected(u, wq, n, by_columns, a.heads.q, q) && is_rotated(
            u,
            q,
            dim,
            p1,
            theta,
            x.heads.q,
        );
    let q2 = choose|q: Seq<u32>| #[trigger]
        is_projected(u, wq, m, by_columns, b.heads.q, q) && is_rotated(
            u,
            q,
            dim,
            p2,
            theta,
            y.heads.q,
        );
    lemma_projected_once(u, wq, n, by_columns, a.heads.q, q1, q2);
    let k1 = choose|k: Seq<u32>| #[trigger]
        is_projected(u, wk, n, by_columns, a.heads.k, k) && is_rotated(
            u,
            k,
            dim,
            p1,
            theta,
            x.heads.k,
        );
    let k2 = choose|k: Seq<u32>| #[trigger]
        is_projected(u, wk, m, by_columns, b.heads.k, k) && is_rotated(
            u,
            k,
            dim,
            p2,
            theta,
            y.heads.k,
        );
    lemma_projected_once(u, wk, n, by_columns, a.heads.k, k1, k2);
    assert(is_rotated(u, q1, dim, p1, theta, x.heads.q));
    assert(is_rotated(u, k1, dim, p1, theta, x.heads.k));
}

/// Values are projected from the normed hidden values, not from the hidden values themselves: on whole
/// numbers whose mean square plus epsilon is 1, and with a norm whose weights are whole numbers, value `r` is
/// the sum over `j` of element `j` of row `r` of the matrix times hidden value `j` times its weight.
pub proof fn law_values_are_of_the_normed_hidden_values<U: FloatUnit>(
    u: &U,
    w: spec_fn(nat) -> u32,
    limit: nat,
    model: HypnoModel<'_>,
    config: HypnoConfig,
    layer: nat,
    cached: bool,
    by_columns: bool,
    before: BuffersModel,
    after: BuffersModel,
    norm: (Seq<u8>, DType),
    weight: Seq<nat>,
    table: (Seq<u8>, DType),
    matrix: Seq<nat>,
    x: Seq<nat>,
    eps: nat,
    mean: nat,
    r: int,
)
    requires
        measures(u, w, limit),
        is_layer(u, model, config, layer, cached, by_columns, before, after),
        part_of(model, layer, "input_layernorm.weight"@) == Some(norm),
        part_of(model, layer, "self_attn.v_proj.weight"@) == Some(table),
        !norm.1.quantized(),
        holds(u, norm.1, norm.0, w, weight),
        holds(u, table.1, table.0, w, matrix),
        before.hidden == patterns(w, x),
        config.rms_norm_eps == w(eps),
        0 < x.len() <= limit,
        weight.len() == x.len(),
        within(x, limit),
        within(weight, limit),
        within(matrix, limit),
        forall|j: int| 0 <= j < x.len() ==> #[trigger] x[j] * weight[j] <= limit,
        sum_to(|j: int| x[j] * x[j], x.len() as int) == mean * x.len(),
        mean * x.len() <= limit,
        mean + eps == 1,
        matrix.len() == after.heads.v.len() * x.len(),
        0 <= r < after.heads.v.len(),
        sum_to(
            |j: int|
                matrix[matrix_place(by_columns, after.heads.v.len() as int, x.len() as int, r, j)]
                    * (x[j] * weight[j]),
            x.len() as int,
        ) <= limit,
    ensures
        after.heads.v[r] == w(
            sum_to(
                |j: int|
                    matrix[matrix_place(
                        by_columns,
                        after.heads.v.len() as int,
                        x.len() as int,
                        r,
                        j,
                    )] * (x[j] * weight[j]),
                x.len() as int,
            ),
        ),
{
    let n = after.heads.v.len() as int;
    let m = x.len() as int;
    let y = choose|y: Seq<u32>|
        {
            &&& #[trigger] is_prepared(
                u,
                layer_weights(model, layer, "input_layernorm.weight"@),
                before.hidden,
                config.rms_norm_eps,
                y,
            )
            &&& is_projected(
                u,
                layer_weights(model, layer, "self_attn.v_proj.weight"@),
                y,
                by_columns,
                before.heads.v,
                after.heads.v,
            )
        };
    let ws = choose|ws: Seq<u32>| #[trigger]
        is_norm_weights(u, Some(norm), before.hidden.len(), ws) && is_normed(
            u,
            before.hidden,
            ws,
            config.rms_norm_eps,
            y,
        );
    let z = Seq::new(x.len(), |j: int| x[j] * weight[j]);
    law_norm_is_by_the_root_mean_square(u, w, limit, x, ws, eps, mean, 1, y, 0);
    assert forall|j: int| 0 <= j < m implies #[trigger] y[j] == patterns(w, z)[j] by {
        law_norm_is_by_the_root_mean_square(u, w, limit, x, ws, eps, mean, 1, y, j);
        assert(is_weight(u, norm.1, norm.0, j, ws[j]));
        assert(x[j] * weight[j] <= limit);
        assert(x[j] <= limit && weight[j] <= limit);
        assert(is_product(u, w(x[j]), w(weight[j]), y[j]));
    }
    assert(y =~= patterns(w, z));
    assert forall|j: int| 0 <= j < z.len() implies #[trigger] z[j] <= limit by {
        assert(x[j] * weight[j] <= limit);
    }
    let f = |j: int| matrix[matrix_place(by_columns, n, m, r, j)] * (x[j] * weight[j]);
    let g = |j: int| matrix[matrix_place(by_columns, n, m, r, j)] * z[j];
    lemma_sum_same(f, g, m);
    law_projection_is_the_matrix_product(
        u,
        w,
        limit,
        table.1,
        table.0,
        matrix,
        z,
        by_columns,
        after.heads.v,
        r,
    );
}

} // verus!
