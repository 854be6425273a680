//! The dimensions of a model, as the metadata of its file give them.

use vstd::prelude::*;
use crate::cache::{layer_len, CachePrecision};
use crate::convert::{config_entries, kv_heads, model_entries, or_else};
use crate::float::{is_read_single, FloatUnit};
use crate::format::MetaModel;
use crate::json::JsonModel;
use crate::loader::{meta_value, HypnoModel};
use crate::text::{decimal_digits, law_decimal_round_trip, parse_usize, written_number};

verus! {

/// 1e-5 in 32 bits.
pub const DEFAULT_EPS: u32 = 0x3727_C5AC;

/// 10000 in 32 bits.
pub const DEFAULT_THETA: u32 = 0x461C_4000;

/// The dimensions of a model. Epsilon and theta are 32-bit patterns.
#[derive(Debug, Clone)]
pub struct HypnoConfig {
    pub hidden_size: usize,
    pub intermediate_size: usize,
    pub num_attention_heads: usize,
    pub num_key_value_heads: usize,
    pub num_hidden_layers: usize,
    pub vocab_size: usize,
    pub max_position_embeddings: usize,
    pub rms_norm_eps: u32,
    pub rope_theta: u32,
    pub head_dim: usize,
}

/// The whole number under a metadata key, if there is one that fits.
pub open spec fn meta_number(metas: Seq<MetaModel>, key: Seq<char>) -> Option<nat> {
    match meta_value(metas, key) {
        Some(v) => match written_number(v) {
            Some(n) => if n <= usize::MAX {
                Some(n)
            } else {
                None
            },
            None => None,
        },
        None => None,
    }
}

/// The whole number under a metadata key, or a default.
pub open spec fn number_or(metas: Seq<MetaModel>, key: Seq<char>, default: int) -> int {
    match meta_number(metas, key) {
        Some(n) => n as int,
        None => default,
    }
}

/// `r` can be the 32-bit value under a metadata key, or the default where none can be read.
pub open spec fn is_single_or<U: FloatUnit>(
    u: &U,
    metas: Seq<MetaModel>,
    key: Seq<char>,
    default: u32,
    r: u32,
) -> bool {
    match meta_value(metas, key) {
        Some(v) => {
            ||| is_read_single(u, v, Some(r))
            ||| is_read_single(u, v, None) && r == default
        },
        None => r == default,
    }
}

/// Whether metadata give the dimensions of a model: the hidden size and a number of heads above
/// 0, and an intermediate size, if only the default one, that fits.
pub open spec fn describes_model(metas: Seq<MetaModel>) -> bool {
    &&& meta_number(metas, "hidden_size"@) is Some
    &&& meta_number(metas, "num_attention_heads"@) matches Some(h) && h > 0
    &&& meta_number(metas, "intermediate_size"@) is Some || meta_number(
        metas,
        "hidden_size"@,
    )->0 * 8 <= usize::MAX
}

/// `c` can be the dimensions that metadata give.
pub open spec fn is_config<U: FloatUnit>(u: &U, metas: Seq<MetaModel>, c: HypnoConfig) -> bool {
    let hidden = meta_number(metas, "hidden_size"@)->0;
    let heads = meta_number(metas, "num_attention_heads"@)->0;
    &&& c.hidden_size == hidden
    &&& c.num_attention_heads == heads
    &&& c.head_dim == hidden / heads
    &&& c.num_key_value_heads == number_or(metas, "num_key_value_heads"@, heads as int)
    &&& c.intermediate_size == number_or(metas, "intermediate_size"@, (hidden * 8 / 3) as int)
    &&& c.num_hidden_layers == number_or(metas, "num_hidden_layers"@, 0)
    &&& c.vocab_size == number_or(metas, "vocab_size"@, 32000)
    &&& c.max_position_embeddings == number_or(metas, "max_position_embeddings"@, 2048)
    &&& is_single_or(u, metas, "rms_norm_eps"@, DEFAULT_EPS, c.rms_norm_eps)
    &&& is_single_or(u, metas, "rope_theta"@, DEFAULT_THETA, c.rope_theta)
}

fn number_of(model: &HypnoModel<'_>, key: &str) -> (r: Option<usize>)
    ensures
        match r {
            Some(n) => meta_number(model.metas(), key@) == Some(n as nat),
            None => meta_number(model.metas(), key@) is None,
        },
{
    match model.get_metadata(key) {
        Some(v) => parse_usize(v),
        None => None,
    }
}

fn default_or(n: Option<usize>, default: usize) -> (r: usize)
    ensures
        r == match n {
            Some(x) => x,
            None => default,
        },
{
    match n {
        Some(x) => x,
        None => default,
    }
}

fn single_of<U: FloatUnit>(model: &HypnoModel<'_>, key: &str, default: u32, unit: &U) -> (r: u32)
    ensures
        is_single_or(unit, model.metas(), key@, default, r),
{
    match model.get_metadata(key) {
        Some(v) => match unit.read_single(v) {
            Some(x) => {
                assert(is_read_single(unit, v@, Some(x)));
                x
            },
            None => {
                assert(is_read_single(unit, v@, None));
                default
            },
        },
        None => default,
    }
}

impl HypnoConfig {
    /// The dimensions of a model, or `None` where its metadata do not give them.
    pub fn from_model<U: FloatUnit>(model: &HypnoModel<'_>, unit: &U) -> (r: Option<HypnoConfig>)
        ensures
            r is Some <==> describes_model(model.metas()),
            r matches Some(c) ==> is_config(unit, model.metas(), c),
    {
        let hidden: usize = match number_of(model, "hidden_size") {
            Some(n) => n,
            None => {
                return None;
            },
        };
        let heads: usize = match number_of(model, "num_attention_heads") {
            Some(n) => n,
            None => {
                return None;
            },
        };
        if heads == 0 {
            return None;
        }
        let inner: usize = match number_of(model, "intermediate_size") {
            Some(n) => n,
            None => match hidden.checked_mul(8) {
                Some(n) => n / 3,
                None => {
                    return None;
                },
            },
        };
        Some(
            HypnoConfig {
                hidden_size: hidden,
                intermediate_size: inner,
                num_attention_heads: heads,
                num_key_value_heads: default_or(number_of(model, "num_key_value_heads"), heads),
                num_hidden_layers: default_or(number_of(model, "num_hidden_layers"), 0),
                vocab_size: default_or(number_of(model, "vocab_size"), 32000),
                max_position_embeddings: default_or(
                    number_of(model, "max_position_embeddings"),
                    2048,
                ),
                rms_norm_eps: single_of(model, "rms_norm_eps", DEFAULT_EPS, unit),
                rope_theta: single_of(model, "rope_theta", DEFAULT_THETA, unit),
                head_dim: hidden / heads,
            },
        )
    }

    /// Values in the keys, or in the values, of one layer of the cache.
    pub open spec fn cached_values(self) -> int {
        layer_len(
            self.num_key_value_heads as int,
            self.max_position_embeddings as int,
            self.head_dim as int,
        )
    }

    /// Bytes of one layer of the cache.
    pub open spec fn layer_bytes(self, precision: CachePrecision) -> int {
        2 * self.cached_values() * precision.width()
    }

    /// Bytes of one layer of the cache, keys and values.
    pub fn kv_cache_bytes_per_layer(&self, precision: CachePrecision) -> (r: usize)
        requires
            self.layer_bytes(precision) <= usize::MAX,
            self.num_key_value_heads * self.max_position_embeddings <= usize::MAX,
        ensures
            r == self.layer_bytes(precision),
    {
        proof {
            let all = self.cached_values();
            let w = precision.width();
            let heads = self.num_key_value_heads * self.max_position_embeddings;
            let dim = self.head_dim;
            assert(heads >= 0) by (nonlinear_arith)
                requires
                    heads == self.num_key_value_heads * self.max_position_embeddings,
            ;
            assert(all >= 0) by (nonlinear_arith)
                requires
                    all == heads * dim,
                    heads >= 0,
            ;
            assert(2 * all <= 2 * all * w) by (nonlinear_arith)
                requires
                    all >= 0,
                    w >= 1,
            ;
        }
        2 * (self.num_key_value_heads * self.max_position_embeddings * self.head_dim)
            * precision.bytes_per_element()
    }

    /// Bytes of the cache, all layers together.
    pub fn total_kv_cache_bytes(&self, precision: CachePrecision) -> (r: usize)
        requires
            self.layer_bytes(precision) <= usize::MAX,
            self.num_key_value_heads * self.max_position_embeddings <= usize::MAX,
            self.num_hidden_layers * self.layer_bytes(precision) <= usize::MAX,
        ensures
            r == self.num_hidden_layers * self.layer_bytes(precision),
    {
        self.num_hidden_layers * self.kv_cache_bytes_per_layer(precision)
    }

    /// Bytes of the weights of one layer with values of 32 bits: four square projections by their
    /// values, three projections between hidden and intermediate size, and a norm.
    pub open spec fn weight_bytes(self) -> int {
        self.hidden_size * self.hidden_size * 4 + self.hidden_size * self.intermediate_size * 12
            + self.hidden_size * 4
    }

    /// Bytes that an estimate counts.
    pub open spec fn estimated_bytes(self, precision: CachePrecision, layers: nat) -> int {
        layers * self.weight_bytes() + self.num_hidden_layers * self.layer_bytes(precision)
            + self.hidden_size * 40
    }

    /// An estimate of the memory for a run, in whole megabytes of 2^20 bytes.
    pub fn estimate_ram_mb(&self, precision: CachePrecision, active_layers: usize) -> (r: usize)
        requires
            self.weight_bytes() <= usize::MAX,
            self.layer_bytes(precision) <= usize::MAX,
            self.num_key_value_heads * self.max_position_embeddings <= usize::MAX,
            self.num_hidden_layers * self.layer_bytes(precision) <= usize::MAX,
            self.estimated_bytes(precision, active_layers as nat) <= usize::MAX,
        ensures
            r == self.estimated_bytes(precision, active_layers as nat) / 1_048_576,
    {
        proof {
            let h = self.hidden_size;
            let i = self.intermediate_size;
            assert(0 <= h * h && 0 <= h * i) by (nonlinear_arith)
                requires
                    h >= 0,
                    i >= 0,
            ;
            let w = self.weight_bytes();
            let n = self.num_hidden_layers;
            let c = self.layer_bytes(precision);
            assert(0 <= c) by (nonlinear_arith)
                requires
                    c == 2 * (((self.num_key_value_heads * self.max_position_embeddings))
                        * self.head_dim) * precision.width(),
            ;
            assert(0 <= active_layers * w && 0 <= n * c) by (nonlinear_arith)
                requires
                    w >= 0,
                    c >= 0,
                    n >= 0,
                    active_layers >= 0,
            ;
        }
        let weights: usize = self.hidden_size * self.hidden_size * 4 + self.hidden_size
            * self.intermediate_size * 12 + self.hidden_size * 4;
        let active: usize = active_layers * weights;
        let cached: usize = self.total_kv_cache_bytes(precision);
        (active + cached + self.hidden_size * 10 * 4) / 1_048_576
    }
}

impl HypnoConfig {
    /// The products of the dimensions fit into an address, and the heads fit into the hidden size.
    pub open spec fn sized(self) -> bool {
        &&& self.num_attention_heads * self.head_dim <= self.hidden_size
        &&& self.hidden_size * self.hidden_size <= usize::MAX
        &&& self.intermediate_size * self.hidden_size <= usize::MAX
        &&& self.vocab_size * self.hidden_size <= usize::MAX
        &&& self.num_key_value_heads * self.head_dim <= usize::MAX
        &&& (self.num_key_value_heads * self.head_dim) * self.hidden_size <= usize::MAX
        &&& self.num_key_value_heads * self.max_position_embeddings <= usize::MAX
        &&& self.cached_values() <= usize::MAX
    }

    /// A model of these dimensions can be run: its heads are made of pairs, and there are heads of
    /// keys and values.
    pub open spec fn runnable(self) -> bool {
        &&& self.sized()
        &&& self.head_dim > 0
        &&& self.head_dim % 2 == 0
        &&& self.num_key_value_heads > 0
    }

    /// Whether a model of these dimensions can be run.
    pub fn is_runnable(&self) -> (r: bool)
        ensures
            r == self.runnable(),
    {
        let q: usize = match self.num_attention_heads.checked_mul(self.head_dim) {
            Some(n) => n,
            None => {
                return false;
            },
        };
        let kv: usize = match self.num_key_value_heads.checked_mul(self.head_dim) {
            Some(n) => n,
            None => {
                return false;
            },
        };
        let slots: usize = match self.num_key_value_heads.checked_mul(
            self.max_position_embeddings,
        ) {
            Some(n) => n,
            None => {
                return false;
            },
        };
        q <= self.hidden_size && self.hidden_size.checked_mul(self.hidden_size).is_some()
            && self.intermediate_size.checked_mul(self.hidden_size).is_some()
            && self.vocab_size.checked_mul(self.hidden_size).is_some() && kv.checked_mul(
            self.hidden_size,
        ).is_some() && slots.checked_mul(self.head_dim).is_some() && self.head_dim > 0
            && self.head_dim % 2 == 0 && self.num_key_value_heads > 0
    }

    /// The sizes of the projections of a layer fit into an address.
    pub proof fn lemma_products(self)
        requires
            self.sized(),
        ensures
            (self.num_attention_heads * self.head_dim) * self.hidden_size <= usize::MAX,
            self.hidden_size * self.intermediate_size <= usize::MAX,
    {
        let q = self.num_attention_heads * self.head_dim;
        let h = self.hidden_size;
        let i = self.intermediate_size;
        assert(q * h <= h * h && h * i == i * h) by (nonlinear_arith)
            requires
                q <= h,
                h >= 0,
        ;
    }
}

/// A cache of 16-bit values takes half the bytes of one of 32-bit values.
pub proof fn law_half_precision_halves_cache(c: HypnoConfig)
    ensures
        c.layer_bytes(CachePrecision::FP32) == 2 * c.layer_bytes(CachePrecision::FP16),
        c.num_hidden_layers * c.layer_bytes(CachePrecision::FP32) == 2 * (c.num_hidden_layers
            * c.layer_bytes(CachePrecision::FP16)),
{
    let n = c.num_hidden_layers;
    let a = c.layer_bytes(CachePrecision::FP16);
    let b = c.layer_bytes(CachePrecision::FP32);
    assert(n * b == 2 * (n * a)) by (nonlinear_arith)
        requires
            b == 2 * a,
    ;
}

/// The value of an entry whose key no entry before it has is the value of its key.
proof fn lemma_first_entry(metas: Seq<MetaModel>, i: int)
    requires
        0 <= i < metas.len(),
        forall|j: int| 0 <= j < i ==> (#[trigger] metas[j]).key != metas[i].key,
    ensures
        meta_value(metas, metas[i].key) == Some(metas[i].value),
    decreases metas.len(),
{
    let front = metas.drop_last();
    if i < metas.len() - 1 {
        assert forall|j: int| 0 <= j < i implies (#[trigger] front[j]).key != front[i].key by {
            assert(metas[j].key != metas[i].key);
        }
        lemma_first_entry(front, i);
    } else {
        lemma_no_entry(front, metas[i].key);
    }
}

proof fn lemma_no_entry(metas: Seq<MetaModel>, key: Seq<char>)
    requires
        forall|j: int| 0 <= j < metas.len() ==> (#[trigger] metas[j]).key != key,
    ensures
        meta_value(metas, key) is None,
    decreases metas.len(),
{
    if metas.len() > 0 {
        let front = metas.drop_last();
        assert forall|j: int| 0 <= j < front.len() implies (#[trigger] front[j]).key != key by {
            assert(front[j] == metas[j]);
        }
        lemma_no_entry(front, key);
        assert(metas[metas.len() - 1].key != key);
    }
}

/// The keys of the entries that a model's configuration gives differ.
proof fn lemma_keys_differ(config: JsonModel)
    ensures
        config_entries(config).len() == 10,
        forall|i: int, j: int|
            0 <= i < j < 10 ==> (#[trigger] config_entries(config)[i]).key != (
            #[trigger] config_entries(config)[j]).key,
{
    reveal_strlit("architecture");
    reveal_strlit("hidden_size");
    reveal_strlit("intermediate_size");
    reveal_strlit("num_attention_heads");
    reveal_strlit("num_key_value_heads");
    reveal_strlit("num_hidden_layers");
    reveal_strlit("vocab_size");
    reveal_strlit("max_position_embeddings");
    reveal_strlit("rms_norm_eps");
    reveal_strlit("rope_theta");
    let e = config_entries(config);
    assert(e[0].key == "architecture"@ && "architecture"@.len() == 12);
    assert(e[1].key == "hidden_size"@ && "hidden_size"@.len() == 11);
    assert(e[2].key == "intermediate_size"@ && "intermediate_size"@.len() == 17);
    assert(e[3].key == "num_attention_heads"@ && "num_attention_heads"@.len() == 19);
    assert(e[4].key == "num_key_value_heads"@ && "num_key_value_heads"@.len() == 19);
    assert(e[5].key == "num_hidden_layers"@ && "num_hidden_layers"@.len() == 17);
    assert(e[6].key == "vocab_size"@ && "vocab_size"@.len() == 10);
    assert(e[7].key == "max_position_embeddings"@ && "max_position_embeddings"@.len() == 23);
    assert(e[8].key == "rms_norm_eps"@ && "rms_norm_eps"@.len() == 12);
    assert(e[9].key == "rope_theta"@ && "rope_theta"@.len() == 10);
    assert("architecture"@[0] == 'a' && "rms_norm_eps"@[0] == 'r');
    assert("intermediate_size"@[0] == 'i' && "num_hidden_layers"@[0] == 'n');
    assert("num_attention_heads"@[4] == 'a' && "num_key_value_heads"@[4] == 'k');
    assert("vocab_size"@[0] == 'v' && "rope_theta"@[0] == 'r');
}

/// Where the metadata of a converted model hold a whole number, it is read back.
proof fn lemma_number_reads_back(
    config: JsonModel,
    tokenizer: Option<Seq<char>>,
    col_major: bool,
    i: int,
    n: u64,
)
    requires
        0 <= i < 10,
        config_entries(config)[i].value == decimal_digits(n as nat),
        n <= usize::MAX,
    ensures
        meta_number(
            model_entries(config, tokenizer, col_major),
            config_entries(config)[i].key,
        ) == Some(n as nat),
{
    let metas = model_entries(config, tokenizer, col_major);
    lemma_keys_differ(config);
    assert forall|j: int| 0 <= j < 10 implies metas[j] == config_entries(config)[j] by {
    }
    assert forall|j: int| 0 <= j < i implies (#[trigger] metas[j]).key != metas[i].key by {
        assert(config_entries(config)[j].key != config_entries(config)[i].key);
    }
    lemma_first_entry(metas, i);
    law_decimal_round_trip(n as nat);
}

/// The dimensions in a model's configuration, as far as they fit.
pub open spec fn fits_config(config: JsonModel) -> bool {
    &&& or_else(config.member("hidden_size"@).whole(), 0) <= usize::MAX
    &&& or_else(config.member("intermediate_size"@).whole(), 0) <= usize::MAX
    &&& 0 < or_else(config.member("num_attention_heads"@).whole(), 0) <= usize::MAX
    &&& kv_heads(config) <= usize::MAX
    &&& or_else(config.member("num_hidden_layers"@).whole(), 0) <= usize::MAX
    &&& or_else(config.member("vocab_size"@).whole(), 32000) <= usize::MAX
    &&& or_else(config.member("max_position_embeddings"@).whole(), 2048) <= usize::MAX
}

/// What a read gives back of the dimensions that a conversion writes: a converted model can be
/// described, and the dimensions in its metadata are those of its configuration.
pub proof fn law_dimensions_read_back<U: FloatUnit>(
    u: &U,
    config: JsonModel,
    tokenizer: Option<Seq<char>>,
    col_major: bool,
    c: HypnoConfig,
)
    requires
        fits_config(config),
    ensures
        describes_model(model_entries(config, tokenizer, col_major)),
        is_config(u, model_entries(config, tokenizer, col_major), c) ==> {
            &&& c.hidden_size == or_else(config.member("hidden_size"@).whole(), 0)
            &&& c.intermediate_size == or_else(config.member("intermediate_size"@).whole(), 0)
            &&& c.num_attention_heads == or_else(config.member("num_attention_heads"@).whole(), 0)
            &&& c.num_key_value_heads == kv_heads(config)
            &&& c.num_hidden_layers == or_else(config.member("num_hidden_layers"@).whole(), 0)
            &&& c.vocab_size == or_else(config.member("vocab_size"@).whole(), 32000)
            &&& c.max_position_embeddings == or_else(
                config.member("max_position_embeddings"@).whole(),
                2048,
            )
            &&& c.head_dim == c.hidden_size / c.num_attention_heads
        },
{
    let whole = |key: Seq<char>, d: u64| or_else(config.member(key).whole(), d);
    lemma_number_reads_back(config, tokenizer, col_major, 1, whole("hidden_size"@, 0));
    lemma_number_reads_back(config, tokenizer, col_major, 2, whole("intermediate_size"@, 0));
    lemma_number_reads_back(config, tokenizer, col_major, 3, whole("num_attention_heads"@, 0));
    lemma_number_reads_back(config, tokenizer, col_major, 4, kv_heads(config));
    lemma_number_reads_back(config, tokenizer, col_major, 5, whole("num_hidden_layers"@, 0));
    lemma_number_reads_back(config, tokenizer, col_major, 6, whole("vocab_size"@, 32000));
    lemma_number_reads_back(
        config,
        tokenizer,
        col_major,
        7,
        whole("max_position_embeddings"@, 2048),
    );
}

/// What a read gives back of the rest of the metadata of a converted model: its epsilon and its theta are
/// read from the texts of its configuration, the order of its weights is the one that was asked for, and its
/// tokenizer is the document that was given.
pub proof fn law_other_entries_read_back<U: FloatUnit>(
    u: &U,
    config: JsonModel,
    tokenizer: Option<Seq<char>>,
    col_major: bool,
    c: HypnoConfig,
)
    requires
        is_config(u, model_entries(config, tokenizer, col_major), c),
    ensures
        ({
            let metas = model_entries(config, tokenizer, col_major);
            &&& config.member("rms_norm_eps"@).float_text() matches Some(s) ==> is_read_single(
                u,
                s,
                Some(c.rms_norm_eps),
            ) || (is_read_single(u, s, None) && c.rms_norm_eps == DEFAULT_EPS)
            &&& config.member("rope_theta"@).float_text() matches Some(s) ==> is_read_single(
                u,
                s,
                Some(c.rope_theta),
            ) || (is_read_single(u, s, None) && c.rope_theta == DEFAULT_THETA)
            &&& meta_value(metas, "weight_layout"@) == Some(
                if col_major {
                    "col_major"@
                } else {
                    "row_major"@
                },
            )
            &&& meta_value(metas, "tokenizer_json"@) == tokenizer
        }),
{
    let metas = model_entries(config, tokenizer, col_major);
    lemma_keys_differ(config);
    reveal_strlit("weight_layout");
    reveal_strlit("tokenizer_json");
    reveal_strlit("architecture");
    reveal_strlit("hidden_size");
    reveal_strlit("intermediate_size");
    reveal_strlit("num_attention_heads");
    reveal_strlit("num_key_value_heads");
    reveal_strlit("num_hidden_layers");
    reveal_strlit("vocab_size");
    reveal_strlit("max_position_embeddings");
    reveal_strlit("rms_norm_eps");
    reveal_strlit("rope_theta");
    assert("weight_layout"@.len() == 13 && "tokenizer_json"@.len() == 14);
    let e = config_entries(config);
    assert forall|j: int| 0 <= j < 10 implies #[trigger] metas[j] == e[j] && metas[j].key
        != "weight_layout"@ && metas[j].key != "tokenizer_json"@ by {
        assert(metas[j] == e[j]);
        if j < 5 {
            assert(j == 0 || j == 1 || j == 2 || j == 3 || j == 4);
        } else {
            assert(j == 5 || j == 6 || j == 7 || j == 8 || j == 9);
        }
    }
    assert(metas[10].key == "weight_layout"@);
    lemma_first_entry(metas, 10);
    assert forall|j: int| 0 <= j < 8 implies (#[trigger] metas[j]).key != metas[8].key by {
        assert(e[j].key != e[8].key);
    }
    lemma_first_entry(metas, 8);
    assert forall|j: int| 0 <= j < 9 implies (#[trigger] metas[j]).key != metas[9].key by {
        assert(e[j].key != e[9].key);
    }
    lemma_first_entry(metas, 9);
    match tokenizer {
        Some(text) => {
            assert(metas[11].key == "tokenizer_json"@);
            assert forall|j: int| 0 <= j < 11 implies (#[trigger] metas[j]).key
                != metas[11].key by {
            }
            lemma_first_entry(metas, 11);
        },
        None => {
            lemma_no_entry(metas, "tokenizer_json"@);
        },
    }
}

/// How an estimate of memory grows. One more layer that is active adds the weights of a layer. One more
/// intermediate value adds three columns of 32-bit weights to each active layer. One more hidden value
/// adds two lines to a square of weights that is counted by four, three lines of 32-bit weights and a
/// weight of the norm to each active layer, and ten 32-bit values besides.
pub proof fn law_estimate_grows(
    c: HypnoConfig,
    wider: HypnoConfig,
    deeper: HypnoConfig,
    precision: CachePrecision,
    layers: nat,
)
    requires
        wider == (HypnoConfig { hidden_size: wider.hidden_size, ..c }),
        wider.hidden_size == c.hidden_size + 1,
        deeper == (HypnoConfig { intermediate_size: deeper.intermediate_size, ..c }),
        deeper.intermediate_size == c.intermediate_size + 1,
    ensures
        c.estimated_bytes(precision, layers + 1) == c.estimated_bytes(precision, layers)
            + c.weight_bytes(),
        c.estimated_bytes(precision, 0) == c.num_hidden_layers * c.layer_bytes(precision) + 40
            * c.hidden_size,
        deeper.weight_bytes() == c.weight_bytes() + 3 * (4 * c.hidden_size),
        wider.weight_bytes() == c.weight_bytes() + 4 * (2 * c.hidden_size + 1) + 3 * (4
            * c.intermediate_size) + 4,
        c.hidden_size == 0 ==> c.weight_bytes() == 0,
{
    let h = c.hidden_size as int;
    let i = c.intermediate_size as int;
    let n = layers as int;
    let w = c.weight_bytes();
    assert((n + 1) * w == n * w + w && 0 * w == 0) by (nonlinear_arith);
    assert((h + 1) * (h + 1) == h * h + 2 * h + 1) by (nonlinear_arith);
    assert((h + 1) * i == h * i + i && h * (i + 1) == h * i + h) by (nonlinear_arith);
    assert((h + 1) * i * 12 == (h * i + i) * 12);
    if h == 0 {
        assert(h * i == 0 && h * h == 0) by (nonlinear_arith)
            requires
                h == 0,
        ;
    }
}

/// A layer of the cache holds a key and a value for each position of each head: one more position adds two
/// vectors for each head.
pub proof fn law_cache_grows_by_positions(c: HypnoConfig, longer: HypnoConfig, p: CachePrecision)
    requires
        longer == (HypnoConfig { max_position_embeddings: longer.max_position_embeddings, ..c }),
        longer.max_position_embeddings == c.max_position_embeddings + 1,
    ensures
        longer.layer_bytes(p) == c.layer_bytes(p) + 2 * (c.num_key_value_heads * c.head_dim)
            * p.width(),
        c.max_position_embeddings == 0 ==> c.layer_bytes(p) == 0,
{
    let k = c.num_key_value_heads as int;
    let m = c.max_position_embeddings as int;
    let d = c.head_dim as int;
    let w = p.width() as int;
    assert((k * (m + 1)) * d == (k * m) * d + k * d) by (nonlinear_arith);
    assert(2 * ((k * m) * d + k * d) * w == 2 * ((k * m) * d) * w + 2 * (k * d) * w)
        by (nonlinear_arith);
    assert((k * 0) * d == 0 && 2 * (0int) * w == 0) by (nonlinear_arith);
}

} // verus!
