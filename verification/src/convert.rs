//! Converting a model in safetensors archives to a `.hypno` file.

use vstd::prelude::*;
use crate::archive::{
    all_sized, encode_values, file_bytes, is_encoded, is_values, law_encoded_len, merged,
    read_archives, file_tensors, tensor_values, SourceDType, SourceModel, SourceTensor,
};
use crate::dtype::DType;
use crate::float::{
    is_dot, is_narrow, is_scaled, is_sum, is_wide, largest, FloatUnit, ONE_TWENTY_SEVEN, SEVEN,
};
use crate::format::{
    manifest_bytes, manifest_of, metas_model, product, ManifestModel, MetaKV, MetaModel,
};
use crate::kernels::{
    columns_present, held, is_column, is_column_result, is_projection, is_row, is_row_product,
    is_row_result, is_weight, present,
};
use crate::quant::{
    block_part, block_values, byte_step, is_q4_block, is_q8_block, is_scale, is_step, nibble_step,
    scale_in,
};
use crate::bytes::{le_bytes, le_value, lemma_le_round_trip, lemma_pow256_values};
use crate::json::{json_document, parse_json, Json, JsonModel};
use crate::layout::{align_up, lemma_align_up};
use crate::loader::{law_tensor_round_trip, tensor_data};
use crate::order::{
    contents, entry_pairs, in_order, law_text_order, lemma_entries_in_order, lemma_lookup_at,
    pairs_map, pairs_ordered, text_less, TextMap,
};
use crate::text::{decimal, decimal_digits};
use crate::writer::{
    data_from, image_of, items_model, law_file_round_trip, law_plan_is_writable, place_tensor,
    plan_file, plan_fits, planned, start_image, ItemModel, TensorItem,
};

verus! {

/// The element type that a tensor of `n` elements is stored in: tensors of at most 4096 elements
/// are not quantized.
pub open spec fn storage_dtype(target: DType, n: nat) -> DType {
    if n <= 4096 && target.quantized() {
        DType::FP32
    } else {
        target
    }
}

/// The element type that a tensor of `n_elems` elements is stored in.
pub fn effective_dtype(target_dtype: DType, n_elems: usize) -> (r: DType)
    ensures
        r == storage_dtype(target_dtype, n_elems as nat),
{
    if n_elems <= 4096 && target_dtype != DType::FP32 && target_dtype != DType::FP16 {
        DType::FP32
    } else {
        target_dtype
    }
}

/// Small tensors are never quantized, plain types are kept, and choosing twice changes nothing.
pub proof fn law_storage_dtype(target: DType, n: nat)
    ensures
        n <= 4096 ==> !storage_dtype(target, n).quantized(),
        !target.quantized() ==> storage_dtype(target, n) == target,
        n > 4096 ==> storage_dtype(target, n) == target,
        storage_dtype(storage_dtype(target, n), n) == storage_dtype(target, n),
{
}

/// `o`, or `d` where there is nothing.
pub open spec fn or_else<T>(o: Option<T>, d: T) -> T {
    match o {
        Some(x) => x,
        None => d,
    }
}

/// A metadata entry.
pub open spec fn entry(key: Seq<char>, value: Seq<char>) -> MetaModel {
    MetaModel { key, value }
}

/// A metadata entry with a whole number.
pub open spec fn count_entry(key: Seq<char>, n: u64) -> MetaModel {
    MetaModel { key, value: decimal_digits(n as nat) }
}

/// The number of key and value heads: that of the attention heads where none is given.
pub open spec fn kv_heads(config: JsonModel) -> u64 {
    or_else(
        config.member("num_key_value_heads"@).whole(),
        or_else(config.member("num_attention_heads"@).whole(), 0),
    )
}

/// The metadata that a model's `config.json` gives.
pub open spec fn config_entries(config: JsonModel) -> Seq<MetaModel> {
    seq![
        entry(
            "architecture"@,
            or_else(config.member("architectures"@).element(0).text(), "unknown"@),
        ),
        count_entry("hidden_size"@, or_else(config.member("hidden_size"@).whole(), 0)),
        count_entry("intermediate_size"@, or_else(config.member("intermediate_size"@).whole(), 0)),
        count_entry(
            "num_attention_heads"@,
            or_else(config.member("num_attention_heads"@).whole(), 0),
        ),
        count_entry("num_key_value_heads"@, kv_heads(config)),
        count_entry("num_hidden_layers"@, or_else(config.member("num_hidden_layers"@).whole(), 0)),
        count_entry("vocab_size"@, or_else(config.member("vocab_size"@).whole(), 32000)),
        count_entry(
            "max_position_embeddings"@,
            or_else(config.member("max_position_embeddings"@).whole(), 2048),
        ),
        entry("rms_norm_eps"@, or_else(config.member("rms_norm_eps"@).float_text(), "0.00001"@)),
        entry("rope_theta"@, or_else(config.member("rope_theta"@).float_text(), "10000"@)),
    ]
}

/// The metadata of a converted model: the configuration, the order of the weights, and the
/// tokenizer's document if there is one.
pub open spec fn model_entries(
    config: JsonModel,
    tokenizer: Option<Seq<char>>,
    col_major: bool,
) -> Seq<MetaModel> {
    let entries = config_entries(config).push(
        entry(
            "weight_layout"@,
            if col_major {
                "col_major"@
            } else {
                "row_major"@
            },
        ),
    );
    match tokenizer {
        Some(text) => entries.push(entry("tokenizer_json"@, text)),
        None => entries,
    }
}

/// Appends a metadata entry.
pub fn push_meta(metas: &mut Vec<MetaKV>, key: &str, value: String)
    ensures
        metas_model(final(metas)@) == metas_model(old(metas)@).push(entry(key@, value@)),
        final(metas)@.len() == old(metas)@.len() + 1,
{
    metas.push(MetaKV { key: key.to_owned(), value });
    assert(metas_model(metas@) =~= metas_model(old(metas)@).push(entry(key@, value@)));
}

fn push_count(metas: &mut Vec<MetaKV>, config: &Json, key: &str, default: u64)
    ensures
        metas_model(final(metas)@) == metas_model(old(metas)@).push(
            count_entry(key@, or_else(config@.member(key@).whole(), default)),
        ),
        final(metas)@.len() == old(metas)@.len() + 1,
{
    let n: u64 = match config.member_u64(key) {
        Some(v) => v,
        None => default,
    };
    push_meta(metas, key, decimal(n));
}

fn push_float(metas: &mut Vec<MetaKV>, config: &Json, key: &str, default: &str)
    ensures
        metas_model(final(metas)@) == metas_model(old(metas)@).push(
            entry(key@, or_else(config@.member(key@).float_text(), default@)),
        ),
        final(metas)@.len() == old(metas)@.len() + 1,
{
    let text: String = match config.member_float_text(key) {
        Some(t) => t,
        None => default.to_owned(),
    };
    push_meta(metas, key, text);
}

/// The metadata of a converted model.
pub fn model_metadata(config: &Json, tokenizer: Option<&str>, col_major: bool) -> (r: Vec<MetaKV>)
    ensures
        metas_model(r@) == model_entries(
            config@,
            match tokenizer {
                Some(t) => Some(t@),
                None => None,
            },
            col_major,
        ),
{
    let mut metas: Vec<MetaKV> = Vec::new();
    assert(metas_model(metas@) =~= Seq::<MetaModel>::empty());
    let arch: String = match config.get("architectures") {
        Some(list) => match list.at(0) {
            Some(first) => match first.as_str() {
                Some(s) => s.to_owned(),
                None => "unknown".to_owned(),
            },
            None => "unknown".to_owned(),
        },
        None => "unknown".to_owned(),
    };
    push_meta(&mut metas, "architecture", arch);
    push_count(&mut metas, config, "hidden_size", 0);
    push_count(&mut metas, config, "intermediate_size", 0);
    push_count(&mut metas, config, "num_attention_heads", 0);
    let heads: u64 = match config.member_u64("num_attention_heads") {
        Some(n) => n,
        None => 0,
    };
    push_count(&mut metas, config, "num_key_value_heads", heads);
    push_count(&mut metas, config, "num_hidden_layers", 0);
    push_count(&mut metas, config, "vocab_size", 32000);
    push_count(&mut metas, config, "max_position_embeddings", 2048);
    push_float(&mut metas, config, "rms_norm_eps", "0.00001");
    push_float(&mut metas, config, "rope_theta", "10000");
    assert(metas_model(metas@) =~= config_entries(config@));
    let layout = if col_major {
        "col_major"
    } else {
        "row_major"
    };
    push_meta(&mut metas, "weight_layout", layout.to_owned());
    match tokenizer {
        Some(t) => {
            push_meta(&mut metas, "tokenizer_json", t.to_owned());
        },
        None => {},
    }
    metas
}

/// The table item of a tensor.
pub open spec fn item_of(target: DType, t: (Seq<char>, SourceModel)) -> ItemModel {
    ItemModel {
        name: t.0,
        shape: t.1.shape,
        dtype: storage_dtype(target, product(t.1.shape)),
    }
}

/// The table items of the tensors of a model, in the order of their names.
pub open spec fn items_of(target: DType, tensors: Seq<(Seq<char>, SourceModel)>) -> Seq<ItemModel> {
    Seq::new(tensors.len(), |i: int| item_of(target, tensors[i]))
}

/// Whether a tensor is stored by columns: every matrix is, where the weights are to be.
pub open spec fn stored_by_columns(col_major: bool, shape: Seq<u64>) -> bool {
    col_major && shape.len() == 2
}

/// A matrix by columns.
pub open spec fn transposed(values: Seq<u32>, rows: int, cols: int) -> Seq<u32> {
    Seq::new(values.len(), |k: int| values[(k % rows) * cols + k / rows])
}

/// The elements of a tensor in the order in which they are stored.
pub open spec fn laid_out(by_columns: bool, shape: Seq<u64>, values: Seq<u32>) -> Seq<u32> {
    if by_columns {
        transposed(values, shape[0] as int, shape[1] as int)
    } else {
        values
    }
}

/// Where the element of row `r` and column `j` of a matrix is stored.
pub open spec fn element_place(by_columns: bool, shape: Seq<u64>, r: int, j: int) -> int {
    if by_columns {
        j * shape[0] + r
    } else {
        r * shape[1] + j
    }
}

/// A stored matrix holds each of its elements at its place.
pub proof fn law_layout_holds_the_matrix(
    by_columns: bool,
    shape: Seq<u64>,
    values: Seq<u32>,
    r: int,
    j: int,
)
    requires
        shape.len() == 2,
        values.len() == product(shape),
        0 <= r < shape[0],
        0 <= j < shape[1],
    ensures
        0 <= element_place(by_columns, shape, r, j) < values.len(),
        laid_out(by_columns, shape, values)[element_place(by_columns, shape, r, j)] == values[r
            * shape[1] + j],
{
    let rows = shape[0] as int;
    let cols = shape[1] as int;
    lemma_matrix_product(shape);
    let k = j * rows + r;
    assert(0 <= k < rows * cols) by (nonlinear_arith)
        requires
            k == j * rows + r,
            0 <= r < rows,
            0 <= j,
            j + 1 <= cols,
    ;
    assert(0 <= r * cols + j < rows * cols) by (nonlinear_arith)
        requires
            0 <= r,
            r + 1 <= rows,
            0 <= j < cols,
    ;
    vstd::arithmetic::div_mod::lemma_fundamental_div_mod_converse(k, rows, j, r);
}

/// `v` can be what is read of value `i` of `values`, after they were stored in an element type: the
/// value itself, the value in 16 bits, or its step times the scale of its block.
pub open spec fn is_read_back<U: FloatUnit>(
    u: &U,
    dtype: DType,
    values: Seq<u32>,
    i: int,
    v: u32,
) -> bool {
    match dtype {
        DType::FP32 => v == values[i],
        DType::FP16 => exists|h: u16| #[trigger] is_narrow(u, values[i], h) && is_wide(u, h, v),
        DType::Q8_0 => exists|s: u32, h: u16, w: u32, w2: u32, step: i32|
            {
                &&& #[trigger] is_scale(
                    u,
                    largest(block_part(values, i / 32)),
                    ONE_TWENTY_SEVEN,
                    s,
                )
                &&& #[trigger] is_narrow(u, s, h)
                &&& #[trigger] is_wide(u, h, w)
                &&& is_step(u, values[i], w, -127, 127, step as int)
                &&& #[trigger] is_wide(u, h, w2)
                &&& #[trigger] is_scaled(u, step, w2, v)
            },
        DType::Q4_0 => exists|s: u32, h: u16, w: u32, step: i32|
            {
                &&& #[trigger] is_scale(u, largest(block_values(values, i / 32)), SEVEN, s)
                &&& #[trigger] is_narrow(u, s, h)
                &&& is_step(u, values[i], s, -8, 7, step as int)
                &&& #[trigger] is_wide(u, h, w)
                &&& #[trigger] is_scaled(u, step, w, v)
            },
    }
}

/// What a read gives back of a stored value.
pub proof fn law_stored_value_reads_back<U: FloatUnit>(
    u: &U,
    dtype: DType,
    values: Seq<u32>,
    d: Seq<u8>,
    i: int,
    v: u32,
)
    requires
        is_encoded(u, dtype, values, d),
        0 <= i < values.len(),
        is_weight(u, dtype, d, i, v),
    ensures
        is_read_back(u, dtype, values, i, v),
{
    match dtype {
        DType::FP32 => {
            assert(d.subrange(4 * i, 4 * i + 4) == le_bytes(values[i] as nat, 4));
            lemma_pow256_values();
            lemma_le_round_trip(values[i] as nat, 4);
        },
        DType::FP16 => {
            assert(is_narrow(u, values[i], le_value(d.subrange(2 * i, 2 * i + 2)) as u16));
        },
        DType::Q8_0 => {
            let b = i / 32;
            let part = block_part(values, b);
            let h = scale_in(d, 34 * b);
            let qs = d.subrange(34 * b + 2, 34 * b + 34);
            assert(is_q8_block(u, part, h, qs));
            let (s, w) = choose|s: u32, w: u32|
                {
                    &&& #[trigger] is_scale(u, largest(part), ONE_TWENTY_SEVEN, s)
                    &&& is_narrow(u, s, h)
                    &&& #[trigger] is_wide(u, h, w)
                    &&& forall|k: int|
                        0 <= k < part.len() ==> is_step(
                            u,
                            part[k],
                            w,
                            -127,
                            127,
                            #[trigger] byte_step(qs, k),
                        )
                    &&& forall|k: int| part.len() <= k < 32 ==> #[trigger] qs[k] == 0
                };
            let step = byte_step(qs, i % 32) as i32;
            let w2 = choose|w2: u32| #[trigger] is_wide(u, h, w2) && is_scaled(u, step, w2, v);
            assert(part[i % 32] == values[i]);
            assert(is_step(u, part[i % 32], w, -127, 127, byte_step(qs, i % 32)));
            assert(is_wide(u, h, w2));
            assert(is_scaled(u, step, w2, v));
        },
        DType::Q4_0 => {
            let b = i / 32;
            let block = block_values(values, b);
            let h = scale_in(d, 18 * b);
            let qs = d.subrange(18 * b + 2, 18 * b + 18);
            assert(is_q4_block(u, block, h, qs));
            let s = choose|s: u32|
                {
                    &&& #[trigger] is_scale(u, largest(block), SEVEN, s)
                    &&& is_narrow(u, s, h)
                    &&& forall|k: int|
                        0 <= k < 32 ==> is_step(u, block[k], s, -8, 7, #[trigger] nibble_step(qs, k))
                };
            let step = nibble_step(qs, i % 32) as i32;
            let w = choose|w: u32| #[trigger] is_wide(u, h, w) && is_scaled(u, step, w, v);
            assert(block[i % 32] == values[i]);
            assert(is_step(u, block[i % 32], s, -8, 7, nibble_step(qs, i % 32)));
            assert(is_wide(u, h, w));
            assert(is_scaled(u, step, w, v));
        },
    }
}

/// `v` can be the product of row `r` of a matrix, as it is read back after it was stored, and `x`.
pub open spec fn is_matrix_row_product<U: FloatUnit>(
    u: &U,
    dtype: DType,
    by_columns: bool,
    shape: Seq<u64>,
    values: Seq<u32>,
    r: int,
    x: Seq<u32>,
    v: u32,
) -> bool {
    exists|row: Seq<u32>, s: u32|
        {
            &&& row.len() == shape[1]
            &&& forall|j: int|
                0 <= j < shape[1] ==> is_read_back(
                    u,
                    dtype,
                    laid_out(by_columns, shape, values),
                    element_place(by_columns, shape, r, j),
                    #[trigger] row[j],
                )
            &&& #[trigger] is_dot(u, row, x, s)
            &&& if by_columns {
                v == s
            } else {
                is_sum(u, s, 0, v)
            }
        }
}

/// Writer and reader agree on where the elements of a matrix are: a matrix that was stored, in any
/// element type, by rows or by columns, is multiplied as the matrix that it was. Each output is the
/// sum over the row of that output.
pub proof fn law_stored_matrix_projects<U: FloatUnit>(
    u: &U,
    target: DType,
    col_major: bool,
    t: (Seq<char>, SourceModel),
    w: Seq<u8>,
    x: Seq<u32>,
    y: Seq<u32>,
)
    requires
        t.1.sized(),
        t.1.shape.len() == 2,
        is_stored(u, target, col_major, t, Some(w)),
        x.len() == t.1.shape[1],
        y.len() == t.1.shape[0],
        is_projection(u, storage_dtype(target, product(t.1.shape)), w, x, col_major, y),
    ensures
        exists|values: Seq<u32>|
            {
                &&& #[trigger] is_values(u, t.1, values)
                &&& forall|r: int|
                    0 <= r < y.len() ==> is_matrix_row_product(
                        u,
                        storage_dtype(target, product(t.1.shape)),
                        col_major,
                        t.1.shape,
                        values,
                        r,
                        x,
                        #[trigger] y[r],
                    )
            },
{
    let shape = t.1.shape;
    let dtype = storage_dtype(target, product(shape));
    let values = choose|values: Seq<u32>|
        {
            &&& #[trigger] is_values(u, t.1, values)
            &&& is_encoded(u, dtype, laid_out(stored_by_columns(col_major, shape), shape, values), w)
        };
    let laid = laid_out(col_major, shape, values);
    let rows = shape[0] as int;
    let cols = shape[1] as int;
    lemma_matrix_product(shape);
    assert(values.len() == product(shape));
    law_encoded_len(u, dtype, laid, w);
    let total = held(dtype, w.len());
    assert(total >= laid.len());
    assert forall|r: int| 0 <= r < y.len() implies is_matrix_row_product(
        u,
        dtype,
        col_major,
        shape,
        values,
        r,
        x,
        #[trigger] y[r],
    ) by {
        if col_major {
            assert(is_column_result(u, dtype, w, rows, r, x, None, y[r]));
            let (row, s) = choose|row: Seq<u32>, s: u32|
                {
                    &&& row.len() == columns_present(total, rows as nat, r as nat, x.len())
                    &&& #[trigger] is_column(u, dtype, w, rows, r, row)
                    &&& #[trigger] is_dot(u, row, x.take(row.len() as int), s)
                    &&& y[r] == s
                };
            if cols > 0 {
                law_layout_holds_the_matrix(true, shape, values, r, cols - 1);
            }
            assert(row.len() == cols);
            assert(x.take(cols) =~= x);
            assert forall|j: int| 0 <= j < cols implies is_read_back(
                u,
                dtype,
                laid,
                element_place(true, shape, r, j),
                #[trigger] row[j],
            ) by {
                law_layout_holds_the_matrix(true, shape, values, r, j);
                assert(is_weight(u, dtype, w, j * rows + r, row[j]));
                law_stored_value_reads_back(u, dtype, laid, w, j * rows + r, row[j]);
            }
            assert(is_dot(u, row, x, s));
        } else {
            assert(is_row_result(u, dtype, w, r, cols, x, 0, y[r]));
            let s = choose|s: u32|
                #[trigger] is_row_product(u, dtype, w, r, cols, x, s) && is_sum(u, s, 0, y[r]);
            let row = choose|row: Seq<u32>|
                {
                    &&& row.len() == present(total, (r * cols) as nat, cols as nat)
                    &&& #[trigger] is_row(u, dtype, w, r * cols, row)
                    &&& is_dot(u, row, x.take(row.len() as int), s)
                };
            assert(0 <= r * cols && r * cols + cols <= rows * cols) by (nonlinear_arith)
                requires
                    0 <= r,
                    r + 1 <= rows,
                    0 <= cols,
            ;
            assert(row.len() == cols);
            assert(x.take(cols) =~= x);
            assert forall|j: int| 0 <= j < cols implies is_read_back(
                u,
                dtype,
                laid,
                element_place(false, shape, r, j),
                #[trigger] row[j],
            ) by {
                assert(is_weight(u, dtype, w, r * cols + j, row[j]));
                law_stored_value_reads_back(u, dtype, laid, w, r * cols + j, row[j]);
            }
            assert(is_dot(u, row, x, s));
        }
    }
}

/// `d` is the stored data of a tensor: its elements in the element type it is stored in. A
/// tensor whose element type cannot be converted has none.
pub open spec fn is_stored<U: FloatUnit>(
    u: &U,
    target: DType,
    col_major: bool,
    t: (Seq<char>, SourceModel),
    d: Option<Seq<u8>>,
) -> bool {
    let dtype = storage_dtype(target, product(t.1.shape));
    match d {
        Some(bytes) => exists|values: Seq<u32>|
            {
                &&& #[trigger] is_values(u, t.1, values)
                &&& is_encoded(
                    u,
                    dtype,
                    laid_out(stored_by_columns(col_major, t.1.shape), t.1.shape, values),
                    bytes,
                )
            },
        None => t.1.dtype == SourceDType::Other,
    }
}

/// The stored data of all tensors.
pub open spec fn all_stored<U: FloatUnit>(
    u: &U,
    target: DType,
    col_major: bool,
    tensors: Seq<(Seq<char>, SourceModel)>,
    data: Seq<Option<Seq<u8>>>,
) -> bool {
    data.len() == tensors.len() && forall|i: int|
        0 <= i < tensors.len() ==> is_stored(u, target, col_major, tensors[i], #[trigger] data[i])
}

/// `file` is the file of a model: its metadata, its tensors in the order of their names, and
/// their data.
pub open spec fn is_model_file<U: FloatUnit>(
    u: &U,
    metas: Seq<MetaModel>,
    target: DType,
    col_major: bool,
    tensors: Seq<(Seq<char>, SourceModel)>,
    file: Seq<u8>,
) -> bool {
    exists|data: Seq<Option<Seq<u8>>>|
        {
            &&& #[trigger] all_stored(u, target, col_major, tensors, data)
            &&& file == image_of(
                planned(metas, items_of(target, tensors)),
                data,
                tensors.len(),
            )
        }
}

fn transpose(values: &[u32], rows: usize, cols: usize) -> (r: Vec<u32>)
    requires
        values@.len() == rows * cols,
    ensures
        r@ == transposed(values@, rows as int, cols as int),
{
    let n: usize = values.len();
    let mut r: Vec<u32> = Vec::new();
    while r.len() < n
        invariant
            r@.len() <= n == values@.len() == rows * cols,
            forall|k: int|
                0 <= k < r@.len() ==> #[trigger] r@[k] == transposed(
                    values@,
                    rows as int,
                    cols as int,
                )[k],
        decreases n - r@.len(),
    {
        let k: usize = r.len();
        assert(rows > 0) by (nonlinear_arith)
            requires
                rows * cols > 0,
        ;
        assert(k / rows < cols) by (nonlinear_arith)
            requires
                k < rows * cols,
                rows > 0,
        ;
        let i: usize = k % rows;
        let j: usize = k / rows;
        assert(0 <= i * cols && i * cols + j < rows * cols) by (nonlinear_arith)
            requires
                i + 1 <= rows,
                j < cols,
        ;
        r.push(values[i * cols + j]);
    }
    assert(r@ =~= transposed(values@, rows as int, cols as int));
    r
}

/// The data of a tensor in the element type it is stored in; `None` for an element type that
/// cannot be converted.
fn stored_bytes<U: FloatUnit>(
    t: &SourceTensor,
    target: DType,
    dtype: DType,
    col_major: bool,
    unit: &U,
) -> (r: Option<Vec<u8>>)
    requires
        t@.sized(),
        dtype == storage_dtype(target, product(t.shape@)),
    ensures
        match r {
            Some(bytes) => bytes@.len() == dtype.stored_len(product(t.shape@)) && forall|
                name: Seq<char>,
            |
                #[trigger] is_stored(unit, target, col_major, (name, t@), Some(bytes@)),
            None => forall|name: Seq<char>|
                #[trigger] is_stored(unit, target, col_major, (name, t@), None),
        },
{
    match tensor_values(t, unit) {
        Some(values) => {
            assert(is_values(unit, t@, values@));
            if col_major && t.shape.len() == 2 {
                proof {
                    lemma_matrix_product(t.shape@);
                }
                if values.len() == 0 {
                    assert(laid_out(true, t.shape@, values@) =~= values@);
                    return Some(encode_values(values.as_slice(), dtype, unit));
                }
                let rows: usize = t.shape[0] as usize;
                let cols: usize = t.shape[1] as usize;
                let turned = transpose(values.as_slice(), rows, cols);
                return Some(encode_values(turned.as_slice(), dtype, unit));
            }
            Some(encode_values(values.as_slice(), dtype, unit))
        },
        None => None,
    }
}

/// The number of elements of a matrix, and that it is not less than the dimensions of one that is
/// not empty.
proof fn lemma_matrix_product(shape: Seq<u64>)
    requires
        shape.len() == 2,
    ensures
        product(shape) == shape[0] * shape[1],
        product(shape) > 0 ==> shape[0] <= product(shape) && shape[1] <= product(shape),
{
    let a = shape[0] as nat;
    let b = shape[1] as nat;
    assert(product(shape.drop_last().drop_last()) == 1);
    assert(product(shape.drop_last()) == 1 * a);
    assert(product(shape) == a * b);
    if a * b > 0 {
        assert(a <= a * b && b <= a * b) by (nonlinear_arith)
            requires
                a * b > 0,
        ;
    }
}

/// Builds the file of a model; `None` where it does not fit.
pub fn build_file<U: FloatUnit>(
    metadata: Vec<MetaKV>,
    tensors: &TextMap<SourceTensor>,
    target: DType,
    col_major: bool,
    unit: &U,
) -> (r: Option<Vec<u8>>)
    requires
        tensors.wf(),
        all_sized(tensors@),
    ensures
        r is Some <==> plan_fits(
            metas_model(metadata@),
            items_of(target, in_order(contents(tensors@))),
        ),
        r matches Some(file) ==> is_model_file(
            unit,
            metas_model(metadata@),
            target,
            col_major,
            in_order(contents(tensors@)),
            file@,
        ),
{
    let ghost metas = metas_model(metadata@);
    let ghost pairs = entry_pairs(tensors.entries@);
    let ghost specs = items_of(target, pairs);
    proof {
        lemma_entries_in_order(tensors.entries@);
    }
    let mut items: Vec<TensorItem> = Vec::new();
    let mut i: usize = 0;
    while i < tensors.entries.len()
        invariant
            tensors.wf(),
            all_sized(tensors@),
            pairs == entry_pairs(tensors.entries@),
            specs == items_of(target, pairs),
            i <= tensors.entries@.len(),
            items@.len() == i,
            items_model(items@) =~= specs.take(i as int),
        decreases tensors.entries@.len() - i,
    {
        let t = &tensors.entries[i].1;
        proof {
            lemma_lookup_at(tensors.entries@, i as int);
            assert(tensors@.contains_key(tensors.entries@[i as int].0@));
            assert(tensors@[tensors.entries@[i as int].0@]@.sized());
            assert(pairs[i as int].1 == t@);
        }
        let n: usize = match crate::format::checked_product(t.shape.as_slice()) {
            Some(n) => n as usize,
            None => {
                // The number of elements fits a `usize`, which is no wider than a `u64`.
                assert(false);
                0
            },
        };
        let ghost before = items@;
        items.push(
            TensorItem {
                name: tensors.entries[i].0.clone(),
                shape: crate::writer::copy_shape(t.shape.as_slice()),
                dtype: effective_dtype(target, n),
            },
        );
        assert(items@[i as int]@ == specs[i as int]);
        assert(items_model(items@) =~= items_model(before).push(items@[i as int]@));
        i = i + 1;
    }
    assert(items_model(items@) =~= specs);
    let manifest = match plan_file(metadata, &items) {
        Some(m) => m,
        None => {
            return None;
        },
    };
    let ghost m = manifest@;
    proof {
        law_plan_is_writable(metas, specs);
        lemma_start_fits(metas, specs);
    }
    let mut file: Vec<u8> = match start_image(&manifest) {
        Some(f) => f,
        None => {
            return None;
        },
    };
    let ghost mut data: Seq<Option<Seq<u8>>> = Seq::empty();
    let mut k: usize = 0;
    while k < tensors.entries.len()
        invariant
            tensors.wf(),
            all_sized(tensors@),
            pairs == entry_pairs(tensors.entries@),
            specs == items_of(target, pairs),
            plan_fits(metas, specs),
            m == planned(metas, specs),
            manifest@ == m,
            k <= tensors.entries@.len() == specs.len(),
            manifest.tensors@.len() == specs.len(),
            data.len() == k,
            forall|j: int|
                0 <= j < k ==> is_stored(
                    unit,
                    target,
                    col_major,
                    pairs[j],
                    #[trigger] data[j],
                ),
            file@ == image_of(m, data, k as nat),
            file@.len() <= crate::writer::offset_of(
                specs,
                crate::writer::data_start(metas, specs),
                k as nat,
            ),
        decreases tensors.entries@.len() - k,
    {
        let t = &tensors.entries[k].1;
        let ghost model = pairs[k as int].1;
        let ghost before = data;
        proof {
            lemma_lookup_at(tensors.entries@, k as int);
            assert(tensors@[tensors.entries@[k as int].0@]@.sized());
            assert(model == t@);
            assert(m.tensors[k as int] == manifest.tensors@[k as int]@);
            lemma_step_fits(metas, specs, k as int);
        }
        match stored_bytes(
            t,
            target,
            manifest.tensors[k].dtype,
            col_major,
            unit,
        ) {
            Some(bytes) => {
                assert(bytes@.len() == specs[k as int].data_len());
                match place_tensor(&mut file, manifest.tensors[k].offset, bytes.as_slice()) {
                    Ok(()) => {},
                    Err(_) => {
                        assert(false);
                        return None;
                    },
                }
                proof {
                    data = before.push(Some(bytes@));
                }
            },
            None => {
                proof {
                    data = before.push(None);
                }
            },
        }
        proof {
            assert(before.take(k as int) =~= data.take(k as int));
            lemma_image_same(m, before, data, k as nat);
        }
        k = k + 1;
    }
    assert(all_stored(unit, target, col_major, pairs, data));
    Some(file)
}

proof fn lemma_image_same(
    m: ManifestModel,
    a: Seq<Option<Seq<u8>>>,
    b: Seq<Option<Seq<u8>>>,
    n: nat,
)
    requires
        n <= a.len(),
        n <= b.len(),
        a.take(n as int) == b.take(n as int),
    ensures
        image_of(m, a, n) == image_of(m, b, n),
    decreases n,
{
    if n > 0 {
        let k = (n - 1) as nat;
        assert(a.take(k as int) =~= a.take(n as int).take(k as int));
        assert(b.take(k as int) =~= b.take(n as int).take(k as int));
        lemma_image_same(m, a, b, k);
        assert(a[n - 1] == a.take(n as int)[n - 1]);
        assert(b[n - 1] == b.take(n as int)[n - 1]);
    }
}

proof fn lemma_start_fits(metas: Seq<MetaModel>, items: Seq<ItemModel>)
    requires
        plan_fits(metas, items),
    ensures
        align_up(manifest_bytes(planned(metas, items)).len()) <= usize::MAX,
{
    law_plan_is_writable(metas, items);
    crate::writer::lemma_offsets_grow(
        items,
        crate::writer::data_start(metas, items),
        0,
        items.len(),
    );
}

proof fn lemma_step_fits(metas: Seq<MetaModel>, items: Seq<ItemModel>, k: int)
    requires
        plan_fits(metas, items),
        0 <= k < items.len(),
    ensures
        ({
            let start = crate::writer::data_start(metas, items);
            let at = crate::writer::offset_of(items, start, k as nat);
            &&& planned(metas, items).tensors[k].offset == at
            &&& crate::writer::offset_of(items, start, (k + 1) as nat) == align_up(
                at + items[k].data_len(),
            )
            &&& align_up(at + items[k].data_len()) <= usize::MAX
            &&& at <= align_up(at + items[k].data_len())
        }),
{
    let start = crate::writer::data_start(metas, items);
    crate::writer::lemma_offsets_grow(items, start, k as nat, items.len());
    crate::writer::lemma_offsets_grow(items, start, (k + 1) as nat, items.len());
    lemma_align_up(crate::writer::offset_of(items, start, k as nat) + items[k].data_len());
}

/// Every tensor of a list has as much data as it should.
pub open spec fn all_pairs_sized(tensors: Seq<(Seq<char>, SourceModel)>) -> bool {
    forall|i: int| 0 <= i < tensors.len() ==> (#[trigger] tensors[i]).1.sized()
}

/// `tensors` lists a map of tensors in the order of their names, and each tensor has as much data as
/// it should.
pub open spec fn lists_sized(
    tensors: Seq<(Seq<char>, SourceModel)>,
    m: Map<Seq<char>, SourceModel>,
) -> bool {
    &&& pairs_ordered(tensors)
    &&& pairs_map(tensors) == m
    &&& all_pairs_sized(tensors)
    &&& forall|k: Seq<char>| m.contains_key(k) ==> (#[trigger] m[k]).sized()
}

pub(crate) proof fn lemma_lists_sized(tensors: TextMap<SourceTensor>)
    requires
        tensors.wf(),
        all_sized(tensors@),
    ensures
        lists_sized(in_order(contents(tensors@)), contents(tensors@)),
{
    let entries = tensors.entries@;
    let pairs = entry_pairs(entries);
    let m = contents(tensors@);
    lemma_entries_in_order(entries);
    assert forall|i: int| 0 <= i < pairs.len() implies (#[trigger] pairs[i]).1.sized() by {
        lemma_lookup_at(entries, i);
        assert(tensors@.contains_key(entries[i].0@));
        assert(tensors@[entries[i].0@]@.sized());
    }
    assert forall|k: Seq<char>| m.contains_key(k) implies (#[trigger] m[k]).sized() by {
        assert(tensors@.contains_key(k));
        assert(tensors@[k]@.sized());
    }
}

/// Why a model could not be converted.
#[derive(Debug)]
pub enum ConvertError {
    /// `config.json` is no JSON document.
    Config(String),
    /// There are no archives.
    NoFiles,
    /// This file is no archive.
    Archive(usize, String),
    /// The converted model is too large.
    TooLarge,
}

/// Converts a model to a file. `config` is the text of its `config.json`, `tokenizer` that of its
/// `tokenizer.json`, and `files` its archives in the order of their paths.
pub fn convert<U: FloatUnit>(
    config: &str,
    tokenizer: Option<&str>,
    files: &Vec<Vec<u8>>,
    target: DType,
    col_major: bool,
    unit: &U,
) -> (r: Result<Vec<u8>, ConvertError>)
    ensures
        ({
            let document = json_document(config@);
            let tok = match tokenizer {
                Some(t) => Some(t@),
                None => None,
            };
            let metas = model_entries(document->Ok_0, tok, col_major);
            let archives = merged(file_bytes(files@));
            let tensors = in_order(archives->Some_0);
            match r {
                Ok(file) => document is Ok && files@.len() > 0 && archives is Some && lists_sized(
                    tensors,
                    archives->Some_0,
                ) && plan_fits(metas, items_of(target, tensors)) && is_model_file(
                    unit,
                    metas,
                    target,
                    col_major,
                    tensors,
                    file@,
                ),
                Err(ConvertError::Config(e)) => document == Err::<JsonModel, Seq<char>>(e@),
                Err(ConvertError::NoFiles) => document is Ok && files@.len() == 0,
                Err(ConvertError::Archive(i, _)) => document is Ok && i < files@.len()
                    && file_tensors(files@[i as int]@) is None && forall|k: int|
                    0 <= k < i ==> file_tensors((#[trigger] files@[k])@) is Some,
                Err(ConvertError::TooLarge) => document is Ok && files@.len() > 0
                    && archives is Some && !plan_fits(metas, items_of(target, tensors)),
            }
        }),
{
    let document = match parse_json(config) {
        Ok(d) => d,
        Err(e) => {
            return Err(ConvertError::Config(e));
        },
    };
    if files.len() == 0 {
        return Err(ConvertError::NoFiles);
    }
    let tensors = match read_archives(files) {
        Ok(m) => m,
        Err((i, e)) => {
            return Err(ConvertError::Archive(i, e));
        },
    };
    proof {
        lemma_lists_sized(tensors);
    }
    let metadata = model_metadata(&document, tokenizer, col_major);
    match build_file(metadata, &tensors, target, col_major, unit) {
        Some(file) => Ok(file),
        None => Err(ConvertError::TooLarge),
    }
}

/// Tensor `i` or a later one can be converted.
pub open spec fn convertible_from(tensors: Seq<(Seq<char>, SourceModel)>, i: int) -> bool {
    exists|j: int| i <= j < tensors.len() && (#[trigger] tensors[j]).1.dtype != SourceDType::Other
}

/// A tensor with elements that cannot be converted stands before one that can.
pub open spec fn is_followed(tensors: Seq<(Seq<char>, SourceModel)>) -> bool {
    forall|i: int|
        0 <= i < tensors.len() && product((#[trigger] tensors[i]).1.shape) > 0
            ==> convertible_from(tensors, i)
}

/// What a read gives back of a conversion: the file of a model is read with the planned
/// manifest, and each tensor that can be converted is found by its name with its stored data, in
/// the element type it was stored in.
pub proof fn law_converted_model_reads_back<U: FloatUnit>(
    u: &U,
    metas: Seq<MetaModel>,
    target: DType,
    col_major: bool,
    tensors: Seq<(Seq<char>, SourceModel)>,
    file: Seq<u8>,
    i: int,
)
    requires
        is_model_file(u, metas, target, col_major, tensors, file),
        plan_fits(metas, items_of(target, tensors)),
        pairs_ordered(tensors),
        all_pairs_sized(tensors),
        is_followed(tensors),
        0 <= i < tensors.len(),
        tensors[i].1.dtype != SourceDType::Other,
    ensures
        manifest_of(file) is Ok,
        manifest_of(file)->Ok_0.0 == planned(metas, items_of(target, tensors)),
        ({
            let found = tensor_data(file, manifest_of(file)->Ok_0.0.tensors, tensors[i].0);
            &&& found is Some
            &&& is_stored(u, target, col_major, tensors[i], Some(found->Some_0.0))
            &&& found->Some_0.1 == storage_dtype(target, product(tensors[i].1.shape))
        }),
{
    let items = items_of(target, tensors);
    let data = choose|data: Seq<Option<Seq<u8>>>|
        {
            &&& #[trigger] all_stored(u, target, col_major, tensors, data)
            &&& file == image_of(planned(metas, items), data, tensors.len())
        };
    assert forall|k: int| 0 <= k < items.len() implies (#[trigger] data[k] matches Some(d) ==> d.len()
        == items[k].data_len()) by {
        let t = tensors[k].1;
        assert(is_stored(u, target, col_major, tensors[k], data[k]));
        assert(items[k] == item_of(target, tensors[k]));
        assert(t.sized());
        if data[k] is Some {
            let dtype = storage_dtype(target, product(t.shape));
            let by_columns = stored_by_columns(col_major, t.shape);
            let values = choose|values: Seq<u32>|
                {
                    &&& #[trigger] is_values(u, t, values)
                    &&& is_encoded(u, dtype, laid_out(by_columns, t.shape, values), data[k]->Some_0)
                };
            assert(values.len() == product(t.shape));
            law_encoded_len(u, dtype, laid_out(by_columns, t.shape, values), data[k]->Some_0);
        }
    }
    assert forall|k: int|
        0 <= k < items.len() && (#[trigger] data[k]) is None && items[k].data_len()
            > 0 implies data_from(data, k) by {
        assert(items[k] == item_of(target, tensors[k]));
        assert(tensors[k].1.sized());
        let j = choose|j: int|
            k <= j < tensors.len() && (#[trigger] tensors[j]).1.dtype != SourceDType::Other;
        assert(is_stored(u, target, col_major, tensors[j], data[j]));
        assert(data[j] is Some);
    }
    assert forall|j: int| 0 <= j < i implies (#[trigger] items[j]).name != items[i].name by {
        assert(text_less(tensors[j].0, tensors[i].0));
        law_text_order(tensors[j].0, tensors[i].0, tensors[i].0);
    }
    assert(is_stored(u, target, col_major, tensors[i], data[i]));
    assert(data[i] is Some);
    law_file_round_trip(metas, items, data);
    law_tensor_round_trip(metas, items, data, i);
}

} // verus!
