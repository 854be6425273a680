//! Low-rank adapters: reading them, merging them into a model, and storing them by themselves.

use vstd::prelude::*;
use crate::archive::{
    all_sized, encode_singles, encode_values, file_bytes, is_encoded, is_values, merged,
    read_archives, file_tensors, tensor_values, SourceDType, SourceModel, SourceTensor,
};
use crate::convert::{
    build_file, entry, is_model_file, items_of, lemma_lists_sized, lists_sized, model_entries,
    model_metadata, or_else, push_meta, storage_dtype, ConvertError,
};
use crate::dtype::DType;
use crate::exact::{
    counts, lemma_dot_counts, lemma_sum_of_one, lemma_sum_same, patterns, sum_to, within,
};
use crate::float::{is_dot, is_product, is_sum, lemma_dot_step, FloatUnit};
use crate::format::{manifest_of, metas_model, product, MetaKV, MetaModel};
use crate::loader::{law_tensor_round_trip, tensor_data};
use crate::json::{
    json_document, number_from, parse_json, whole_number, Json, JsonModel, JsonNumber, NumberModel,
};
use crate::order::{
    contents, entry_pairs, in_order, law_text_order, lemma_entries_in_order, lemma_lookup_at,
    TextMap,
};
use crate::text::{
    contains, decimal, decimal_digits, ends_with, has_infix, has_prefix, has_suffix, join, joined,
    strip_prefix, strip_suffix, texts, without_prefix,
};
use crate::writer::{
    assemble, copy_shape, image_of, items_model, plan_fits, planned, some_data, ItemModel,
    TensorItem,
};

verus! {

/// A matrix of an adapter: the name of the tensor that it was read from, its dimensions, and its
/// elements as 32-bit patterns, row by row.
#[derive(Debug)]
pub struct Matrix {
    pub name: String,
    pub shape: Vec<u64>,
    pub values: Vec<u32>,
}

/// The mathematical content of a [`Matrix`].
pub struct MatrixModel {
    pub name: Seq<char>,
    pub shape: Seq<u64>,
    pub values: Seq<u32>,
}

impl View for Matrix {
    type V = MatrixModel;

    open spec fn view(&self) -> MatrixModel {
        MatrixModel { name: self.name@, shape: self.shape@, values: self.values@ }
    }
}

impl MatrixModel {
    /// There are as many elements as the dimensions say.
    pub open spec fn sized(self) -> bool {
        self.values.len() == product(self.shape) && product(self.shape) <= usize::MAX
    }
}

/// A low-rank adapter.
pub struct LoraAdapter {
    /// The rank of the decomposition.
    pub r: u64,
    /// The scaling factor, which counts divided by the rank.
    pub lora_alpha: JsonNumber,
    /// The modules that the adapter is for, such as "q_proj".
    pub target_modules: Vec<String>,
    /// The first matrices by module, `r` rows of inputs.
    pub lora_a: TextMap<Matrix>,
    /// The second matrices by module, rows of `r` for the outputs.
    pub lora_b: TextMap<Matrix>,
    /// The model that the adapter was trained on, if it is known.
    pub base_model_name: Option<String>,
}

/// `name` without the suffix of an adapter's tensor.
pub open spec fn without_part(name: Seq<char>) -> Seq<char> {
    if has_suffix(name, ".lora_A.weight"@) {
        name.subrange(0, name.len() - ".lora_A.weight"@.len())
    } else if has_suffix(name, ".lora_B.weight"@) {
        name.subrange(0, name.len() - ".lora_B.weight"@.len())
    } else {
        name
    }
}

/// The module that an adapter's tensor belongs to.
pub open spec fn module_of(name: Seq<char>) -> Seq<char> {
    without_part(without_prefix(name, "base_model.model."@))
}

/// The module that an adapter's tensor belongs to: its name without "base_model.model." at the
/// start and ".lora_A.weight" or ".lora_B.weight" at the end.
pub fn extract_module_name(full_name: &str) -> (r: String)
    ensures
        r@ == module_of(full_name@),
{
    let name: String = match strip_prefix(full_name, "base_model.model.") {
        Some(rest) => rest,
        None => full_name.to_owned(),
    };
    match strip_suffix(name.as_str(), ".lora_A.weight") {
        Some(module) => module,
        None => match strip_suffix(name.as_str(), ".lora_B.weight") {
            Some(module) => module,
            None => name,
        },
    }
}

/// Whether a tensor is a first matrix of an adapter.
pub open spec fn is_part_a(name: Seq<char>) -> bool {
    has_infix(name, "lora_A"@)
}

/// Whether a tensor is a second matrix of an adapter.
pub open spec fn is_part_b(name: Seq<char>) -> bool {
    !has_infix(name, "lora_A"@) && has_infix(name, "lora_B"@)
}

/// Whether a tensor is a matrix of one part of an adapter, where `first` says which part.
pub open spec fn is_part(name: Seq<char>, first: bool) -> bool {
    if first {
        is_part_a(name)
    } else {
        is_part_b(name)
    }
}

/// The tensors of one part of an adapter by module, where `first` says which part: of several
/// for one module the last in the order of the names.
pub open spec fn part_sources(tensors: Seq<(Seq<char>, SourceModel)>, first: bool) -> Map<
    Seq<char>,
    (Seq<char>, SourceModel),
>
    decreases tensors.len(),
{
    if tensors.len() == 0 {
        Map::empty()
    } else {
        let rest = part_sources(tensors.drop_last(), first);
        let t = tensors.last();
        if is_part(t.0, first) && t.1.dtype != SourceDType::Other {
            rest.insert(module_of(t.0), t)
        } else {
            rest
        }
    }
}

proof fn lemma_part_sources(tensors: Seq<(Seq<char>, SourceModel)>, first: bool, k: Seq<char>)
    requires
        part_sources(tensors, first).contains_key(k),
    ensures
        module_of(part_sources(tensors, first)[k].0) == k,
        is_part(part_sources(tensors, first)[k].0, first),
    decreases tensors.len(),
{
    let rest = part_sources(tensors.drop_last(), first);
    if rest.contains_key(k) {
        lemma_part_sources(tensors.drop_last(), first, k);
    }
}

/// The matrices of one part of an adapter, read from their tensors.
pub open spec fn are_matrices<U: FloatUnit>(
    u: &U,
    sources: Map<Seq<char>, (Seq<char>, SourceModel)>,
    matrices: Map<Seq<char>, Matrix>,
) -> bool {
    &&& forall|k: Seq<char>| #[trigger] matrices.contains_key(k) <==> sources.contains_key(k)
    &&& forall|k: Seq<char>|
        matrices.contains_key(k) ==> is_matrix(u, sources[k], (#[trigger] matrices[k])@)
}

/// `m` is the matrix that a tensor holds.
pub open spec fn is_matrix<U: FloatUnit>(
    u: &U,
    source: (Seq<char>, SourceModel),
    m: MatrixModel,
) -> bool {
    &&& m.name == source.0
    &&& m.shape == source.1.shape
    &&& is_values(u, source.1, m.values)
    &&& m.sized()
}

/// The texts among the elements of a JSON array.
pub open spec fn texts_in(items: Seq<JsonModel>) -> Seq<Seq<char>>
    decreases items.len(),
{
    if items.len() == 0 {
        Seq::empty()
    } else {
        match items.last().text() {
            Some(s) => texts_in(items.drop_last()).push(s),
            None => texts_in(items.drop_last()),
        }
    }
}

/// The modules that an adapter's configuration names.
pub open spec fn modules_in(config: JsonModel) -> Seq<Seq<char>> {
    match config.member("target_modules"@) {
        JsonModel::Array(items) => texts_in(items),
        _ => Seq::empty(),
    }
}

/// The scaling factor of an adapter: its rank where none is given.
pub open spec fn alpha_in(config: JsonModel) -> NumberModel {
    match config.member("lora_alpha"@) {
        JsonModel::Number(n) => if n.bits is Some {
            n
        } else {
            whole_number(or_else(config.member("r"@).whole(), 8))
        },
        _ => whole_number(or_else(config.member("r"@).whole(), 8)),
    }
}

impl LoraAdapter {
    /// The matrices are in the order of their modules, have their elements, and bear the names of
    /// their modules and parts.
    pub open spec fn wf(self) -> bool {
        &&& self.lora_a.wf()
        &&& self.lora_b.wf()
        &&& matrices_sized(self.lora_a@)
        &&& matrices_sized(self.lora_b@)
        &&& matrices_named(self.lora_a@, true)
        &&& matrices_named(self.lora_b@, false)
    }
}

/// Every matrix bears the name of a tensor of its module and of its part.
pub open spec fn matrices_named(m: Map<Seq<char>, Matrix>, first: bool) -> bool {
    forall|k: Seq<char>|
        m.contains_key(k) ==> module_of((#[trigger] m[k])@.name) == k && is_part(
            m[k]@.name,
            first,
        )
}

/// Every matrix has as many elements as its dimensions say.
pub open spec fn matrices_sized(m: Map<Seq<char>, Matrix>) -> bool {
    forall|k: Seq<char>| m.contains_key(k) ==> (#[trigger] m[k])@.sized()
}

/// `adapter` is what an adapter's configuration and tensors give.
pub open spec fn is_adapter<U: FloatUnit>(
    u: &U,
    config: JsonModel,
    tensors: Seq<(Seq<char>, SourceModel)>,
    adapter: LoraAdapter,
) -> bool {
    &&& adapter.wf()
    &&& adapter.r == or_else(config.member("r"@).whole(), 8)
    &&& adapter.lora_alpha@ == alpha_in(config)
    &&& texts(adapter.target_modules@) == modules_in(config)
    &&& match adapter.base_model_name {
        Some(s) => config.member("base_model_name_or_path"@).text() == Some(s@),
        None => config.member("base_model_name_or_path"@).text() is None,
    }
    &&& are_matrices(u, part_sources(tensors, true), adapter.lora_a@)
    &&& are_matrices(u, part_sources(tensors, false), adapter.lora_b@)
}

fn copy_number(n: &JsonNumber) -> (r: JsonNumber)
    ensures
        r@ == n@,
{
    JsonNumber {
        whole: n.whole,
        bits: n.bits,
        text: match &n.text {
            Some(t) => Some(t.clone()),
            None => None,
        },
    }
}

fn config_alpha(config: &Json, r: u64) -> (alpha: JsonNumber)
    requires
        r == or_else(config@.member("r"@).whole(), 8),
    ensures
        alpha@ == alpha_in(config@),
{
    match config.get("lora_alpha") {
        Some(v) => match v {
            Json::Number(n) => {
                if n.bits.is_some() {
                    copy_number(n)
                } else {
                    number_from(r)
                }
            },
            _ => number_from(r),
        },
        None => number_from(r),
    }
}

fn config_modules(config: &Json) -> (r: Vec<String>)
    ensures
        texts(r@) == modules_in(config@),
{
    let mut out: Vec<String> = Vec::new();
    assert(texts(out@) =~= Seq::<Seq<char>>::empty());
    match config.get("target_modules") {
        Some(v) => match v {
            Json::Array(items) => {
                let ghost all = v@->Array_0;
                let mut i: usize = 0;
                assert(all.take(0) =~= Seq::<JsonModel>::empty());
                while i < items.len()
                    invariant
                        v is Array && *items == v->Array_0,
                        all == v@->Array_0,
                        i <= items@.len() == all.len(),
                        texts(out@) == texts_in(all.take(i as int)),
                    decreases items@.len() - i,
                {
                    let ghost before = out@;
                    assert(all.take(i + 1).drop_last() =~= all.take(i as int));
                    assert(all.take(i + 1).last() == items@[i as int]@);
                    match items[i].as_str() {
                        Some(s) => {
                            out.push(s.to_owned());
                            assert(texts(out@) =~= texts(before).push(s@));
                        },
                        None => {},
                    }
                    i = i + 1;
                }
                assert(all.take(i as int) =~= all);
            },
            _ => {},
        },
        None => {},
    }
    out
}

/// The matrices of one part of an adapter.
fn read_part<U: FloatUnit>(tensors: &TextMap<SourceTensor>, first: bool, unit: &U) -> (r: TextMap<
    Matrix,
>)
    requires
        tensors.wf(),
        all_sized(tensors@),
    ensures
        r.wf(),
        are_matrices(unit, part_sources(in_order(contents(tensors@)), first), r@),
        matrices_named(r@, first),
{
    let ghost pairs = entry_pairs(tensors.entries@);
    proof {
        lemma_entries_in_order(tensors.entries@);
    }
    let mut out: TextMap<Matrix> = TextMap::new();
    let mut i: usize = 0;
    assert(pairs.take(0) =~= Seq::<(Seq<char>, SourceModel)>::empty());
    while i < tensors.entries.len()
        invariant
            tensors.wf(),
            all_sized(tensors@),
            pairs == entry_pairs(tensors.entries@),
            i <= tensors.entries@.len() == pairs.len(),
            out.wf(),
            are_matrices(unit, part_sources(pairs.take(i as int), first), out@),
        decreases tensors.entries@.len() - i,
    {
        let name = tensors.entries[i].0.as_str();
        let t = &tensors.entries[i].1;
        let ghost before = out@;
        let ghost sources = part_sources(pairs.take(i as int), first);
        proof {
            assert(pairs.take(i + 1).drop_last() =~= pairs.take(i as int));
            assert(pairs.take(i + 1).last() == (name@, t@));
            lemma_lookup_at(tensors.entries@, i as int);
            assert(tensors@[tensors.entries@[i as int].0@]@.sized());
        }
        let has_a: bool = contains(name, "lora_A");
        let belongs: bool = if first {
            has_a
        } else {
            !has_a && contains(name, "lora_B")
        };
        if belongs {
            match tensor_values(t, unit) {
                Some(values) => {
                    let module = extract_module_name(name);
                    let ghost k = module@;
                    let matrix = Matrix {
                        name: name.to_owned(),
                        shape: copy_shape(t.shape.as_slice()),
                        values,
                    };
                    let ghost model = matrix@;
                    out.insert(module, matrix);
                    proof {
                        let now = sources.insert(k, (name@, t@));
                        assert(part_sources(pairs.take(i + 1), first) == now);
                        assert forall|x: Seq<char>| #[trigger] out@.contains_key(x)
                            <==> now.contains_key(x) by {
                            assert(before.contains_key(x) <==> sources.contains_key(x));
                        }
                        assert forall|x: Seq<char>| out@.contains_key(x) implies is_matrix(
                            unit,
                            now[x],
                            (#[trigger] out@[x])@,
                        ) by {
                            if x != k {
                                assert(before.contains_key(x));
                                assert(out@[x] == before[x]);
                            }
                        }
                    }
                },
                None => {},
            }
        }
        i = i + 1;
    }
    assert(pairs.take(i as int) =~= pairs);
    assert forall|k: Seq<char>| out@.contains_key(k) implies module_of((#[trigger] out@[k])@.name)
        == k && is_part(out@[k]@.name, first) by {
        lemma_part_sources(pairs, first, k);
    }
    out
}

/// Why an adapter could not be read.
#[derive(Debug)]
pub enum LoraError {
    /// `adapter_config.json` is no JSON document.
    Config(String),
    /// The file is no archive.
    Archive(String),
    /// There is no first matrix: this is no adapter.
    NoMatrices,
}

/// The adapter that a configuration and tensors give; `None` where there is no first matrix.
pub fn adapter_from<U: FloatUnit>(config: &Json, tensors: &TextMap<SourceTensor>, unit: &U) -> (r: Option<
    LoraAdapter,
>)
    requires
        tensors.wf(),
        all_sized(tensors@),
    ensures
        match r {
            Some(a) => is_adapter(unit, config@, in_order(contents(tensors@)), a)
                && a.lora_a.entries@.len() > 0,
            None => forall|k: Seq<char>|
                !(#[trigger] part_sources(
                    in_order(contents(tensors@)),
                    true,
                ).contains_key(k)),
        },
{
    let r: u64 = match config.member_u64("r") {
        Some(n) => n,
        None => 8,
    };
    let lora_alpha = config_alpha(config, r);
    let target_modules = config_modules(config);
    let base_model_name: Option<String> = match config.member_str("base_model_name_or_path") {
        Some(s) => Some(s.to_owned()),
        None => None,
    };
    let lora_a = read_part(tensors, true, unit);
    let lora_b = read_part(tensors, false, unit);
    if lora_a.entries.len() == 0 {
        assert forall|k: Seq<char>|
            !(#[trigger] part_sources(in_order(contents(tensors@)), true).contains_key(k)) by {
            assert(!lora_a@.contains_key(k));
        }
        return None;
    }
    Some(LoraAdapter { r, lora_alpha, target_modules, lora_a, lora_b, base_model_name })
}

/// Reads an adapter. `config` is the text of its `adapter_config.json`, `archive` its
/// `adapter_model.safetensors`.
pub fn load_lora_adapter<U: FloatUnit>(config: &str, archive: &Vec<u8>, unit: &U) -> (r: Result<
    LoraAdapter,
    LoraError,
>)
    ensures
        ({
            let document = json_document(config@);
            let tensors = file_tensors(archive@);
            match r {
                Ok(a) => document is Ok && tensors is Some && is_adapter(
                    unit,
                    document->Ok_0,
                    in_order(tensors->Some_0),
                    a,
                ),
                Err(LoraError::Config(e)) => document == Err::<JsonModel, Seq<char>>(e@),
                Err(LoraError::Archive(_)) => document is Ok && tensors is None,
                Err(LoraError::NoMatrices) => document is Ok && tensors is Some && forall|
                    k: Seq<char>,
                |
                    !(#[trigger] part_sources(
                        in_order(tensors->Some_0),
                        true,
                    ).contains_key(k)),
            }
        }),
{
    let document = match parse_json(config) {
        Ok(d) => d,
        Err(e) => {
            return Err(LoraError::Config(e));
        },
    };
    let mut files: Vec<Vec<u8>> = Vec::new();
    let mut copy: Vec<u8> = Vec::new();
    crate::bytes::push_all(&mut copy, archive.as_slice());
    files.push(copy);
    let tensors = match crate::archive::read_archives(&files) {
        Ok(m) => m,
        Err((_, e)) => {
            return Err(LoraError::Archive(e));
        },
    };
    proof {
        let one = crate::archive::file_bytes(files@);
        assert(copy@ =~= archive@);
        assert(one.drop_last() =~= Seq::<Seq<u8>>::empty());
        assert(one.last() == archive@);
        reveal_with_fuel(crate::archive::merged, 2);
        let a = file_tensors(archive@)->Some_0;
        assert(Map::<Seq<char>, SourceModel>::empty().union_prefer_right(a) =~= a);
    }
    match adapter_from(&document, &tensors, unit) {
        Some(a) => Ok(a),
        None => Err(LoraError::NoMatrices),
    }
}

/// Row `o` of a matrix with rows of `width`.
pub open spec fn row_of(m: Seq<u32>, width: int, o: int) -> Seq<u32> {
    Seq::new(width as nat, |k: int| m[o * width + k])
}

/// Column `i` of a matrix of `height` rows of `width`.
pub open spec fn column_of(m: Seq<u32>, height: int, width: int, i: int) -> Seq<u32> {
    Seq::new(height as nat, |k: int| m[k * width + i])
}

/// `r` is an element of a merged weight: the element plus the scale times the element of the
/// product of the two matrices of the adapter.
pub open spec fn is_merged_element<U: FloatUnit>(
    u: &U,
    b_row: Seq<u32>,
    a_column: Seq<u32>,
    base: u32,
    scale: u32,
    r: u32,
) -> bool {
    exists|dot: u32, p: u32|
        {
            &&& #[trigger] is_dot(u, b_row, a_column, dot)
            &&& #[trigger] is_product(u, scale, dot, p)
            &&& is_sum(u, base, p, r)
        }
}

/// `out` is a weight of `outputs` rows of `inputs`, with an adapter of rank `r` merged into it.
pub open spec fn is_merged_weight<U: FloatUnit>(
    u: &U,
    a: Seq<u32>,
    b: Seq<u32>,
    base: Seq<u32>,
    r: int,
    inputs: int,
    outputs: int,
    scale: u32,
    out: Seq<u32>,
) -> bool {
    &&& out.len() == base.len()
    &&& forall|p: int|
        0 <= p < outputs * inputs ==> is_merged_element(
            u,
            row_of(b, r, p / inputs),
            column_of(a, r, inputs, p % inputs),
            base[p],
            scale,
            #[trigger] out[p],
        )
    &&& forall|p: int| outputs * inputs <= p < base.len() ==> #[trigger] out[p] == base[p]
}

proof fn lemma_place(p: int, width: int, height: int)
    requires
        0 <= p < height * width,
        0 <= height,
        0 <= width,
    ensures
        width > 0,
        0 <= p / width < height,
        0 <= p % width < width,
        p == (p / width) * width + p % width,
{
    assert(width > 0) by (nonlinear_arith)
        requires
            0 <= p < height * width,
            0 <= width,
    ;
    vstd::arithmetic::div_mod::lemma_fundamental_div_mod(p, width);
    assert(p / width < height) by (nonlinear_arith)
        requires
            p < height * width,
            width > 0,
            p == width * (p / width) + p % width,
            p % width >= 0,
    ;
    assert(p / width >= 0) by (nonlinear_arith)
        requires
            p >= 0,
            width > 0,
    ;
    assert(width * (p / width) == (p / width) * width) by (nonlinear_arith);
}

proof fn lemma_in_matrix(row: int, column: int, height: int, width: int)
    requires
        0 <= row < height,
        0 <= column < width,
    ensures
        0 <= row * width <= row * width + column < height * width,
{
    assert(row * width + width <= height * width) by (nonlinear_arith)
        requires
            row + 1 <= height,
            width >= 0,
    ;
    assert(0 <= row * width) by (nonlinear_arith)
        requires
            row >= 0,
            width >= 0,
    ;
}

/// The product of row `o` of the second matrix and column `i` of the first.
fn lora_dot<U: FloatUnit>(
    lora_a: &[u32],
    lora_b: &[u32],
    r: usize,
    inputs: usize,
    outputs: usize,
    o: usize,
    i: usize,
    unit: &U,
) -> (dot: u32)
    requires
        o < outputs,
        i < inputs,
        r * inputs <= lora_a@.len(),
        outputs * r <= lora_b@.len(),
    ensures
        is_dot(
            unit,
            row_of(lora_b@, r as int, o as int),
            column_of(lora_a@, r as int, inputs as int, i as int),
            dot,
        ),
{
    let ghost xs = row_of(lora_b@, r as int, o as int);
    let ghost ys = column_of(lora_a@, r as int, inputs as int, i as int);
    let size_a: usize = lora_a.len();
    let size_b: usize = lora_b.len();
    let mut dot: u32 = 0;
    let mut k: usize = 0;
    while k < r
        invariant
            k <= r,
            o < outputs,
            i < inputs,
            r * inputs <= size_a == lora_a@.len(),
            outputs * r <= size_b == lora_b@.len(),
            xs == row_of(lora_b@, r as int, o as int),
            ys == column_of(lora_a@, r as int, inputs as int, i as int),
            is_dot(unit, xs.take(k as int), ys.take(k as int), dot),
        decreases r - k,
    {
        proof {
            lemma_in_matrix(o as int, k as int, outputs as int, r as int);
            lemma_in_matrix(k as int, i as int, r as int, inputs as int);
        }
        let x: u32 = lora_b[o * r + k];
        let y: u32 = lora_a[k * inputs + i];
        let p: u32 = unit.times(x, y);
        let next: u32 = unit.plus(dot, p);
        proof {
            lemma_dot_step(unit, xs.take(k as int), ys.take(k as int), x, y, dot, p, next);
            assert(xs.take(k as int).push(x) =~= xs.take(k + 1));
            assert(ys.take(k as int).push(y) =~= ys.take(k + 1));
        }
        dot = next;
        k = k + 1;
    }
    assert(xs.take(k as int) =~= xs);
    assert(ys.take(k as int) =~= ys);
    dot
}

/// Merges an adapter into a weight: adds to it the scale times the product of the adapter's
/// second matrix, `[outputs, r]`, and its first, `[r, inputs]`.
pub fn merge_lora_weights<U: FloatUnit>(
    lora_a: &[u32],
    lora_a_shape: &[usize],
    lora_b: &[u32],
    lora_b_shape: &[usize],
    base_weight: &[u32],
    base_shape: &[usize],
    scale: u32,
    unit: &U,
) -> (merged: Vec<u32>)
    requires
        lora_a_shape@.len() >= 2,
        lora_b_shape@.len() >= 2,
        base_shape@.len() >= 2,
        lora_b_shape@[1] == lora_a_shape@[0],
        base_shape@[0] == lora_b_shape@[0],
        base_shape@[1] == lora_a_shape@[1],
        lora_a_shape@[0] * lora_a_shape@[1] <= lora_a@.len(),
        lora_b_shape@[0] * lora_b_shape@[1] <= lora_b@.len(),
        base_shape@[0] * base_shape@[1] <= base_weight@.len(),
    ensures
        is_merged_weight(
            unit,
            lora_a@,
            lora_b@,
            base_weight@,
            lora_a_shape@[0] as int,
            lora_a_shape@[1] as int,
            lora_b_shape@[0] as int,
            scale,
            merged@,
        ),
{
    let r: usize = lora_a_shape[0];
    let inputs: usize = lora_a_shape[1];
    let outputs: usize = lora_b_shape[0];
    let size: usize = base_weight.len();
    let total: usize = outputs * inputs;
    let mut merged: Vec<u32> = Vec::new();
    merged.extend_from_slice(base_weight);
    assert(merged@ =~= base_weight@);
    let mut p: usize = 0;
    while p < total
        invariant
            p <= total == outputs * inputs,
            total <= size == base_weight@.len() == merged@.len(),
            r * inputs <= lora_a@.len(),
            outputs * r <= lora_b@.len(),
            forall|q: int|
                0 <= q < p ==> is_merged_element(
                    unit,
                    row_of(lora_b@, r as int, q / inputs as int),
                    column_of(lora_a@, r as int, inputs as int, q % inputs as int),
                    base_weight@[q],
                    scale,
                    #[trigger] merged@[q],
                ),
            forall|q: int| p <= q < size ==> #[trigger] merged@[q] == base_weight@[q],
        decreases total - p,
    {
        proof {
            lemma_place(p as int, inputs as int, outputs as int);
        }
        let dot: u32 = lora_dot(
            lora_a,
            lora_b,
            r,
            inputs,
            outputs,
            p / inputs,
            p % inputs,
            unit,
        );
        let delta: u32 = unit.times(scale, dot);
        let v: u32 = unit.plus(merged[p], delta);
        let ghost before = merged@;
        merged[p] = v;
        proof {
            assert(merged@ == before.update(p as int, v));
            assert(is_merged_element(
                unit,
                row_of(lora_b@, r as int, p as int / inputs as int),
                column_of(lora_a@, r as int, inputs as int, p as int % inputs as int),
                base_weight@[p as int],
                scale,
                v,
            )) by {
                assert(is_product(unit, scale, dot, delta));
            }
        }
        p = p + 1;
    }
    merged
}

/// A merged weight is `base + scale * (B A)`, where `B` has rows of `r` elements and `A` rows of
/// `inputs`: on whole numbers, on which the arithmetic is exact, the element of row `o` and column `i`
/// is the element of the base plus the scale times the sum of `B[o, k] * A[k, i]`.
pub proof fn law_merged_weight_is_the_product<U: FloatUnit>(
    u: &U,
    w: spec_fn(nat) -> u32,
    limit: nat,
    a: Seq<nat>,
    b: Seq<nat>,
    base: Seq<nat>,
    r: int,
    inputs: int,
    outputs: int,
    scale: nat,
    out: Seq<u32>,
    o: int,
    i: int,
)
    requires
        counts(u, w, limit),
        within(a, limit),
        within(b, limit),
        0 <= r,
        0 <= o < outputs,
        0 <= i < inputs,
        r * inputs <= a.len(),
        outputs * r <= b.len(),
        outputs * inputs <= base.len(),
        scale <= limit,
        sum_to(|k: int| b[o * r + k] * a[k * inputs + i], r) <= limit,
        base[o * inputs + i] + scale * sum_to(|k: int| b[o * r + k] * a[k * inputs + i], r) <= limit,
        is_merged_weight(
            u,
            patterns(w, a),
            patterns(w, b),
            patterns(w, base),
            r,
            inputs,
            outputs,
            w(scale),
            out,
        ),
    ensures
        out.len() == base.len(),
        out[o * inputs + i] == w(
            base[o * inputs + i] + scale * sum_to(
                |k: int| b[o * r + k] * a[k * inputs + i],
                r,
            ),
        ),
{
    let p = o * inputs + i;
    lemma_in_matrix(o, i, outputs, inputs);
    vstd::arithmetic::div_mod::lemma_fundamental_div_mod_converse(p, inputs, o, i);
    let xs = Seq::new(r as nat, |k: int| b[o * r + k]);
    let ys = Seq::new(r as nat, |k: int| a[k * inputs + i]);
    assert forall|k: int| 0 <= k < r implies (#[trigger] xs[k] <= limit && ys[k] <= limit
        && 0 <= o * r + k < b.len() && 0 <= k * inputs + i < a.len()) by {
        lemma_in_matrix(o, k, outputs, r);
        lemma_in_matrix(k, i, r, inputs);
        assert(b[o * r + k] <= limit && a[k * inputs + i] <= limit);
    }
    assert forall|k: int| 0 <= k < r implies #[trigger] ys[k] <= limit by {
        assert(xs[k] <= limit);
    }
    let row = row_of(patterns(w, b), r, p / inputs);
    let column = column_of(patterns(w, a), r, inputs, p % inputs);
    assert forall|k: int| 0 <= k < r implies row[k] == patterns(w, xs)[k] && column[k] == patterns(
        w,
        ys,
    )[k] by {
        assert(xs[k] <= limit);
    }
    assert(row =~= patterns(w, xs));
    assert(column =~= patterns(w, ys));
    let f = |k: int| b[o * r + k] * a[k * inputs + i];
    let g = |k: int| xs[k] * ys[k];
    lemma_sum_same(f, g, r);
    assert(is_merged_element(u, row, column, patterns(w, base)[p], w(scale), out[p]));
    let (dot, q) = choose|dot: u32, q: u32|
        {
            &&& #[trigger] is_dot(u, row, column, dot)
            &&& #[trigger] is_product(u, w(scale), dot, q)
            &&& is_sum(u, patterns(w, base)[p], q, out[p])
        };
    lemma_dot_counts(u, w, limit, xs, ys, dot);
    let s = sum_to(f, r);
    assert(is_product(u, w(scale), w(s), q));
    assert(scale * s <= limit);
    assert(is_sum(u, w(base[p]), w(scale * s), out[p]));
}

/// Where the first matrix of an adapter is a unit matrix, what is merged into a weight is the scale
/// times the second matrix itself, element for element.
pub proof fn law_unit_matrix_merges_the_other<U: FloatUnit>(
    u: &U,
    w: spec_fn(nat) -> u32,
    limit: nat,
    b: Seq<nat>,
    base: Seq<nat>,
    r: int,
    outputs: int,
    scale: nat,
    out: Seq<u32>,
    o: int,
    i: int,
)
    requires
        counts(u, w, limit),
        within(b, limit),
        0 <= o < outputs,
        0 <= i < r,
        1 <= limit,
        outputs * r <= b.len(),
        outputs * r <= base.len(),
        scale <= limit,
        base[o * r + i] + scale * b[o * r + i] <= limit,
        is_merged_weight(
            u,
            patterns(w, unit_matrix(r)),
            patterns(w, b),
            patterns(w, base),
            r,
            r,
            outputs,
            w(scale),
            out,
        ),
    ensures
        out[o * r + i] == w(base[o * r + i] + scale * b[o * r + i]),
{
    let a = unit_matrix(r);
    assert(r * r >= 0) by (nonlinear_arith)
        requires
            r >= 0,
    ;
    let f = |k: int| b[o * r + k] * a[k * r + i];
    assert forall|k: int| 0 <= k < r implies #[trigger] f(k) == if k == i {
        b[o * r + k]
    } else {
        0
    } by {
        lemma_in_matrix(k, i, r, r);
        vstd::arithmetic::div_mod::lemma_fundamental_div_mod_converse(k * r + i, r, k, i);
        assert(a[k * r + i] == if k == i {
            1nat
        } else {
            0nat
        });
        assert(b[o * r + k] * 1 == b[o * r + k] && b[o * r + k] * 0 == 0);
    }
    lemma_sum_of_one(f, r, i);
    lemma_in_matrix(o, i, outputs, r);
    assert(b[o * r + i] <= limit);
    law_merged_weight_is_the_product(
        u,
        w,
        limit,
        a,
        b,
        base,
        r,
        r,
        outputs,
        scale,
        out,
        o,
        i,
    );
}

/// The unit matrix of `r` rows, row by row.
pub open spec fn unit_matrix(r: int) -> Seq<nat> {
    Seq::new(
        (r * r) as nat,
        |p: int|
            if p / r == p % r {
                1
            } else {
                0
            },
    )
}

/// What is merged into a row of a weight depends on the row of the second matrix and on no other
/// element of it: where two second matrices have the same row `o`, that row of the one result is a
/// row `o` of the other.
pub proof fn law_merged_row_is_of_its_row<U: FloatUnit>(
    u: &U,
    a: Seq<u32>,
    b: Seq<u32>,
    other: Seq<u32>,
    base: Seq<u32>,
    r: int,
    inputs: int,
    outputs: int,
    scale: u32,
    out: Seq<u32>,
    other_out: Seq<u32>,
    o: int,
)
    requires
        0 <= r,
        0 <= o < outputs,
        0 <= inputs,
        outputs * inputs <= base.len(),
        forall|k: int| o * r <= k < (o + 1) * r ==> b[k] == #[trigger] other[k],
        is_merged_weight(u, a, b, base, r, inputs, outputs, scale, out),
        is_merged_weight(u, a, other, base, r, inputs, outputs, scale, other_out),
    ensures
        is_merged_weight(
            u,
            a,
            other,
            base,
            r,
            inputs,
            outputs,
            scale,
            Seq::new(
                base.len(),
                |p: int|
                    if o * inputs <= p < (o + 1) * inputs {
                        out[p]
                    } else {
                        other_out[p]
                    },
            ),
        ),
{
    let mixed = Seq::new(
        base.len(),
        |p: int|
            if o * inputs <= p < (o + 1) * inputs {
                out[p]
            } else {
                other_out[p]
            },
    );
    assert((o + 1) * r == o * r + r && (o + 1) * inputs == o * inputs + inputs) by (nonlinear_arith);
    assert((o + 1) * inputs <= outputs * inputs && 0 <= o * inputs) by (nonlinear_arith)
        requires
            0 <= o < outputs,
            0 <= inputs,
    ;
    assert(row_of(b, r, o) =~= row_of(other, r, o));
    assert forall|p: int| 0 <= p < outputs * inputs implies is_merged_element(
        u,
        row_of(other, r, p / inputs),
        column_of(a, r, inputs, p % inputs),
        base[p],
        scale,
        #[trigger] mixed[p],
    ) by {
        if o * inputs <= p < (o + 1) * inputs {
            vstd::arithmetic::div_mod::lemma_fundamental_div_mod_converse(
                p,
                inputs,
                o,
                p - o * inputs,
            );
            assert(mixed[p] == out[p]);
        } else {
            assert(mixed[p] == other_out[p]);
        }
    }
    assert forall|p: int| outputs * inputs <= p < base.len() implies #[trigger] mixed[p]
        == base[p] by {
        assert(other_out[p] == base[p]);
    }
}

/// The module whose matrices are merged into a tensor: the first, in the order of the modules,
/// that has both and with whose weight the name ends. `keys` are the modules of the first
/// matrices, `second` those of the second.
pub open spec fn merged_module(
    keys: Seq<Seq<char>>,
    second: Map<Seq<char>, Matrix>,
    name: Seq<char>,
) -> Option<int>
    decreases keys.len(),
{
    if keys.len() == 0 {
        None
    } else {
        match merged_module(keys.drop_last(), second, name) {
            Some(i) => Some(i),
            None => if second.contains_key(keys.last()) && has_suffix(
                without_prefix(name, "model."@),
                keys.last() + ".weight"@,
            ) {
                Some(keys.len() - 1)
            } else {
                None
            },
        }
    }
}

/// What becomes of a tensor for which there is an adapter.
pub enum MergeCase {
    /// The adapter is merged into it.
    Merge,
    /// The tensor is of another shape and stays.
    Keep,
    /// The adapter's matrices do not belong together.
    Bad,
}

/// What becomes of a tensor of the dimensions `shape` for which there is an adapter.
pub open spec fn merge_case(a: MatrixModel, b: MatrixModel, shape: Seq<u64>) -> MergeCase {
    if a.shape.len() < 2 || b.shape.len() < 1 {
        MergeCase::Bad
    } else if shape.len() == 2 && shape[0] == b.shape[0] && shape[1] == a.shape[1] {
        if b.shape.len() >= 2 && b.shape[1] == a.shape[0] && a.shape[0] * a.shape[1]
            <= a.values.len() && b.shape[0] * b.shape[1] <= b.values.len() && a.shape[0]
            <= usize::MAX && a.shape[1] <= usize::MAX && b.shape[0] <= usize::MAX {
            MergeCase::Merge
        } else {
            MergeCase::Bad
        }
    } else {
        MergeCase::Keep
    }
}

/// The modules of a map, in their order.
pub open spec fn modules(m: TextMap<Matrix>) -> Seq<Seq<char>> {
    Seq::new(m.entries@.len(), |i: int| m.entries@[i].0@)
}

/// What becomes of the tensor `name`; `None` where there is no adapter for it.
pub open spec fn tensor_case(adapter: LoraAdapter, name: Seq<char>, shape: Seq<u64>) -> Option<
    MergeCase,
> {
    match merged_module(modules(adapter.lora_a), adapter.lora_b@, name) {
        Some(i) => Some(
            merge_case(
                adapter.lora_a.entries@[i].1@,
                adapter.lora_b@[modules(adapter.lora_a)[i]]@,
                shape,
            ),
        ),
        None => None,
    }
}

/// `out` are the elements of the tensor `name` with the adapter merged into it.
pub open spec fn is_adapted<U: FloatUnit>(
    u: &U,
    adapter: LoraAdapter,
    scale: u32,
    name: Seq<char>,
    shape: Seq<u64>,
    values: Seq<u32>,
    out: Seq<u32>,
) -> bool {
    match merged_module(modules(adapter.lora_a), adapter.lora_b@, name) {
        Some(i) => {
            let a = adapter.lora_a.entries@[i].1@;
            let b = adapter.lora_b@[modules(adapter.lora_a)[i]]@;
            match merge_case(a, b, shape) {
                MergeCase::Merge => is_merged_weight(
                    u,
                    a.values,
                    b.values,
                    values,
                    a.shape[0] as int,
                    a.shape[1] as int,
                    b.shape[0] as int,
                    scale,
                    out,
                ),
                MergeCase::Keep => out == values,
                MergeCase::Bad => false,
            }
        },
        None => out == values,
    }
}

fn find_module(adapter: &LoraAdapter, name: &str) -> (r: Option<usize>)
    requires
        adapter.wf(),
    ensures
        match r {
            Some(i) => merged_module(modules(adapter.lora_a), adapter.lora_b@, name@) == Some(
                i as int,
            ) && i < adapter.lora_a.entries@.len() && adapter.lora_b@.contains_key(
                modules(adapter.lora_a)[i as int],
            ),
            None => merged_module(modules(adapter.lora_a), adapter.lora_b@, name@) is None,
        },
{
    let clean: String = match strip_prefix(name, "model.") {
        Some(rest) => rest,
        None => name.to_owned(),
    };
    let ghost all = modules(adapter.lora_a);
    let mut i: usize = 0;
    assert(all.take(0) =~= Seq::<Seq<char>>::empty());
    while i < adapter.lora_a.entries.len()
        invariant
            adapter.wf(),
            all == modules(adapter.lora_a),
            clean@ == without_prefix(name@, "model."@),
            i <= adapter.lora_a.entries@.len(),
            merged_module(all.take(i as int), adapter.lora_b@, name@) is None,
        decreases adapter.lora_a.entries@.len() - i,
    {
        let key = adapter.lora_a.entries[i].0.as_str();
        assert(all.take(i + 1).drop_last() =~= all.take(i as int));
        assert(all.take(i + 1).last() == key@);
        if adapter.lora_b.get(key).is_some() {
            let weight = key.to_owned().concat(".weight");
            if ends_with(clean.as_str(), weight.as_str()) {
                proof {
                    lemma_module_prefix(all, adapter.lora_b@, name@, (i + 1) as nat);
                }
                return Some(i);
            }
        }
        i = i + 1;
    }
    assert(all.take(i as int) =~= all);
    None
}

proof fn lemma_module_prefix(
    keys: Seq<Seq<char>>,
    second: Map<Seq<char>, Matrix>,
    name: Seq<char>,
    n: nat,
)
    requires
        n <= keys.len(),
        merged_module(keys.take(n as int), second, name) is Some,
    ensures
        merged_module(keys, second, name) == merged_module(keys.take(n as int), second, name),
    decreases keys.len(),
{
    if n < keys.len() {
        assert(keys.drop_last().take(n as int) =~= keys.take(n as int));
        lemma_module_prefix(keys.drop_last(), second, name, n);
    } else {
        assert(keys.take(n as int) =~= keys);
    }
}

/// The product of two dimensions, if it is at most `bound`.
fn area_within(x: u64, y: u64, bound: usize) -> (r: bool)
    ensures
        r == (x * y <= bound),
{
    match x.checked_mul(y) {
        Some(n) => n as u128 <= bound as u128,
        None => false,
    }
}

/// The elements of a tensor with the adapter merged into it; `None` where the adapter's matrices
/// do not belong together.
fn adapt_values<U: FloatUnit>(
    adapter: &LoraAdapter,
    scale: u32,
    name: &str,
    shape: &Vec<u64>,
    values: Vec<u32>,
    unit: &U,
) -> (r: Option<Vec<u32>>)
    requires
        adapter.wf(),
        values@.len() == product(shape@),
    ensures
        match r {
            Some(out) => is_adapted(unit, *adapter, scale, name@, shape@, values@, out@)
                && out@.len() == values@.len(),
            None => tensor_case(*adapter, name@, shape@) == Some(MergeCase::Bad),
        },
{
    let i: usize = match find_module(adapter, name) {
        Some(i) => i,
        None => {
            return Some(values);
        },
    };
    let a = &adapter.lora_a.entries[i].1;
    let b = match adapter.lora_b.get(adapter.lora_a.entries[i].0.as_str()) {
        Some(b) => b,
        None => {
            return None;
        },
    };
    if a.shape.len() < 2 || b.shape.len() < 1 {
        return None;
    }
    if !(shape.len() == 2 && shape[0] == b.shape[0] && shape[1] == a.shape[1]) {
        return Some(values);
    }
    if b.shape.len() < 2 || b.shape[1] != a.shape[0] || !area_within(
        a.shape[0],
        a.shape[1],
        a.values.len(),
    ) || !area_within(b.shape[0], b.shape[1], b.values.len()) {
        return None;
    }
    let limit: u128 = usize::MAX as u128;
    if a.shape[0] as u128 > limit || a.shape[1] as u128 > limit || b.shape[0] as u128 > limit {
        return None;
    }
    let a_shape: [usize; 2] = [a.shape[0] as usize, a.shape[1] as usize];
    let b_shape: [usize; 2] = [b.shape[0] as usize, b.shape[1] as usize];
    let w_shape: [usize; 2] = [shape[0] as usize, shape[1] as usize];
    proof {
        reveal_with_fuel(product, 3);
        assert(shape@.drop_last().drop_last() =~= Seq::<u64>::empty());
        assert(product(shape@) == shape@[0] * shape@[1]);
    }
    Some(
        merge_lora_weights(
            a.values.as_slice(),
            a_shape.as_slice(),
            b.values.as_slice(),
            b_shape.as_slice(),
            values.as_slice(),
            w_shape.as_slice(),
            scale,
            unit,
        ),
    )
}

/// `out` is a tensor with the adapter merged into it, in 32-bit elements.
pub open spec fn is_adapted_tensor<U: FloatUnit>(
    u: &U,
    adapter: LoraAdapter,
    scale: u32,
    name: Seq<char>,
    t: SourceModel,
    out: SourceModel,
) -> bool {
    &&& out.dtype == SourceDType::F32
    &&& out.shape == t.shape
    &&& exists|values: Seq<u32>, adapted: Seq<u32>|
        {
            &&& #[trigger] is_values(u, t, values)
            &&& #[trigger] is_adapted(u, adapter, scale, name, t.shape, values, adapted)
            &&& is_encoded(u, DType::FP32, adapted, out.data)
        }
}

/// Merges an adapter into the tensors of a model: all become 32-bit ones, and those whose element
/// type cannot be converted are left out. An error names the first tensor whose adapter does not
/// fit together.
pub fn merge_lora_into_model<U: FloatUnit>(
    adapter: &LoraAdapter,
    tensors: &TextMap<SourceTensor>,
    scale: u32,
    unit: &U,
) -> (r: Result<TextMap<SourceTensor>, String>)
    requires
        adapter.wf(),
        tensors.wf(),
        all_sized(tensors@),
    ensures
        match r {
            Ok(m) => m.wf() && all_sized(m@) && (forall|k: Seq<char>| #[trigger]
                m@.contains_key(k) <==> tensors@.contains_key(k) && tensors@[k]@.dtype
                    != SourceDType::Other) && forall|k: Seq<char>|
                m@.contains_key(k) ==> is_adapted_tensor(
                    unit,
                    *adapter,
                    scale,
                    k,
                    tensors@[k]@,
                    (#[trigger] m@[k])@,
                ),
            Err(k) => tensors@.contains_key(k@) && tensor_case(
                *adapter,
                k@,
                tensors@[k@]@.shape,
            ) == Some(MergeCase::Bad),
        },
{
    let mut out: TextMap<SourceTensor> = TextMap::new();
    let mut i: usize = 0;
    while i < tensors.entries.len()
        invariant
            adapter.wf(),
            tensors.wf(),
            all_sized(tensors@),
            i <= tensors.entries@.len(),
            out.wf(),
            all_sized(out@),
            forall|k: Seq<char>| #[trigger]
                out@.contains_key(k) <==> exists|j: int|
                    0 <= j < i && #[trigger] tensors.entries@[j].0@ == k
                        && tensors.entries@[j].1@.dtype != SourceDType::Other,
            forall|k: Seq<char>|
                out@.contains_key(k) ==> is_adapted_tensor(
                    unit,
                    *adapter,
                    scale,
                    k,
                    tensors@[k]@,
                    (#[trigger] out@[k])@,
                ),
        decreases tensors.entries@.len() - i,
    {
        let name = tensors.entries[i].0.as_str();
        let t = &tensors.entries[i].1;
        let ghost k0 = name@;
        let ghost before = out@;
        proof {
            lemma_lookup_at(tensors.entries@, i as int);
            assert(tensors@.contains_key(k0) && tensors@[k0] == *t);
            assert(tensors@[k0]@.sized());
        }
        match tensor_values(t, unit) {
            Some(values) => {
                let ghost plain = values@;
                match adapt_values(adapter, scale, name, &t.shape, values, unit) {
                    Some(adapted) => {
                        let data = encode_singles(adapted.as_slice());
                        let tensor = SourceTensor {
                            dtype: SourceDType::F32,
                            shape: copy_shape(t.shape.as_slice()),
                            data,
                        };
                        proof {
                            assert(is_values(unit, t@, plain));
                            assert(is_adapted(
                                unit,
                                *adapter,
                                scale,
                                k0,
                                t@.shape,
                                plain,
                                adapted@,
                            ));
                            assert(is_encoded(unit, DType::FP32, adapted@, tensor@.data));
                            assert(is_adapted_tensor(unit, *adapter, scale, k0, t@, tensor@));
                            assert(tensor@.sized());
                        }
                        out.insert(name.to_owned(), tensor);
                        proof {
                            assert forall|k: Seq<char>| #[trigger]
                                out@.contains_key(k) <==> exists|j: int|
                                    0 <= j < i + 1 && #[trigger] tensors.entries@[j].0@ == k
                                        && tensors.entries@[j].1@.dtype
                                        != SourceDType::Other by {
                                if k == k0 {
                                    assert(tensors.entries@[i as int].0@ == k);
                                } else {
                                    assert(before.contains_key(k) == out@.contains_key(k));
                                }
                            }
                            assert forall|k: Seq<char>| out@.contains_key(k) implies (
                            #[trigger] out@[k])@.sized() && is_adapted_tensor(
                                unit,
                                *adapter,
                                scale,
                                k,
                                tensors@[k]@,
                                out@[k]@,
                            ) by {
                                if k != k0 {
                                    assert(before.contains_key(k) && before[k] == out@[k]);
                                }
                            }
                        }
                    },
                    None => {
                        return Err(name.to_owned());
                    },
                }
            },
            None => {},
        }
        i = i + 1;
    }
    proof {
        assert forall|k: Seq<char>| #[trigger] out@.contains_key(k) <==> tensors@.contains_key(k)
            && tensors@[k]@.dtype != SourceDType::Other by {
            crate::order::lemma_lookup(tensors.entries@, k);
            if out@.contains_key(k) {
                let j = choose|j: int|
                    0 <= j < i && #[trigger] tensors.entries@[j].0@ == k
                        && tensors.entries@[j].1@.dtype != SourceDType::Other;
                lemma_lookup_at(tensors.entries@, j);
            }
        }
    }
    Ok(out)
}

/// The metadata of a stored adapter.
pub open spec fn adapter_entries(adapter: LoraAdapter) -> Seq<MetaModel> {
    let entries = seq![
        entry("lora_rank"@, decimal_digits(adapter.r as nat)),
        entry("lora_alpha"@, or_else(adapter.lora_alpha@.text, ""@)),
        entry("target_modules"@, joined(texts(adapter.target_modules@), ","@)),
    ];
    match adapter.base_model_name {
        Some(s) => entries.push(entry("base_model"@, s@)),
        None => entries,
    }
}

/// The matrices of one part, in the order of their modules.
pub open spec fn part_tensors(m: TextMap<Matrix>) -> Seq<MatrixModel> {
    Seq::new(m.entries@.len(), |i: int| m.entries@[i].1@)
}

/// The matrices of an adapter: the first ones, then the second ones, each in the order of their
/// modules.
pub open spec fn adapter_tensors(adapter: LoraAdapter) -> Seq<MatrixModel> {
    part_tensors(adapter.lora_a) + part_tensors(adapter.lora_b)
}

/// The table items of the matrices of an adapter: each bears the name that its tensor had.
pub open spec fn matrix_items(target: DType, tensors: Seq<MatrixModel>) -> Seq<ItemModel> {
    Seq::new(
        tensors.len(),
        |i: int|
            ItemModel {
                name: tensors[i].name,
                shape: tensors[i].shape,
                dtype: storage_dtype(target, product(tensors[i].shape)),
            },
    )
}

/// The data of the matrices of an adapter, each in the element type it is stored in.
pub open spec fn matrices_encoded<U: FloatUnit>(
    u: &U,
    target: DType,
    tensors: Seq<MatrixModel>,
    data: Seq<Vec<u8>>,
) -> bool {
    data.len() == tensors.len() && forall|i: int|
        0 <= i < tensors.len() ==> is_encoded(
            u,
            storage_dtype(target, product(tensors[i].shape)),
            tensors[i].values,
            #[trigger] data[i]@,
        )
}

/// `file` is the file of an adapter.
pub open spec fn is_adapter_file<U: FloatUnit>(
    u: &U,
    target: DType,
    adapter: LoraAdapter,
    file: Seq<u8>,
) -> bool {
    let tensors = adapter_tensors(adapter);
    exists|data: Seq<Vec<u8>>|
        {
            &&& #[trigger] matrices_encoded(u, target, tensors, data)
            &&& file == image_of(
                planned(adapter_entries(adapter), matrix_items(target, tensors)),
                some_data(data),
                tensors.len(),
            )
        }
}

/// Adds the matrices of one part to the tensors of a file.
fn add_part<U: FloatUnit>(
    part: &TextMap<Matrix>,
    target: DType,
    items: &mut Vec<TensorItem>,
    data: &mut Vec<Vec<u8>>,
    unit: &U,
    Ghost(before): Ghost<Seq<MatrixModel>>,
)
    requires
        part.wf(),
        matrices_sized(part@),
        items_model(old(items)@) == matrix_items(target, before),
        matrices_encoded(unit, target, before, old(data)@),
    ensures
        items_model(final(items)@) == matrix_items(target, before + part_tensors(*part)),
        matrices_encoded(unit, target, before + part_tensors(*part), final(data)@),
{
    let ghost all = part_tensors(*part);
    let mut i: usize = 0;
    assert(before + all.take(0) =~= before);
    while i < part.entries.len()
        invariant
            part.wf(),
            matrices_sized(part@),
            all == part_tensors(*part),
            i <= part.entries@.len() == all.len(),
            items_model(items@) == matrix_items(target, before + all.take(i as int)),
            matrices_encoded(unit, target, before + all.take(i as int), data@),
        decreases part.entries@.len() - i,
    {
        let m = &part.entries[i].1;
        let name = m.name.clone();
        let ghost done = before + all.take(i as int);
        let ghost more = before + all.take(i + 1);
        let ghost items0 = items@;
        let ghost data0 = data@;
        proof {
            lemma_lookup_at(part.entries@, i as int);
            assert(part@[part.entries@[i as int].0@]@.sized());
            assert(more =~= done.push(m@));
        }
        let n: usize = m.values.len();
        let dtype = crate::convert::effective_dtype(target, n);
        items.push(TensorItem { name, shape: copy_shape(m.shape.as_slice()), dtype });
        data.push(encode_values(m.values.as_slice(), dtype, unit));
        proof {
            assert(items0.len() == done.len()) by {
                assert(items_model(items0).len() == matrix_items(target, done).len());
            }
            assert forall|k: int| 0 <= k < more.len() implies #[trigger] items_model(items@)[k]
                == matrix_items(target, more)[k] by {
                if k < done.len() {
                    assert(items_model(items0)[k] == matrix_items(target, done)[k]);
                    assert(more[k] == done[k]);
                } else {
                    assert(more[k] == m@);
                }
            }
            assert(items_model(items@) =~= matrix_items(target, more));
            assert forall|k: int| 0 <= k < more.len() implies is_encoded(
                unit,
                storage_dtype(target, product(more[k].shape)),
                more[k].values,
                #[trigger] data@[k]@,
            ) by {
                if k < done.len() {
                    assert(data@[k] == data0[k]);
                    assert(more[k] == done[k]);
                }
            }
        }
        i = i + 1;
    }
    assert(all.take(i as int) =~= all);
}

/// Stores an adapter by itself, under the names of its matrices; `None` where it does not fit.
pub fn convert_lora_standalone<U: FloatUnit>(lora: &LoraAdapter, target_dtype: DType, unit: &U) -> (r: Option<
    Vec<u8>,
>)
    requires
        lora.wf(),
    ensures
        r is Some <==> plan_fits(
            adapter_entries(*lora),
            matrix_items(target_dtype, adapter_tensors(*lora)),
        ),
        r matches Some(file) ==> is_adapter_file(unit, target_dtype, *lora, file@) && forall|i: int|
            0 <= i < adapter_tensors(*lora).len() ==> holds_matrix(
                unit,
                target_dtype,
                file@,
                #[trigger] adapter_tensors(*lora)[i],
            ),
{
    let mut metas: Vec<MetaKV> = Vec::new();
    assert(metas_model(metas@) =~= Seq::<MetaModel>::empty());
    push_meta(&mut metas, "lora_rank", decimal(lora.r));
    let alpha: String = match &lora.lora_alpha.text {
        Some(t) => t.clone(),
        None => "".to_owned(),
    };
    push_meta(&mut metas, "lora_alpha", alpha);
    push_meta(&mut metas, "target_modules", join(lora.target_modules.as_slice(), ","));
    match &lora.base_model_name {
        Some(s) => {
            push_meta(&mut metas, "base_model", s.clone());
        },
        None => {},
    }
    assert(metas_model(metas@) =~= adapter_entries(*lora));
    let mut items: Vec<TensorItem> = Vec::new();
    let mut data: Vec<Vec<u8>> = Vec::new();
    let ghost none = Seq::<MatrixModel>::empty();
    assert(items_model(items@) =~= matrix_items(target_dtype, none));
    add_part(&lora.lora_a, target_dtype, &mut items, &mut data, unit, Ghost(none));
    let ghost first = part_tensors(lora.lora_a);
    assert(none + first =~= first);
    add_part(&lora.lora_b, target_dtype, &mut items, &mut data, unit, Ghost(first));
    let ghost tensors = adapter_tensors(*lora);
    let ghost models = items_model(items@);
    proof {
        if plan_fits(metas_model(metas@), models) {
            assert forall|k: int| 0 <= k < models.len() implies (#[trigger] some_data(
                data@,
            )[k] matches Some(d) && d.len() == models[k].data_len()) by {
                assert(models[k] == matrix_items(target_dtype, tensors)[k]);
                lemma_tensors_sized(*lora, k);
                assert(is_encoded(
                    unit,
                    storage_dtype(target_dtype, product(tensors[k].shape)),
                    tensors[k].values,
                    data@[k]@,
                ));
                crate::archive::law_encoded_len(
                    unit,
                    storage_dtype(target_dtype, product(tensors[k].shape)),
                    tensors[k].values,
                    data@[k]@,
                );
            }
            crate::writer::law_file_round_trip(metas_model(metas@), models, some_data(data@));
        }
    }
    match assemble(metas, &items, &data) {
        Ok(file) => {
            proof {
                assert(is_adapter_file(unit, target_dtype, *lora, file@));
                assert forall|i: int| 0 <= i < tensors.len() implies holds_matrix(
                    unit,
                    target_dtype,
                    file@,
                    #[trigger] tensors[i],
                ) by {
                    law_stored_adapter_reads_back(unit, target_dtype, *lora, file@, i);
                }
            }
            Some(file)
        },
        Err(_) => None,
    }
}

/// A file can be read, and the data of the tensor with a matrix's name is that matrix, in the element
/// type it is stored in.
pub open spec fn holds_matrix<U: FloatUnit>(
    u: &U,
    target: DType,
    file: Seq<u8>,
    m: MatrixModel,
) -> bool {
    let dtype = storage_dtype(target, product(m.shape));
    &&& manifest_of(file) is Ok
    &&& match tensor_data(file, manifest_of(file)->Ok_0.0.tensors, m.name) {
        Some((d, found)) => found == dtype && is_encoded(u, dtype, m.values, d),
        None => false,
    }
}

proof fn lemma_adapter_names(adapter: LoraAdapter, i: int, j: int)
    requires
        adapter.wf(),
        0 <= i < j < adapter_tensors(adapter).len(),
    ensures
        adapter_tensors(adapter)[i].name != adapter_tensors(adapter)[j].name,
{
    let a = adapter.lora_a.entries@;
    let b = adapter.lora_b.entries@;
    if i < a.len() {
        lemma_lookup_at(a, i);
        assert(is_part(adapter.lora_a@[a[i].0@]@.name, true));
    } else {
        lemma_lookup_at(b, i - a.len());
        assert(is_part(adapter.lora_b@[b[i - a.len()].0@]@.name, false));
    }
    if j < a.len() {
        lemma_lookup_at(a, j);
        assert(is_part(adapter.lora_a@[a[j].0@]@.name, true));
        law_text_order(a[i].0@, a[j].0@, a[j].0@);
    } else {
        lemma_lookup_at(b, j - a.len());
        assert(is_part(adapter.lora_b@[b[j - a.len()].0@]@.name, false));
        if i >= a.len() {
            law_text_order(b[i - a.len()].0@, b[j - a.len()].0@, b[j - a.len()].0@);
        }
    }
}

/// What a read gives back of a stored adapter: each matrix, under the name of the tensor that it was
/// read from.
pub proof fn law_stored_adapter_reads_back<U: FloatUnit>(
    u: &U,
    target: DType,
    adapter: LoraAdapter,
    file: Seq<u8>,
    i: int,
)
    requires
        adapter.wf(),
        is_adapter_file(u, target, adapter, file),
        plan_fits(adapter_entries(adapter), matrix_items(target, adapter_tensors(adapter))),
        0 <= i < adapter_tensors(adapter).len(),
    ensures
        holds_matrix(u, target, file, adapter_tensors(adapter)[i]),
{
    let tensors = adapter_tensors(adapter);
    let metas = adapter_entries(adapter);
    let items = matrix_items(target, tensors);
    let data = choose|data: Seq<Vec<u8>>|
        {
            &&& #[trigger] matrices_encoded(u, target, tensors, data)
            &&& file == image_of(planned(metas, items), some_data(data), tensors.len())
        };
    assert forall|k: int| 0 <= k < items.len() implies (#[trigger] some_data(data)[k] matches Some(d)
        && d.len() == items[k].data_len()) by {
        lemma_tensors_sized(adapter, k);
        assert(is_encoded(
            u,
            storage_dtype(target, product(tensors[k].shape)),
            tensors[k].values,
            data[k]@,
        ));
        crate::archive::law_encoded_len(
            u,
            storage_dtype(target, product(tensors[k].shape)),
            tensors[k].values,
            data[k]@,
        );
    }
    assert forall|j: int| 0 <= j < i implies (#[trigger] items[j]).name != items[i].name by {
        lemma_adapter_names(adapter, j, i);
    }
    law_tensor_round_trip(metas, items, some_data(data), i);
    assert(is_encoded(
        u,
        storage_dtype(target, product(tensors[i].shape)),
        tensors[i].values,
        data[i]@,
    ));
}

proof fn lemma_tensors_sized(adapter: LoraAdapter, i: int)
    requires
        adapter.wf(),
        0 <= i < adapter_tensors(adapter).len(),
    ensures
        adapter_tensors(adapter)[i].sized(),
{
    let a = adapter.lora_a.entries@;
    let b = adapter.lora_b.entries@;
    if i < a.len() {
        lemma_lookup_at(a, i);
        assert(adapter.lora_a@[a[i].0@]@.sized());
    } else {
        lemma_lookup_at(b, i - a.len());
        assert(adapter.lora_b@[b[i - a.len()].0@]@.sized());
    }
}

/// `after` can be the tensors of a model with an adapter merged into them.
pub open spec fn is_adapted_model<U: FloatUnit>(
    u: &U,
    adapter: LoraAdapter,
    scale: u32,
    before: Map<Seq<char>, SourceModel>,
    after: Map<Seq<char>, SourceModel>,
) -> bool {
    &&& forall|k: Seq<char>| #[trigger]
        after.contains_key(k) <==> before.contains_key(k) && before[k].dtype != SourceDType::Other
    &&& forall|k: Seq<char>| #[trigger]
        after.contains_key(k) ==> is_adapted_tensor(u, adapter, scale, k, before[k], after[k])
}

/// `file` is the file of a model with an adapter merged into it.
pub open spec fn is_adapted_file<U: FloatUnit>(
    u: &U,
    metas: Seq<MetaModel>,
    adapter: LoraAdapter,
    scale: u32,
    target: DType,
    col_major: bool,
    before: Map<Seq<char>, SourceModel>,
    file: Seq<u8>,
) -> bool {
    exists|after: Map<Seq<char>, SourceModel>|
        {
            &&& #[trigger] is_adapted_model(u, adapter, scale, before, after)
            &&& lists_sized(in_order(after), after)
            &&& plan_fits(metas, items_of(target, in_order(after)))
            &&& is_model_file(u, metas, target, col_major, in_order(after), file)
        }
}

/// Why a model could not be converted with an adapter.
#[derive(Debug)]
pub enum AdaptError {
    /// The model cannot be converted.
    Convert(ConvertError),
    /// The adapter's matrices for this tensor do not fit together.
    Adapter(String),
}

/// Converts a model with an adapter merged into it to a file. `config`, `tokenizer` and `files` are
/// those of the model.
pub fn convert_with_adapter<U: FloatUnit>(
    config: &str,
    tokenizer: Option<&str>,
    files: &Vec<Vec<u8>>,
    adapter: &LoraAdapter,
    scale: u32,
    target: DType,
    col_major: bool,
    unit: &U,
) -> (r: Result<Vec<u8>, AdaptError>)
    requires
        adapter.wf(),
    ensures
        ({
            let document = json_document(config@);
            let tok = match tokenizer {
                Some(t) => Some(t@),
                None => None,
            };
            let metas = model_entries(document->Ok_0, tok, col_major);
            let archives = merged(file_bytes(files@));
            match r {
                Ok(file) => document is Ok && files@.len() > 0 && archives is Some
                    && is_adapted_file(
                    unit,
                    metas,
                    *adapter,
                    scale,
                    target,
                    col_major,
                    archives->Some_0,
                    file@,
                ),
                Err(AdaptError::Convert(ConvertError::Config(e))) => document == Err::<
                    JsonModel,
                    Seq<char>,
                >(e@),
                Err(AdaptError::Convert(ConvertError::NoFiles)) => document is Ok && files@.len()
                    == 0,
                Err(AdaptError::Convert(ConvertError::Archive(i, _))) => document is Ok && i
                    < files@.len() && file_tensors(files@[i as int]@) is None && forall|k: int|
                    0 <= k < i ==> file_tensors((#[trigger] files@[k])@) is Some,
                Err(AdaptError::Adapter(k)) => document is Ok && files@.len() > 0
                    && archives is Some && archives->Some_0.contains_key(k@) && tensor_case(
                    *adapter,
                    k@,
                    archives->Some_0[k@].shape,
                ) == Some(MergeCase::Bad),
                Err(AdaptError::Convert(ConvertError::TooLarge)) => document is Ok && files@.len()
                    > 0 && archives is Some && exists|after: Map<Seq<char>, SourceModel>|
                    {
                        &&& #[trigger] is_adapted_model(
                            unit,
                            *adapter,
                            scale,
                            archives->Some_0,
                            after,
                        )
                        &&& !plan_fits(metas, items_of(target, in_order(after)))
                    },
            }
        }),
{
    let document = match parse_json(config) {
        Ok(d) => d,
        Err(e) => {
            return Err(AdaptError::Convert(ConvertError::Config(e)));
        },
    };
    if files.len() == 0 {
        return Err(AdaptError::Convert(ConvertError::NoFiles));
    }
    let tensors = match read_archives(files) {
        Ok(m) => m,
        Err((i, e)) => {
            return Err(AdaptError::Convert(ConvertError::Archive(i, e)));
        },
    };
    let adapted = match merge_lora_into_model(adapter, &tensors, scale, unit) {
        Ok(m) => m,
        Err(k) => {
            return Err(AdaptError::Adapter(k));
        },
    };
    proof {
        let before = contents(tensors@);
        let after = contents(adapted@);
        assert forall|k: Seq<char>| #[trigger]
            after.contains_key(k) <==> before.contains_key(k) && before[k].dtype
                != SourceDType::Other by {
            assert(adapted@.contains_key(k) <==> tensors@.contains_key(k) && tensors@[k]@.dtype
                != SourceDType::Other);
        }
        assert forall|k: Seq<char>| #[trigger] after.contains_key(k) implies is_adapted_tensor(
            unit,
            *adapter,
            scale,
            k,
            before[k],
            after[k],
        ) by {
            assert(adapted@.contains_key(k));
            assert(after[k] == adapted@[k]@);
        }
        assert(is_adapted_model(unit, *adapter, scale, before, after));
        lemma_lists_sized(adapted);
    }
    let metadata = model_metadata(&document, tokenizer, col_major);
    match build_file(metadata, &adapted, target, col_major, unit) {
        Some(file) => Ok(file),
        None => Err(AdaptError::Convert(ConvertError::TooLarge)),
    }
}

/// A name ends with the weight of a module.
pub open spec fn ends_with_weight_of(name: Seq<char>, module: Seq<char>) -> bool {
    let short = if has_prefix(name, "model."@) {
        name.skip("model."@.len() as int)
    } else {
        name
    };
    let tail = module + ".weight"@;
    short.len() >= tail.len() && short.skip(short.len() - tail.len()) == tail
}

proof fn lemma_first_module(
    keys: Seq<Seq<char>>,
    second: Map<Seq<char>, Matrix>,
    name: Seq<char>,
    m: int,
)
    requires
        0 <= m < keys.len(),
        second.contains_key(keys[m]),
        ends_with_weight_of(name, keys[m]),
        forall|j: int|
            0 <= j < m ==> !(second.contains_key(#[trigger] keys[j]) && ends_with_weight_of(
                name,
                keys[j],
            )),
    ensures
        merged_module(keys, second, name) == Some(m),
    decreases keys.len(),
{
    lemma_ending(name, keys.last());
    if m < keys.len() - 1 {
        let front = keys.drop_last();
        assert forall|j: int| 0 <= j < m implies !(second.contains_key(#[trigger] front[j])
            && ends_with_weight_of(name, front[j])) by {
            assert(front[j] == keys[j]);
        }
        lemma_first_module(front, second, name, m);
    } else {
        let front = keys.drop_last();
        assert forall|j: int| 0 <= j < front.len() implies !(second.contains_key(
            #[trigger] front[j],
        ) && ends_with_weight_of(name, front[j])) by {
            assert(front[j] == keys[j]);
        }
        lemma_no_module(front, second, name);
    }
}

proof fn lemma_no_module(keys: Seq<Seq<char>>, second: Map<Seq<char>, Matrix>, name: Seq<char>)
    requires
        forall|j: int|
            0 <= j < keys.len() ==> !(second.contains_key(#[trigger] keys[j])
                && ends_with_weight_of(name, keys[j])),
    ensures
        merged_module(keys, second, name) is None,
    decreases keys.len(),
{
    if keys.len() > 0 {
        let front = keys.drop_last();
        assert forall|j: int| 0 <= j < front.len() implies !(second.contains_key(
            #[trigger] front[j],
        ) && ends_with_weight_of(name, front[j])) by {
            assert(front[j] == keys[j]);
        }
        lemma_no_module(front, second, name);
        lemma_ending(name, keys.last());
        assert(keys[keys.len() - 1] == keys.last());
    }
}

proof fn lemma_ending(name: Seq<char>, module: Seq<char>)
    ensures
        has_suffix(without_prefix(name, "model."@), module + ".weight"@) == ends_with_weight_of(
            name,
            module,
        ),
{
    let short = without_prefix(name, "model."@);
    let tail = module + ".weight"@;
    if has_prefix(name, "model."@) {
        assert(short =~= name.skip("model."@.len() as int));
    }
    if short.len() >= tail.len() {
        assert(short.subrange(short.len() - tail.len(), short.len() as int) =~= short.skip(
            short.len() - tail.len(),
        ));
    }
}

/// An adapter is merged into the tensors of its modules and into no others: a tensor whose name ends with
/// the weight of no module that has both matrices stays as it was.
pub proof fn law_other_tensors_stay<U: FloatUnit>(
    u: &U,
    adapter: LoraAdapter,
    scale: u32,
    name: Seq<char>,
    shape: Seq<u64>,
    values: Seq<u32>,
    out: Seq<u32>,
)
    requires
        is_adapted(u, adapter, scale, name, shape, values, out),
        forall|j: int|
            0 <= j < adapter.lora_a.entries@.len() ==> !(adapter.lora_b@.contains_key(
                (#[trigger] adapter.lora_a.entries@[j]).0@,
            ) && ends_with_weight_of(name, adapter.lora_a.entries@[j].0@)),
    ensures
        out == values,
{
    let keys = modules(adapter.lora_a);
    assert forall|j: int| 0 <= j < keys.len() implies !(adapter.lora_b@.contains_key(
        #[trigger] keys[j],
    ) && ends_with_weight_of(name, keys[j])) by {
        assert(keys[j] == adapter.lora_a.entries@[j].0@);
    }
    lemma_no_module(keys, adapter.lora_b@, name);
}

/// Into the weight of a module its own two matrices are merged: where module `m` is the first whose weight a
/// name ends with, the element of row `o` and column `i` becomes, on whole numbers, the element plus the
/// scale times the sum of `B[o, k] * A[k, i]` over the rank of the module.
pub proof fn law_module_gets_its_own_matrices<U: FloatUnit>(
    u: &U,
    w: spec_fn(nat) -> u32,
    limit: nat,
    adapter: LoraAdapter,
    scale: nat,
    name: Seq<char>,
    base: Seq<nat>,
    out: Seq<u32>,
    m: int,
    a: Seq<nat>,
    b: Seq<nat>,
    r: int,
    inputs: int,
    outputs: int,
    o: int,
    i: int,
)
    requires
        counts(u, w, limit),
        0 <= m < adapter.lora_a.entries@.len(),
        adapter.lora_b@.contains_key(adapter.lora_a.entries@[m].0@),
        ends_with_weight_of(name, adapter.lora_a.entries@[m].0@),
        forall|j: int|
            0 <= j < m ==> !(adapter.lora_b@.contains_key(
                (#[trigger] adapter.lora_a.entries@[j]).0@,
            ) && ends_with_weight_of(name, adapter.lora_a.entries@[j].0@)),
        adapter.lora_a.entries@[m].1.values@ == patterns(w, a),
        adapter.lora_a.entries@[m].1.shape@.len() == 2,
        adapter.lora_a.entries@[m].1.shape@[0] == r,
        adapter.lora_a.entries@[m].1.shape@[1] == inputs,
        adapter.lora_b@[adapter.lora_a.entries@[m].0@].values@ == patterns(w, b),
        adapter.lora_b@[adapter.lora_a.entries@[m].0@].shape@.len() == 2,
        adapter.lora_b@[adapter.lora_a.entries@[m].0@].shape@[0] == outputs,
        adapter.lora_b@[adapter.lora_a.entries@[m].0@].shape@[1] == r,
        r <= usize::MAX && inputs <= usize::MAX && outputs <= usize::MAX,
        is_adapted(
            u,
            adapter,
            w(scale),
            name,
            seq![outputs as u64, inputs as u64],
            patterns(w, base),
            out,
        ),
        within(a, limit),
        within(b, limit),
        0 <= o < outputs,
        0 <= i < inputs,
        r * inputs <= a.len(),
        outputs * r <= b.len(),
        outputs * inputs <= base.len(),
        scale <= limit,
        sum_to(|k: int| b[o * r + k] * a[k * inputs + i], r) <= limit,
        base[o * inputs + i] + scale * sum_to(|k: int| b[o * r + k] * a[k * inputs + i], r) <= limit,
    ensures
        out[o * inputs + i] == w(
            base[o * inputs + i] + scale * sum_to(
                |k: int| b[o * r + k] * a[k * inputs + i],
                r,
            ),
        ),
{
    let keys = modules(adapter.lora_a);
    assert forall|j: int| 0 <= j < m implies !(adapter.lora_b@.contains_key(#[trigger] keys[j])
        && ends_with_weight_of(name, keys[j])) by {
        assert(keys[j] == adapter.lora_a.entries@[j].0@);
    }
    lemma_first_module(keys, adapter.lora_b@, name, m);
    let shape = seq![outputs as u64, inputs as u64];
    assert(shape.len() == 2 && shape[0] == outputs && shape[1] == inputs);
    let am = adapter.lora_a.entries@[m].1@;
    let bm = adapter.lora_b@[keys[m]]@;
    assert(merge_case(am, bm, shape) == MergeCase::Merge);
    law_merged_weight_is_the_product(
        u,
        w,
        limit,
        a,
        b,
        base,
        r,
        inputs,
        outputs,
        scale,
        out,
        o,
        i,
    );
}

/// The tensors of an adapter belong to the module that their name holds between "base_model.model." and
/// ".lora_A.weight" or ".lora_B.weight".
pub proof fn law_tensor_names_hold_their_module(module: Seq<char>)
    ensures
        module_of("base_model.model."@ + module + ".lora_A.weight"@) == module,
        module_of("base_model.model."@ + module + ".lora_B.weight"@) == module,
{
    reveal_strlit("base_model.model.");
    reveal_strlit(".lora_A.weight");
    reveal_strlit(".lora_B.weight");
    let p = "base_model.model."@;
    let a = ".lora_A.weight"@;
    let b = ".lora_B.weight"@;
    let x = p + module + a;
    let y = p + module + b;
    assert(x.subrange(0, p.len() as int) =~= p);
    assert(y.subrange(0, p.len() as int) =~= p);
    assert(x.subrange(p.len() as int, x.len() as int) =~= module + a);
    assert(y.subrange(p.len() as int, y.len() as int) =~= module + b);
    let xa = module + a;
    let yb = module + b;
    assert(xa.subrange(xa.len() - a.len(), xa.len() as int) =~= a);
    assert(yb.subrange(yb.len() - b.len(), yb.len() as int) =~= b);
    assert(!has_suffix(yb, a)) by {
        assert(yb.subrange(yb.len() - a.len(), yb.len() as int)[6] == b[6]);
        assert(a[6] == 'A' && b[6] == 'B');
    }
    assert(xa.subrange(0, xa.len() - a.len()) =~= module);
    assert(yb.subrange(0, yb.len() - b.len()) =~= module);
}

} // verus!
