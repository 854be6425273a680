//! Reading GGUF files and converting them to `.hypno` files.

use vstd::prelude::*;
use vstd::utf8::{decode_utf8, valid_utf8};
use crate::bytes::{copy_range, le_value, read_le};
use crate::bytes::{lemma_le_value_bound, lemma_pow256_values, pow256};
use crate::dtype::{block_count, DType};
use crate::float::{is_double_text, is_read_single, is_single_text, FloatUnit};
use crate::format::{checked_product, product, read_utf8};
use crate::archive::{encode_singles, is_encoded};
use crate::config::{is_config, meta_number, HypnoConfig, DEFAULT_EPS, DEFAULT_THETA};
use crate::convert::{entry, push_meta};
use crate::float::{bf16_to_f32, brain_single, is_scaled, is_sum, is_whole_part, is_wide};
use crate::format::{manifest_of, metas_model, MetaKV, MetaModel};
use crate::ggml::{
    block_bytes_of, block_size, block_values_of, dequantize_ggml_generic, is_block_type,
    is_block_value, values_in,
};
use crate::layout::{lemma_run_error, run_at};
use crate::order::{
    contents, entry_pairs, in_order, law_text_order, lemma_entries_in_order, lemma_in_order_of_list,
    lemma_order_behind_prefix, lemma_pairs_push, pairs_map, text_less, TextMap,
};
use crate::loader::{law_tensor_round_trip, meta_value, tensor_data};
use crate::quant::nibble_step;
use crate::text::{
    contains, decimal, decimal_digits, has_infix, has_prefix, join, joined, law_decimal_round_trip,
    same_text, strip_prefix, texts,
};
use crate::writer::{
    assemble, copy_shape, image_of, item_len, items_model, law_file_round_trip, lemma_data_has_room,
    plan_fits, planned, some_data, ItemModel, TensorItem,
};

verus! {

/// The first four bytes of a GGUF file, as a number: "GGUF".
pub const GGUF_MAGIC: u32 = 0x46554747;

/// What can be wrong with a GGUF file.
#[derive(Debug, Clone, Copy, PartialEq, Eq, Structural)]
pub enum GgufError {
    /// The file ends too early.
    UnexpectedEnd,
    /// A text is not UTF-8.
    Utf8,
    /// The file starts with another number than [`GGUF_MAGIC`].
    Magic(u32),
    /// The size of a tensor is too large.
    TensorTooLarge,
}

/// A single value of the metadata.
#[derive(Debug)]
pub enum GgufScalar {
    /// A whole number of a type without a sign.
    Whole(u64),
    /// A whole number of a type with a sign.
    Signed(i64),
    /// The pattern of a 32-bit floating-point value.
    Single(u32),
    /// The pattern of a 64-bit floating-point value.
    Double(u64),
    Flag(bool),
    Text(String),
    /// A value of a type that is not read.
    Unknown,
}

/// A value of the metadata.
#[derive(Debug)]
pub enum GgufValue {
    One(GgufScalar),
    List(Vec<GgufScalar>),
}

/// The mathematical content of a [`GgufScalar`].
pub enum ScalarModel {
    Whole(u64),
    Signed(i64),
    Single(u32),
    Double(u64),
    Flag(bool),
    Text(Seq<char>),
    Unknown,
}

/// The mathematical content of a [`GgufValue`].
pub enum ValueModel {
    One(ScalarModel),
    List(Seq<ScalarModel>),
}

impl View for GgufScalar {
    type V = ScalarModel;

    open spec fn view(&self) -> ScalarModel {
        match *self {
            GgufScalar::Whole(n) => ScalarModel::Whole(n),
            GgufScalar::Signed(n) => ScalarModel::Signed(n),
            GgufScalar::Single(b) => ScalarModel::Single(b),
            GgufScalar::Double(b) => ScalarModel::Double(b),
            GgufScalar::Flag(b) => ScalarModel::Flag(b),
            GgufScalar::Text(s) => ScalarModel::Text(s@),
            GgufScalar::Unknown => ScalarModel::Unknown,
        }
    }
}

/// The contents of a list of values.
pub open spec fn scalars_model(v: Seq<GgufScalar>) -> Seq<ScalarModel> {
    Seq::new(v.len(), |i: int| v[i]@)
}

impl View for GgufValue {
    type V = ValueModel;

    open spec fn view(&self) -> ValueModel {
        match *self {
            GgufValue::One(s) => ValueModel::One(s@),
            GgufValue::List(v) => ValueModel::List(scalars_model(v@)),
        }
    }
}

/// A tensor of a GGUF file.
#[derive(Debug)]
pub struct GgufTensorInfo {
    pub name: String,
    pub dims: Vec<u64>,
    pub ggml_type: u32,
    /// Where the data starts in the file.
    pub offset: u64,
    /// Bytes of the data.
    pub data_len: u64,
}

/// The mathematical content of a [`GgufTensorInfo`].
pub struct InfoModel {
    pub name: Seq<char>,
    pub dims: Seq<u64>,
    pub ggml_type: u32,
    pub offset: u64,
    pub data_len: u64,
}

impl View for GgufTensorInfo {
    type V = InfoModel;

    open spec fn view(&self) -> InfoModel {
        InfoModel {
            name: self.name@,
            dims: self.dims@,
            ggml_type: self.ggml_type,
            offset: self.offset,
            data_len: self.data_len,
        }
    }
}

/// How many blocks of `size` hold `n` values.
pub open spec fn blocks_of(size: nat, n: nat) -> nat {
    (n / size + if n % size == 0 {
        0nat
    } else {
        1nat
    }) as nat
}

/// Bytes of `n` elements of a tensor type: 32-bit and 16-bit ones, blocks of 32 for types 2 (18
/// bytes), 3 (20) and 8 (34), the blocks of the other block types, and 4 bytes per element for all
/// types that are not known.
pub open spec fn ggml_len(ggml_type: u32, n: nat) -> nat {
    if ggml_type == 1 {
        n * 2
    } else if ggml_type == 2 {
        block_count(n) * 18
    } else if ggml_type == 3 {
        block_count(n) * 20
    } else if ggml_type == 8 {
        block_count(n) * 34
    } else if is_block_type(ggml_type) {
        blocks_of(block_values_of(ggml_type), n) * block_bytes_of(ggml_type)
    } else if ggml_type == 17 {
        n * 2
    } else {
        n * 4
    }
}

/// The element type that a tensor type is the same as, if there is one.
pub open spec fn direct_dtype(ggml_type: u32) -> Option<DType> {
    if ggml_type == 0 {
        Some(DType::FP32)
    } else if ggml_type == 1 {
        Some(DType::FP16)
    } else if ggml_type == 2 {
        Some(DType::Q4_0)
    } else if ggml_type == 8 {
        Some(DType::Q8_0)
    } else {
        None
    }
}

/// The element type that a tensor type is the same as, if there is one.
pub fn ggml_to_hypno_dtype(ggml_type: u32) -> (r: Option<DType>)
    ensures
        r == direct_dtype(ggml_type),
{
    match ggml_type {
        0 => Some(DType::FP32),
        1 => Some(DType::FP16),
        2 => Some(DType::Q4_0),
        8 => Some(DType::Q8_0),
        _ => None,
    }
}

/// A tensor type that is the same as an element type takes as many bytes.
pub proof fn law_direct_types_have_one_layout(ggml_type: u32, n: nat)
    requires
        direct_dtype(ggml_type) is Some,
    ensures
        ggml_len(ggml_type, n) == direct_dtype(ggml_type)->Some_0.stored_len(n),
{
}

/// Bytes of `n` elements of a tensor type, or `None` where there are too many.
fn checked_ggml_len(ggml_type: u32, n: u64) -> (r: Option<u64>)
    ensures
        r == if ggml_len(ggml_type, n as nat) <= u64::MAX {
            Some(ggml_len(ggml_type, n as nat) as u64)
        } else {
            None
        },
{
    let blocks: u64 = if n % 32 == 0 {
        n / 32
    } else {
        n / 32 + 1
    };
    match ggml_type {
        1 => n.checked_mul(2),
        2 => blocks.checked_mul(18),
        3 => blocks.checked_mul(20),
        8 => blocks.checked_mul(34),
        6 | 7 | 9 | 10 | 11 | 12 | 13 | 14 => {
            let (values, bytes) = block_size(ggml_type);
            let whole: u64 = n / values as u64;
            assert(whole < u64::MAX) by {
                if values == 32 {
                    assert(whole == n / 32);
                } else {
                    assert(values == 256);
                    assert(whole == n / 256);
                }
            }
            let count: u64 = if n % values as u64 == 0 {
                whole
            } else {
                whole + 1
            };
            count.checked_mul(bytes as u64)
        },
        17 => n.checked_mul(2),
        _ => n.checked_mul(4),
    }
}

/// Reads the `n` bytes of a number at `p`.
pub open spec fn num_at(d: Seq<u8>, p: int, n: nat) -> Result<(nat, int), GgufError> {
    if p + n > d.len() {
        Err(GgufError::UnexpectedEnd)
    } else {
        Ok((le_value(d.subrange(p, p + n)), p + n))
    }
}

/// Reads a text at `p`: a 64-bit length, then that many bytes of UTF-8.
pub open spec fn string_at(d: Seq<u8>, p: int) -> Result<(Seq<char>, int), GgufError> {
    match num_at(d, p, 8) {
        Err(e) => Err(e),
        Ok((n, q)) => if q + n > d.len() {
            Err(GgufError::UnexpectedEnd)
        } else if !valid_utf8(d.subrange(q, q + n)) {
            Err(GgufError::Utf8)
        } else {
            Ok((decode_utf8(d.subrange(q, q + n)), q + n))
        },
    }
}

/// The number with a sign whose `n` bytes are those of `v`.
pub open spec fn with_sign(v: nat, n: nat) -> int {
    if 2 * v < pow256(n) {
        v as int
    } else {
        v - pow256(n)
    }
}

/// Reads a whole number with a sign, of `n` bytes, at `p`.
pub open spec fn signed_at(d: Seq<u8>, p: int, n: nat) -> Result<(ScalarModel, int), GgufError> {
    match num_at(d, p, n) {
        Err(e) => Err(e),
        Ok((v, q)) => Ok((ScalarModel::Signed(with_sign(v, n) as i64), q)),
    }
}

/// Reads a whole number of `n` bytes at `p`.
pub open spec fn whole_at(d: Seq<u8>, p: int, n: nat) -> Result<(ScalarModel, int), GgufError> {
    match num_at(d, p, n) {
        Err(e) => Err(e),
        Ok((v, q)) => Ok((ScalarModel::Whole(v as u64), q)),
    }
}

/// Reads the pattern of a 32-bit floating-point value at `p`.
pub open spec fn single_at(d: Seq<u8>, p: int) -> Result<(ScalarModel, int), GgufError> {
    match num_at(d, p, 4) {
        Err(e) => Err(e),
        Ok((v, q)) => Ok((ScalarModel::Single(v as u32), q)),
    }
}

/// Reads a text at `p` as a value.
pub open spec fn text_value_at(d: Seq<u8>, p: int) -> Result<(ScalarModel, int), GgufError> {
    match string_at(d, p) {
        Err(e) => Err(e),
        Ok((s, q)) => Ok((ScalarModel::Text(s), q)),
    }
}

/// Reads an element of a list at `p`: the number of its type, then the value. Types that lists
/// are not read with take no bytes.
pub open spec fn element_at(d: Seq<u8>, p: int) -> Result<(ScalarModel, int), GgufError> {
    match num_at(d, p, 4) {
        Err(e) => Err(e),
        Ok((t, q)) => if t == 0 {
            whole_at(d, q, 1)
        } else if t == 1 {
            signed_at(d, q, 1)
        } else if t == 4 {
            whole_at(d, q, 4)
        } else if t == 5 {
            signed_at(d, q, 4)
        } else if t == 6 {
            single_at(d, q)
        } else if t == 8 {
            text_value_at(d, q)
        } else {
            Ok((ScalarModel::Unknown, q))
        },
    }
}

/// The reader of elements of lists of `d`.
pub open spec fn element_reader(d: Seq<u8>) -> spec_fn(int) -> Result<
    (ScalarModel, int),
    GgufError,
> {
    |p: int| element_at(d, p)
}

/// Reads a single value of the type `t` at `p`. Types that are not known take no bytes.
pub open spec fn scalar_at(d: Seq<u8>, p: int, t: nat) -> Result<(ScalarModel, int), GgufError> {
    if t == 0 {
        whole_at(d, p, 1)
    } else if t == 1 {
        signed_at(d, p, 1)
    } else if t == 2 {
        whole_at(d, p, 2)
    } else if t == 3 {
        signed_at(d, p, 2)
    } else if t == 4 {
        whole_at(d, p, 4)
    } else if t == 5 {
        signed_at(d, p, 4)
    } else if t == 6 {
        single_at(d, p)
    } else if t == 7 {
        match num_at(d, p, 1) {
            Err(e) => Err(e),
            Ok((v, q)) => Ok((ScalarModel::Flag(v != 0), q)),
        }
    } else if t == 8 {
        text_value_at(d, p)
    } else if t == 10 {
        whole_at(d, p, 8)
    } else if t == 11 {
        signed_at(d, p, 8)
    } else if t == 12 {
        match num_at(d, p, 8) {
            Err(e) => Err(e),
            Ok((v, q)) => Ok((ScalarModel::Double(v as u64), q)),
        }
    } else {
        Ok((ScalarModel::Unknown, p))
    }
}

/// Reads a list at `p`: the number of the elements' type, their count, then the elements.
pub open spec fn list_at(d: Seq<u8>, p: int) -> Result<(ValueModel, int), GgufError> {
    match num_at(d, p, 4) {
        Err(e) => Err(e),
        Ok((_, q)) => match num_at(d, q, 8) {
            Err(e) => Err(e),
            Ok((n, r)) => match run_at(element_reader(d), r, n) {
                Err(e) => Err(e),
                Ok((items, s)) => Ok((ValueModel::List(items), s)),
            },
        },
    }
}

/// Reads a value at `p`: the number of its type, then the value.
pub open spec fn value_at(d: Seq<u8>, p: int) -> Result<(ValueModel, int), GgufError> {
    match num_at(d, p, 4) {
        Err(e) => Err(e),
        Ok((t, q)) => if t == 9 {
            list_at(d, q)
        } else {
            match scalar_at(d, q, t) {
                Err(e) => Err(e),
                Ok((v, r)) => Ok((ValueModel::One(v), r)),
            }
        },
    }
}

/// Reads a metadata entry at `p`.
pub open spec fn entry_at(d: Seq<u8>, p: int) -> Result<
    ((Seq<char>, ValueModel), int),
    GgufError,
> {
    match string_at(d, p) {
        Err(e) => Err(e),
        Ok((key, q)) => match value_at(d, q) {
            Err(e) => Err(e),
            Ok((v, r)) => Ok(((key, v), r)),
        },
    }
}

/// The reader of metadata entries of `d`.
pub open spec fn entry_reader(d: Seq<u8>) -> spec_fn(int) -> Result<
    ((Seq<char>, ValueModel), int),
    GgufError,
> {
    |p: int| entry_at(d, p)
}

/// The reader of dimensions of `d`.
pub open spec fn gguf_dim_reader(d: Seq<u8>) -> spec_fn(int) -> Result<(u64, int), GgufError> {
    |p: int|
        match num_at(d, p, 8) {
            Err(e) => Err(e),
            Ok((v, q)) => Ok((v as u64, q)),
        }
}

/// Reads the part of a tensor's entry behind the dimensions: type and offset.
pub open spec fn info_tail_at(d: Seq<u8>, p: int, name: Seq<char>, dims: Seq<u64>) -> Result<
    (InfoModel, int),
    GgufError,
> {
    match num_at(d, p, 4) {
        Err(e) => Err(e),
        Ok((t, q)) => match num_at(d, q, 8) {
            Err(e) => Err(e),
            Ok((offset, r)) => if product(dims) > u64::MAX || ggml_len(t as u32, product(dims))
                > u64::MAX {
                Err(GgufError::TensorTooLarge)
            } else {
                Ok(
                    (
                        InfoModel {
                            name,
                            dims,
                            ggml_type: t as u32,
                            offset: offset as u64,
                            data_len: ggml_len(t as u32, product(dims)) as u64,
                        },
                        r,
                    ),
                )
            },
        },
    }
}

/// Reads a tensor's entry at `p`.
pub open spec fn info_at(d: Seq<u8>, p: int) -> Result<(InfoModel, int), GgufError> {
    match string_at(d, p) {
        Err(e) => Err(e),
        Ok((name, q)) => match num_at(d, q, 4) {
            Err(e) => Err(e),
            Ok((n, r)) => match run_at(gguf_dim_reader(d), r, n) {
                Err(e) => Err(e),
                Ok((dims, s)) => info_tail_at(d, s, name, dims),
            },
        },
    }
}

/// The reader of tensors' entries of `d`.
pub open spec fn info_reader(d: Seq<u8>) -> spec_fn(int) -> Result<(InfoModel, int), GgufError> {
    |p: int| info_at(d, p)
}

/// The mathematical content of a GGUF file before its data.
pub struct GgufModel {
    pub version: u32,
    /// The metadata entries in their order in the file.
    pub entries: Seq<(Seq<char>, ValueModel)>,
    pub tensors: Seq<InfoModel>,
}

/// Reads a GGUF file.
pub open spec fn gguf_of(d: Seq<u8>) -> Result<GgufModel, GgufError> {
    match num_at(d, 0, 4) {
        Err(e) => Err(e),
        Ok((magic, _)) => if magic != GGUF_MAGIC {
            Err(GgufError::Magic(magic as u32))
        } else {
            match num_at(d, 4, 4) {
                Err(e) => Err(e),
                Ok((version, _)) => match num_at(d, 8, 8) {
                    Err(e) => Err(e),
                    Ok((tensors, _)) => match num_at(d, 16, 8) {
                        Err(e) => Err(e),
                        Ok((metas, _)) => match run_at(entry_reader(d), 24, metas) {
                            Err(e) => Err(e),
                            Ok((entries, p)) => match run_at(info_reader(d), p, tensors) {
                                Err(e) => Err(e),
                                Ok((infos, _)) => Ok(
                                    GgufModel {
                                        version: version as u32,
                                        entries,
                                        tensors: infos,
                                    },
                                ),
                            },
                        },
                    },
                },
            }
        },
    }
}

fn read_num(data: &[u8], at: usize, width: usize) -> (r: Result<(u64, usize), GgufError>)
    requires
        at <= data@.len(),
        width <= 8,
    ensures
        match r {
            Ok(x) => num_at(data@, at as int, width as nat) == Ok::<(nat, int), GgufError>(
                (x.0 as nat, x.1 as int),
            ) && at + width == x.1 <= data@.len() && x.0 < crate::bytes::pow256(width as nat),
            Err(e) => num_at(data@, at as int, width as nat) == Err::<(nat, int), GgufError>(e),
        },
{
    if data.len() - at < width {
        return Err(GgufError::UnexpectedEnd);
    }
    proof {
        lemma_le_value_bound(data@.subrange(at as int, at + width));
    }
    Ok((read_le(data, at, width), at + width))
}

/// Reads a text.
pub fn read_gguf_string(data: &[u8], at: usize) -> (r: Result<(String, usize), GgufError>)
    requires
        at <= data@.len(),
    ensures
        match r {
            Ok(x) => string_at(data@, at as int) == Ok::<(Seq<char>, int), GgufError>(
                (x.0@, x.1 as int),
            ) && at <= x.1 <= data@.len(),
            Err(e) => string_at(data@, at as int) == Err::<(Seq<char>, int), GgufError>(e),
        },
{
    let (len, start) = match read_num(data, at, 8) {
        Ok(x) => x,
        Err(e) => {
            return Err(e);
        },
    };
    if len as u128 > (data.len() - start) as u128 {
        return Err(GgufError::UnexpectedEnd);
    }
    let n: usize = len as usize;
    match read_utf8(vstd::slice::slice_subrange(data, start, start + n)) {
        Ok(s) => Ok((s.to_owned(), start + n)),
        Err(_) => Err(GgufError::Utf8),
    }
}

fn read_whole(data: &[u8], at: usize, width: usize) -> (r: Result<(GgufScalar, usize), GgufError>)
    requires
        at <= data@.len(),
        width <= 8,
    ensures
        match r {
            Ok(x) => whole_at(data@, at as int, width as nat) == Ok::<
                (ScalarModel, int),
                GgufError,
            >((x.0@, x.1 as int)) && at <= x.1 <= data@.len(),
            Err(e) => whole_at(data@, at as int, width as nat) == Err::<
                (ScalarModel, int),
                GgufError,
            >(e),
        },
{
    match read_num(data, at, width) {
        Ok((v, next)) => Ok((GgufScalar::Whole(v), next)),
        Err(e) => Err(e),
    }
}

fn read_signed(data: &[u8], at: usize, width: usize) -> (r: Result<(GgufScalar, usize), GgufError>)
    requires
        at <= data@.len(),
        width == 1 || width == 2 || width == 4 || width == 8,
    ensures
        match r {
            Ok(x) => signed_at(data@, at as int, width as nat) == Ok::<
                (ScalarModel, int),
                GgufError,
            >((x.0@, x.1 as int)) && at <= x.1 <= data@.len(),
            Err(e) => signed_at(data@, at as int, width as nat) == Err::<
                (ScalarModel, int),
                GgufError,
            >(e),
        },
{
    proof {
        lemma_pow256_values();
    }
    let all: i128 = match width {
        1 => 0x100,
        2 => 0x1_0000,
        4 => 0x1_0000_0000,
        _ => 0x1_0000_0000_0000_0000,
    };
    match read_num(data, at, width) {
        Ok((v, next)) => {
            let n: i128 = if 2 * (v as i128) < all {
                v as i128
            } else {
                v as i128 - all
            };
            Ok((GgufScalar::Signed(n as i64), next))
        },
        Err(e) => Err(e),
    }
}

fn read_single(data: &[u8], at: usize) -> (r: Result<(GgufScalar, usize), GgufError>)
    requires
        at <= data@.len(),
    ensures
        match r {
            Ok(x) => single_at(data@, at as int) == Ok::<(ScalarModel, int), GgufError>(
                (x.0@, x.1 as int),
            ) && at <= x.1 <= data@.len(),
            Err(e) => single_at(data@, at as int) == Err::<(ScalarModel, int), GgufError>(e),
        },
{
    proof {
        lemma_pow256_values();
    }
    match read_num(data, at, 4) {
        Ok((v, next)) => Ok((GgufScalar::Single(v as u32), next)),
        Err(e) => Err(e),
    }
}

fn read_text_value(data: &[u8], at: usize) -> (r: Result<(GgufScalar, usize), GgufError>)
    requires
        at <= data@.len(),
    ensures
        match r {
            Ok(x) => text_value_at(data@, at as int) == Ok::<(ScalarModel, int), GgufError>(
                (x.0@, x.1 as int),
            ) && at <= x.1 <= data@.len(),
            Err(e) => text_value_at(data@, at as int) == Err::<(ScalarModel, int), GgufError>(e),
        },
{
    match read_gguf_string(data, at) {
        Ok((s, next)) => Ok((GgufScalar::Text(s), next)),
        Err(e) => Err(e),
    }
}

/// Reads an element of a list.
pub fn read_gguf_primitive(data: &[u8], at: usize) -> (r: Result<(GgufScalar, usize), GgufError>)
    requires
        at <= data@.len(),
    ensures
        match r {
            Ok(x) => element_at(data@, at as int) == Ok::<(ScalarModel, int), GgufError>(
                (x.0@, x.1 as int),
            ) && at < x.1 <= data@.len(),
            Err(e) => element_at(data@, at as int) == Err::<(ScalarModel, int), GgufError>(e),
        },
{
    let (t, next) = match read_num(data, at, 4) {
        Ok(x) => x,
        Err(e) => {
            return Err(e);
        },
    };
    if t == 0 {
        read_whole(data, next, 1)
    } else if t == 1 {
        read_signed(data, next, 1)
    } else if t == 4 {
        read_whole(data, next, 4)
    } else if t == 5 {
        read_signed(data, next, 4)
    } else if t == 6 {
        read_single(data, next)
    } else if t == 8 {
        read_text_value(data, next)
    } else {
        Ok((GgufScalar::Unknown, next))
    }
}

fn read_scalar(data: &[u8], at: usize, t: u64) -> (r: Result<(GgufScalar, usize), GgufError>)
    requires
        at <= data@.len(),
    ensures
        match r {
            Ok(x) => scalar_at(data@, at as int, t as nat) == Ok::<(ScalarModel, int), GgufError>(
                (x.0@, x.1 as int),
            ) && at <= x.1 <= data@.len(),
            Err(e) => scalar_at(data@, at as int, t as nat) == Err::<(ScalarModel, int), GgufError>(
                e,
            ),
        },
{
    if t == 0 {
        read_whole(data, at, 1)
    } else if t == 1 {
        read_signed(data, at, 1)
    } else if t == 2 {
        read_whole(data, at, 2)
    } else if t == 3 {
        read_signed(data, at, 2)
    } else if t == 4 {
        read_whole(data, at, 4)
    } else if t == 5 {
        read_signed(data, at, 4)
    } else if t == 6 {
        read_single(data, at)
    } else if t == 7 {
        match read_num(data, at, 1) {
            Ok((v, next)) => Ok((GgufScalar::Flag(v != 0), next)),
            Err(e) => Err(e),
        }
    } else if t == 8 {
        read_text_value(data, at)
    } else if t == 10 {
        read_whole(data, at, 8)
    } else if t == 11 {
        read_signed(data, at, 8)
    } else if t == 12 {
        match read_num(data, at, 8) {
            Ok((v, next)) => Ok((GgufScalar::Double(v), next)),
            Err(e) => Err(e),
        }
    } else {
        Ok((GgufScalar::Unknown, at))
    }
}

fn read_list(data: &[u8], at: usize) -> (r: Result<(GgufValue, usize), GgufError>)
    requires
        at <= data@.len(),
    ensures
        match r {
            Ok(x) => list_at(data@, at as int) == Ok::<(ValueModel, int), GgufError>(
                (x.0@, x.1 as int),
            ) && at <= x.1 <= data@.len(),
            Err(e) => list_at(data@, at as int) == Err::<(ValueModel, int), GgufError>(e),
        },
{
    let (_, at2) = match read_num(data, at, 4) {
        Ok(x) => x,
        Err(e) => {
            return Err(e);
        },
    };
    let (count, start) = match read_num(data, at2, 8) {
        Ok(x) => x,
        Err(e) => {
            return Err(e);
        },
    };
    let mut items: Vec<GgufScalar> = Vec::new();
    let mut next: usize = start;
    let mut i: u64 = 0;
    assert(scalars_model(items@) =~= Seq::<ScalarModel>::empty());
    while i < count
        invariant
            i <= count,
            at <= start <= next <= data@.len(),
            num_at(data@, at as int, 4) is Ok,
            num_at(data@, num_at(data@, at as int, 4)->Ok_0.1, 8) == Ok::<(nat, int), GgufError>(
                (count as nat, start as int),
            ),
            run_at(element_reader(data@), start as int, i as nat) == Ok::<
                (Seq<ScalarModel>, int),
                GgufError,
            >((scalars_model(items@), next as int)),
        decreases count - i,
    {
        let ghost before = items@;
        match read_gguf_primitive(data, next) {
            Ok((v, q)) => {
                items.push(v);
                next = q;
                assert(scalars_model(items@) =~= scalars_model(before).push(v@));
            },
            Err(e) => {
                proof {
                    let f = element_reader(data@);
                    assert(run_at(f, start as int, (i + 1) as nat) is Err);
                    lemma_run_error(f, start as int, (i + 1) as nat, count as nat);
                }
                return Err(e);
            },
        }
        i = i + 1;
    }
    Ok((GgufValue::List(items), next))
}

/// Reads a value.
pub fn read_gguf_value(data: &[u8], at: usize) -> (r: Result<(GgufValue, usize), GgufError>)
    requires
        at <= data@.len(),
    ensures
        match r {
            Ok(x) => value_at(data@, at as int) == Ok::<(ValueModel, int), GgufError>(
                (x.0@, x.1 as int),
            ) && at <= x.1 <= data@.len(),
            Err(e) => value_at(data@, at as int) == Err::<(ValueModel, int), GgufError>(e),
        },
{
    let (t, next) = match read_num(data, at, 4) {
        Ok(x) => x,
        Err(e) => {
            return Err(e);
        },
    };
    if t == 9 {
        read_list(data, next)
    } else {
        match read_scalar(data, next, t) {
            Ok((v, q)) => Ok((GgufValue::One(v), q)),
            Err(e) => Err(e),
        }
    }
}

fn read_dims(data: &[u8], at: usize, count: u64) -> (r: Result<(Vec<u64>, usize), GgufError>)
    requires
        at <= data@.len(),
    ensures
        match r {
            Ok(x) => run_at(gguf_dim_reader(data@), at as int, count as nat) == Ok::<
                (Seq<u64>, int),
                GgufError,
            >((x.0@, x.1 as int)) && at <= x.1 <= data@.len(),
            Err(e) => run_at(gguf_dim_reader(data@), at as int, count as nat) == Err::<
                (Seq<u64>, int),
                GgufError,
            >(e),
        },
{
    let mut dims: Vec<u64> = Vec::new();
    let mut next: usize = at;
    let mut i: u64 = 0;
    while i < count
        invariant
            i <= count,
            at <= next <= data@.len(),
            run_at(gguf_dim_reader(data@), at as int, i as nat) == Ok::<
                (Seq<u64>, int),
                GgufError,
            >((dims@, next as int)),
        decreases count - i,
    {
        match read_num(data, next, 8) {
            Ok((v, q)) => {
                dims.push(v);
                next = q;
            },
            Err(e) => {
                proof {
                    let f = gguf_dim_reader(data@);
                    assert(run_at(f, at as int, (i + 1) as nat) is Err);
                    lemma_run_error(f, at as int, (i + 1) as nat, count as nat);
                }
                return Err(e);
            },
        }
        i = i + 1;
    }
    Ok((dims, next))
}

fn read_info(data: &[u8], at: usize) -> (r: Result<(GgufTensorInfo, usize), GgufError>)
    requires
        at <= data@.len(),
    ensures
        match r {
            Ok(x) => info_at(data@, at as int) == Ok::<(InfoModel, int), GgufError>(
                (x.0@, x.1 as int),
            ) && at <= x.1 <= data@.len(),
            Err(e) => info_at(data@, at as int) == Err::<(InfoModel, int), GgufError>(e),
        },
{
    let (name, at1) = match read_gguf_string(data, at) {
        Ok(x) => x,
        Err(e) => {
            return Err(e);
        },
    };
    let (count, at2) = match read_num(data, at1, 4) {
        Ok(x) => x,
        Err(e) => {
            return Err(e);
        },
    };
    let (dims, at3) = match read_dims(data, at2, count) {
        Ok(x) => x,
        Err(e) => {
            return Err(e);
        },
    };
    proof {
        lemma_pow256_values();
    }
    let (t, at4) = match read_num(data, at3, 4) {
        Ok(x) => x,
        Err(e) => {
            return Err(e);
        },
    };
    let (offset, at5) = match read_num(data, at4, 8) {
        Ok(x) => x,
        Err(e) => {
            return Err(e);
        },
    };
    let ggml_type: u32 = t as u32;
    let elements: u64 = match checked_product(dims.as_slice()) {
        Some(n) => n,
        None => {
            return Err(GgufError::TensorTooLarge);
        },
    };
    match checked_ggml_len(ggml_type, elements) {
        Some(data_len) => Ok((GgufTensorInfo { name, dims, ggml_type, offset, data_len }, at5)),
        None => Err(GgufError::TensorTooLarge),
    }
}

/// What a GGUF file holds before its data.
pub struct GgufFile {
    pub version: u32,
    /// The metadata entries in their order in the file.
    pub entries: Vec<(String, GgufValue)>,
    pub tensors: Vec<GgufTensorInfo>,
}

/// The contents of metadata entries.
pub open spec fn entries_model(v: Seq<(String, GgufValue)>) -> Seq<(Seq<char>, ValueModel)> {
    Seq::new(v.len(), |i: int| (v[i].0@, v[i].1@))
}

/// The contents of tensors' entries.
pub open spec fn infos_model(v: Seq<GgufTensorInfo>) -> Seq<InfoModel> {
    Seq::new(v.len(), |i: int| v[i]@)
}

impl View for GgufFile {
    type V = GgufModel;

    open spec fn view(&self) -> GgufModel {
        GgufModel {
            version: self.version,
            entries: entries_model(self.entries@),
            tensors: infos_model(self.tensors@),
        }
    }
}

fn read_entries(data: &[u8], at: usize, count: u64) -> (r: Result<
    (Vec<(String, GgufValue)>, usize),
    GgufError,
>)
    requires
        at <= data@.len(),
    ensures
        match r {
            Ok(x) => run_at(entry_reader(data@), at as int, count as nat) == Ok::<
                (Seq<(Seq<char>, ValueModel)>, int),
                GgufError,
            >((entries_model(x.0@), x.1 as int)) && at <= x.1 <= data@.len(),
            Err(e) => run_at(entry_reader(data@), at as int, count as nat) == Err::<
                (Seq<(Seq<char>, ValueModel)>, int),
                GgufError,
            >(e),
        },
{
    let mut entries: Vec<(String, GgufValue)> = Vec::new();
    let mut next: usize = at;
    let mut i: u64 = 0;
    assert(entries_model(entries@) =~= Seq::<(Seq<char>, ValueModel)>::empty());
    while i < count
        invariant
            i <= count,
            at <= next <= data@.len(),
            run_at(entry_reader(data@), at as int, i as nat) == Ok::<
                (Seq<(Seq<char>, ValueModel)>, int),
                GgufError,
            >((entries_model(entries@), next as int)),
        decreases count - i,
    {
        let ghost before = entries@;
        let ghost f = entry_reader(data@);
        match read_gguf_string(data, next) {
            Ok((key, middle)) => match read_gguf_value(data, middle) {
                Ok((value, q)) => {
                    entries.push((key, value));
                    next = q;
                    assert(entries_model(entries@) =~= entries_model(before).push(
                        (key@, value@),
                    ));
                },
                Err(e) => {
                    proof {
                        assert(run_at(f, at as int, (i + 1) as nat) is Err);
                        lemma_run_error(f, at as int, (i + 1) as nat, count as nat);
                    }
                    return Err(e);
                },
            },
            Err(e) => {
                proof {
                    assert(run_at(f, at as int, (i + 1) as nat) is Err);
                    lemma_run_error(f, at as int, (i + 1) as nat, count as nat);
                }
                return Err(e);
            },
        }
        i = i + 1;
    }
    Ok((entries, next))
}

fn read_infos(data: &[u8], at: usize, count: u64) -> (r: Result<Vec<GgufTensorInfo>, GgufError>)
    requires
        at <= data@.len(),
    ensures
        match r {
            Ok(x) => run_at(info_reader(data@), at as int, count as nat) is Ok && run_at(
                info_reader(data@),
                at as int,
                count as nat,
            )->Ok_0.0 == infos_model(x@),
            Err(e) => run_at(info_reader(data@), at as int, count as nat) == Err::<
                (Seq<InfoModel>, int),
                GgufError,
            >(e),
        },
{
    let mut infos: Vec<GgufTensorInfo> = Vec::new();
    let mut next: usize = at;
    let mut i: u64 = 0;
    assert(infos_model(infos@) =~= Seq::<InfoModel>::empty());
    while i < count
        invariant
            i <= count,
            at <= next <= data@.len(),
            run_at(info_reader(data@), at as int, i as nat) == Ok::<
                (Seq<InfoModel>, int),
                GgufError,
            >((infos_model(infos@), next as int)),
        decreases count - i,
    {
        let ghost before = infos@;
        match read_info(data, next) {
            Ok((info, q)) => {
                infos.push(info);
                next = q;
                assert(infos_model(infos@) =~= infos_model(before).push(info@));
            },
            Err(e) => {
                proof {
                    let f = info_reader(data@);
                    assert(run_at(f, at as int, (i + 1) as nat) is Err);
                    lemma_run_error(f, at as int, (i + 1) as nat, count as nat);
                }
                return Err(e);
            },
        }
        i = i + 1;
    }
    Ok(infos)
}

/// Reads a GGUF file: its metadata and the entries of its tensors.
pub fn parse_gguf(data: &[u8]) -> (r: Result<GgufFile, GgufError>)
    ensures
        match r {
            Ok(f) => gguf_of(data@) == Ok::<GgufModel, GgufError>(f@),
            Err(e) => gguf_of(data@) == Err::<GgufModel, GgufError>(e),
        },
{
    proof {
        lemma_pow256_values();
    }
    let (magic, at1) = match read_num(data, 0, 4) {
        Ok(x) => x,
        Err(e) => {
            return Err(e);
        },
    };
    if magic != GGUF_MAGIC as u64 {
        return Err(GgufError::Magic(magic as u32));
    }
    let (version, at2) = match read_num(data, at1, 4) {
        Ok(x) => x,
        Err(e) => {
            return Err(e);
        },
    };
    let (tensor_count, at3) = match read_num(data, at2, 8) {
        Ok(x) => x,
        Err(e) => {
            return Err(e);
        },
    };
    let (meta_count, at4) = match read_num(data, at3, 8) {
        Ok(x) => x,
        Err(e) => {
            return Err(e);
        },
    };
    let (entries, at5) = match read_entries(data, at4, meta_count) {
        Ok(x) => x,
        Err(e) => {
            return Err(e);
        },
    };
    match read_infos(data, at5, tensor_count) {
        Ok(tensors) => Ok(GgufFile { version: version as u32, entries, tensors }),
        Err(e) => Err(e),
    }
}

/// A whole number in decimal, with a sign where it is negative.
pub open spec fn signed_digits(n: int) -> Seq<char> {
    if n < 0 {
        "-"@ + decimal_digits((-n) as nat)
    } else {
        decimal_digits(n as nat)
    }
}

/// `s` can be the text of a single value.
pub open spec fn is_scalar_text<U: FloatUnit>(u: &U, v: ScalarModel, s: Seq<char>) -> bool {
    match v {
        ScalarModel::Whole(n) => s == decimal_digits(n as nat),
        ScalarModel::Signed(n) => s == signed_digits(n as int),
        ScalarModel::Single(bits) => is_single_text(u, bits, s),
        ScalarModel::Double(bits) => is_double_text(u, bits, s),
        ScalarModel::Flag(b) => s == if b {
            "true"@
        } else {
            "false"@
        },
        ScalarModel::Text(t) => s == t,
        ScalarModel::Unknown => s == "?"@,
    }
}

/// `s` can be the text of a value: that of a single one, or those of a list in brackets.
pub open spec fn is_value_text<U: FloatUnit>(u: &U, v: ValueModel, s: Seq<char>) -> bool {
    match v {
        ValueModel::One(one) => is_scalar_text(u, one, s),
        ValueModel::List(items) => exists|parts: Seq<Seq<char>>|
            {
                &&& parts.len() == items.len()
                &&& forall|i: int|
                    0 <= i < items.len() ==> is_scalar_text(u, items[i], #[trigger] parts[i])
                &&& s == "["@ + #[trigger] joined(parts, ", "@) + "]"@
            },
    }
}

fn scalar_text<U: FloatUnit>(v: &GgufScalar, unit: &U) -> (s: String)
    ensures
        is_scalar_text(unit, v@, s@),
{
    match v {
        GgufScalar::Whole(n) => decimal(*n),
        GgufScalar::Signed(n) => {
            if *n < 0 {
                "-".to_owned().concat(decimal((-(*n as i128)) as u64).as_str())
            } else {
                decimal(*n as u64)
            }
        },
        GgufScalar::Single(bits) => unit.single_text(*bits),
        GgufScalar::Double(bits) => unit.double_text(*bits),
        GgufScalar::Flag(b) => {
            if *b {
                "true".to_owned()
            } else {
                "false".to_owned()
            }
        },
        GgufScalar::Text(s) => s.clone(),
        GgufScalar::Unknown => "?".to_owned(),
    }
}

/// The text of a value.
pub fn value_text<U: FloatUnit>(v: &GgufValue, unit: &U) -> (s: String)
    ensures
        is_value_text(unit, v@, s@),
{
    match v {
        GgufValue::One(one) => scalar_text(one, unit),
        GgufValue::List(items) => {
            let mut parts: Vec<String> = Vec::new();
            let mut i: usize = 0;
            while i < items.len()
                invariant
                    i <= items@.len(),
                    parts@.len() == i,
                    forall|k: int|
                        0 <= k < i ==> is_scalar_text(
                            unit,
                            items@[k]@,
                            #[trigger] texts(parts@)[k],
                        ),
                decreases items@.len() - i,
            {
                let ghost before = texts(parts@);
                let t = scalar_text(&items[i], unit);
                parts.push(t);
                proof {
                    assert(texts(parts@) =~= before.push(t@));
                }
                i = i + 1;
            }
            let inner = join(parts.as_slice(), ", ");
            let ghost all = texts(parts@);
            let out = "[".to_owned().concat(inner.as_str()).concat("]");
            assert(out@ == "["@ + joined(all, ", "@) + "]"@);
            out
        },
    }
}

/// The metadata of a file as texts, by key: of several entries with one key the last counts.
pub open spec fn are_texts<U: FloatUnit>(
    u: &U,
    values: Map<Seq<char>, ValueModel>,
    map: Map<Seq<char>, Seq<char>>,
) -> bool {
    &&& forall|k: Seq<char>| #[trigger] map.contains_key(k) <==> values.contains_key(k)
    &&& forall|k: Seq<char>|
        map.contains_key(k) ==> is_value_text(u, values[k], #[trigger] map[k])
}

/// The metadata of a file as texts.
pub fn metadata_texts<U: FloatUnit>(file: &GgufFile, unit: &U) -> (map: TextMap<String>)
    ensures
        map.wf(),
        are_texts(unit, pairs_map(file@.entries), contents(map@)),
{
    let ghost all = file@.entries;
    let mut map: TextMap<String> = TextMap::new();
    let mut i: usize = 0;
    assert(all.take(0) =~= Seq::<(Seq<char>, ValueModel)>::empty());
    while i < file.entries.len()
        invariant
            all == file@.entries,
            i <= file.entries@.len() == all.len(),
            map.wf(),
            are_texts(unit, pairs_map(all.take(i as int)), contents(map@)),
        decreases file.entries@.len() - i,
    {
        let ghost k0 = file.entries@[i as int].0@;
        let ghost v0 = file.entries@[i as int].1@;
        let ghost before = contents(map@);
        let t = value_text(&file.entries[i].1, unit);
        map.insert(file.entries[i].0.clone(), t);
        proof {
            let old_values = pairs_map(all.take(i as int));
            let values = pairs_map(all.take(i + 1));
            lemma_pairs_push(all.take(i as int), k0, v0);
            assert(all.take(i as int).push((k0, v0)) =~= all.take(i + 1));
            let now = contents(map@);
            assert(now =~= before.insert(k0, t@));
            assert forall|k: Seq<char>| #[trigger] now.contains_key(k) <==> values.contains_key(
                k,
            ) by {
                assert(before.contains_key(k) <==> old_values.contains_key(k));
            }
            assert forall|k: Seq<char>| now.contains_key(k) implies is_value_text(
                unit,
                values[k],
                #[trigger] now[k],
            ) by {
                if k != k0 {
                    assert(before.contains_key(k) && now[k] == before[k]);
                }
            }
        }
        i = i + 1;
    }
    assert(all.take(i as int) =~= all);
    map
}

/// The name in the output of a key behind the architecture's prefix.
pub open spec fn mapped_key(short: Seq<char>) -> Seq<char> {
    if short == "embedding_length"@ {
        "hidden_size"@
    } else if short == "feed_forward_length"@ {
        "intermediate_size"@
    } else if short == "attention.head_count"@ {
        "num_attention_heads"@
    } else if short == "attention.head_count_kv"@ {
        "num_key_value_heads"@
    } else if short == "attention.layer_norm_rms_epsilon"@ {
        "rms_norm_eps"@
    } else if short == "block_count"@ {
        "num_hidden_layers"@
    } else if short == "context_length"@ {
        "max_position_embeddings"@
    } else if short == "rope.dimension_count"@ {
        "head_dim"@
    } else if short == "rope.freq_base"@ {
        "rope_theta"@
    } else {
        short
    }
}

/// The name in the output of a key behind the architecture's prefix.
pub fn map_key(short: &str) -> (r: String)
    ensures
        r@ == mapped_key(short@),
{
    if same_text(short, "embedding_length") {
        "hidden_size".to_owned()
    } else if same_text(short, "feed_forward_length") {
        "intermediate_size".to_owned()
    } else if same_text(short, "attention.head_count") {
        "num_attention_heads".to_owned()
    } else if same_text(short, "attention.head_count_kv") {
        "num_key_value_heads".to_owned()
    } else if same_text(short, "attention.layer_norm_rms_epsilon") {
        "rms_norm_eps".to_owned()
    } else if same_text(short, "block_count") {
        "num_hidden_layers".to_owned()
    } else if same_text(short, "context_length") {
        "max_position_embeddings".to_owned()
    } else if same_text(short, "rope.dimension_count") {
        "head_dim".to_owned()
    } else if same_text(short, "rope.freq_base") {
        "rope_theta".to_owned()
    } else {
        short.to_owned()
    }
}

/// `out` is the value of an entry: that of "head_dim" is the whole part of its number, if it is
/// one; all others stay.
pub open spec fn is_mapped_value<U: FloatUnit>(
    u: &U,
    key: Seq<char>,
    value: Seq<char>,
    out: Seq<char>,
) -> bool {
    if key == "head_dim"@ {
        exists|n: Option<u64>|
            {
                &&& #[trigger] is_whole_part(u, value, n)
                &&& out == match n {
                    Some(v) => decimal_digits(v as nat),
                    None => value,
                }
            }
    } else {
        out == value
    }
}

/// `out` are the entries for the keys behind the architecture's prefix, in the order of the keys.
pub open spec fn are_arch_entries<U: FloatUnit>(
    u: &U,
    pairs: Seq<(Seq<char>, Seq<char>)>,
    prefix: Seq<char>,
    out: Seq<MetaModel>,
) -> bool
    decreases pairs.len(),
{
    if pairs.len() == 0 {
        out.len() == 0
    } else if has_prefix(pairs.last().0, prefix) {
        let key = mapped_key(
            pairs.last().0.subrange(prefix.len() as int, pairs.last().0.len() as int),
        );
        &&& out.len() > 0
        &&& are_arch_entries(u, pairs.drop_last(), prefix, out.drop_last())
        &&& out.last().key == key
        &&& is_mapped_value(u, key, pairs.last().1, out.last().value)
    } else {
        are_arch_entries(u, pairs.drop_last(), prefix, out)
    }
}

/// The entry `name` with the value of the key `key`, if the file has one.
pub open spec fn passed_entry(
    map: Map<Seq<char>, Seq<char>>,
    key: Seq<char>,
    name: Seq<char>,
) -> Seq<MetaModel> {
    if map.contains_key(key) {
        seq![entry(name, map[key])]
    } else {
        Seq::empty()
    }
}

/// The architecture of a model: "llama" where none is given.
pub open spec fn architecture(map: Map<Seq<char>, Seq<char>>) -> Seq<char> {
    if map.contains_key("general.architecture"@) {
        map["general.architecture"@]
    } else {
        "llama"@
    }
}

/// The entries that come before those of the architecture.
pub open spec fn general_entries(map: Map<Seq<char>, Seq<char>>) -> Seq<MetaModel> {
    passed_entry(map, "general.architecture"@, "architecture"@) + passed_entry(
        map,
        "general.name"@,
        "name"@,
    ) + passed_entry(map, "general.description"@, "description"@) + seq![
        entry("architecture"@, architecture(map)),
    ]
}

/// The entries of the tokenizer, which come last.
pub open spec fn tokenizer_entries(map: Map<Seq<char>, Seq<char>>) -> Seq<MetaModel> {
    passed_entry(map, "tokenizer.ggml.model"@, "tokenizer_model"@) + passed_entry(
        map,
        "tokenizer.ggml.tokens"@,
        "tokenizer_tokens"@,
    ) + passed_entry(map, "tokenizer.ggml.scores"@, "tokenizer_scores"@) + passed_entry(
        map,
        "tokenizer.ggml.token_type"@,
        "tokenizer_types"@,
    ) + passed_entry(map, "tokenizer.ggml.bos_token_id"@, "bos_token_id"@) + passed_entry(
        map,
        "tokenizer.ggml.eos_token_id"@,
        "eos_token_id"@,
    )
}

/// `out` is the metadata of the output.
pub open spec fn are_model_entries<U: FloatUnit>(
    u: &U,
    map: Map<Seq<char>, Seq<char>>,
    out: Seq<MetaModel>,
) -> bool {
    exists|arch: Seq<MetaModel>|
        {
            &&& #[trigger] are_arch_entries(u, in_order(map), architecture(map) + "."@, arch)
            &&& out == general_entries(map) + arch + tokenizer_entries(map)
        }
}

fn pass_entry(metas: &mut Vec<MetaKV>, map: &TextMap<String>, key: &str, name: &str)
    requires
        map.wf(),
    ensures
        metas_model(final(metas)@) == metas_model(old(metas)@) + passed_entry(
            contents(map@),
            key@,
            name@,
        ),
{
    match map.get(key) {
        Some(v) => {
            push_meta(metas, name, v.clone());
            assert(metas_model(metas@) =~= metas_model(old(metas)@) + passed_entry(
                contents(map@),
                key@,
                name@,
            ));
        },
        None => {
            assert(metas_model(metas@) =~= metas_model(old(metas)@) + passed_entry(
                contents(map@),
                key@,
                name@,
            ));
        },
    }
}

fn arch_entries<U: FloatUnit>(map: &TextMap<String>, prefix: &str, unit: &U) -> (out: Vec<MetaKV>)
    requires
        map.wf(),
    ensures
        are_arch_entries(unit, in_order(contents(map@)), prefix@, metas_model(out@)),
{
    let ghost pairs = entry_pairs(map.entries@);
    proof {
        lemma_entries_in_order(map.entries@);
    }
    let mut out: Vec<MetaKV> = Vec::new();
    let mut i: usize = 0;
    assert(pairs.take(0) =~= Seq::<(Seq<char>, Seq<char>)>::empty());
    while i < map.entries.len()
        invariant
            pairs == entry_pairs(map.entries@),
            i <= map.entries@.len() == pairs.len(),
            are_arch_entries(unit, pairs.take(i as int), prefix@, metas_model(out@)),
        decreases map.entries@.len() - i,
    {
        let ghost before = metas_model(out@);
        assert(pairs.take(i + 1).drop_last() =~= pairs.take(i as int));
        assert(pairs.take(i + 1).last() == (map.entries@[i as int].0@, map.entries@[i as int].1@));
        match strip_prefix(map.entries[i].0.as_str(), prefix) {
            Some(short) => {
                let key = map_key(short.as_str());
                let text = map.entries[i].1.as_str();
                let value: String = if same_text(key.as_str(), "head_dim") {
                    let whole: Option<u64> = unit.whole_part(text);
                    assert(is_whole_part(unit, text@, whole));
                    match whole {
                        Some(n) => decimal(n),
                        None => text.to_owned(),
                    }
                } else {
                    text.to_owned()
                };
                push_meta(&mut out, key.as_str(), value);
                assert(metas_model(out@).drop_last() =~= before);
            },
            None => {},
        }
        i = i + 1;
    }
    assert(pairs.take(i as int) =~= pairs);
    out
}

fn push_general(metas: &mut Vec<MetaKV>, map: &TextMap<String>)
    requires
        map.wf(),
        old(metas)@.len() == 0,
    ensures
        metas_model(final(metas)@) == general_entries(contents(map@)),
{
    let ghost m = contents(map@);
    assert(metas_model(metas@) =~= Seq::<MetaModel>::empty());
    pass_entry(metas, map, "general.architecture", "architecture");
    pass_entry(metas, map, "general.name", "name");
    pass_entry(metas, map, "general.description", "description");
    push_meta(metas, "architecture", architecture_of(map));
    assert(metas_model(metas@) =~= general_entries(m));
}

fn architecture_of(map: &TextMap<String>) -> (r: String)
    requires
        map.wf(),
    ensures
        r@ == architecture(contents(map@)),
{
    match map.get("general.architecture") {
        Some(a) => a.clone(),
        None => "llama".to_owned(),
    }
}

fn push_tokenizer(metas: &mut Vec<MetaKV>, map: &TextMap<String>)
    requires
        map.wf(),
    ensures
        metas_model(final(metas)@) == metas_model(old(metas)@) + tokenizer_entries(contents(map@)),
{
    let ghost before = metas_model(metas@);
    pass_entry(metas, map, "tokenizer.ggml.model", "tokenizer_model");
    pass_entry(metas, map, "tokenizer.ggml.tokens", "tokenizer_tokens");
    pass_entry(metas, map, "tokenizer.ggml.scores", "tokenizer_scores");
    pass_entry(metas, map, "tokenizer.ggml.token_type", "tokenizer_types");
    pass_entry(metas, map, "tokenizer.ggml.bos_token_id", "bos_token_id");
    pass_entry(metas, map, "tokenizer.ggml.eos_token_id", "eos_token_id");
    assert(metas_model(metas@) =~= before + tokenizer_entries(contents(map@)));
}

/// The metadata of the output.
pub fn model_metadata<U: FloatUnit>(map: &TextMap<String>, unit: &U) -> (out: Vec<MetaKV>)
    requires
        map.wf(),
    ensures
        are_model_entries(unit, contents(map@), metas_model(out@)),
{
    let ghost m = contents(map@);
    let mut metas: Vec<MetaKV> = Vec::new();
    push_general(&mut metas, map);
    let prefix = architecture_of(map).concat(".");
    let mut specific = arch_entries(map, prefix.as_str(), unit);
    let ghost middle = metas_model(specific@);
    metas.append(&mut specific);
    assert(metas_model(metas@) =~= general_entries(m) + middle);
    push_tokenizer(&mut metas, map);
    assert(are_arch_entries(unit, in_order(m), architecture(m) + "."@, middle));
    metas
}

proof fn lemma_joined_entries(a: Seq<MetaModel>, b: Seq<MetaModel>, key: Seq<char>)
    ensures
        meta_value(a + b, key) == match meta_value(a, key) {
            Some(v) => Some(v),
            None => meta_value(b, key),
        },
    decreases b.len(),
{
    if b.len() == 0 {
        assert(a + b =~= a);
    } else {
        assert((a + b).drop_last() =~= a + b.drop_last());
        assert((a + b).last() == b.last());
        lemma_joined_entries(a, b.drop_last(), key);
    }
}

/// No entry behind the prefix has the key `name`.
proof fn lemma_no_arch_entry<U: FloatUnit>(
    u: &U,
    pairs: Seq<(Seq<char>, Seq<char>)>,
    prefix: Seq<char>,
    out: Seq<MetaModel>,
    name: Seq<char>,
)
    requires
        are_arch_entries(u, pairs, prefix, out),
        forall|j: int|
            0 <= j < pairs.len() && has_prefix((#[trigger] pairs[j]).0, prefix) ==> mapped_key(
                pairs[j].0.subrange(prefix.len() as int, pairs[j].0.len() as int),
            ) != name,
    ensures
        meta_value(out, name) is None,
    decreases pairs.len(),
{
    if pairs.len() > 0 {
        let front = pairs.drop_last();
        assert forall|j: int|
            0 <= j < front.len() && has_prefix((#[trigger] front[j]).0, prefix) implies mapped_key(
            front[j].0.subrange(prefix.len() as int, front[j].0.len() as int),
        ) != name by {
            assert(pairs[j] == front[j]);
        }
        assert(pairs[pairs.len() - 1] == pairs.last());
        if has_prefix(pairs.last().0, prefix) {
            lemma_no_arch_entry(u, front, prefix, out.drop_last(), name);
        } else {
            lemma_no_arch_entry(u, front, prefix, out, name);
        }
    }
}

/// The value under a name in the output is that of the first key, in their order, that has it.
proof fn lemma_arch_entry<U: FloatUnit>(
    u: &U,
    pairs: Seq<(Seq<char>, Seq<char>)>,
    prefix: Seq<char>,
    out: Seq<MetaModel>,
    name: Seq<char>,
    short: Seq<char>,
    i: int,
)
    requires
        are_arch_entries(u, pairs, prefix, out),
        0 <= i < pairs.len(),
        pairs[i].0 == prefix + short,
        mapped_key(short) == name,
        name != "head_dim"@,
        forall|j: int|
            0 <= j < i && has_prefix((#[trigger] pairs[j]).0, prefix) ==> mapped_key(
                pairs[j].0.subrange(prefix.len() as int, pairs[j].0.len() as int),
            ) != name,
    ensures
        meta_value(out, name) == Some(pairs[i].1),
    decreases pairs.len(),
{
    let front = pairs.drop_last();
    assert forall|j: int|
        0 <= j < i && j < front.len() && has_prefix(
            (#[trigger] front[j]).0,
            prefix,
        ) implies mapped_key(
        front[j].0.subrange(prefix.len() as int, front[j].0.len() as int),
    ) != name by {
        assert(pairs[j] == front[j]);
    }
    if i == pairs.len() - 1 {
        let k = pairs[i].0;
        assert(k.subrange(0, prefix.len() as int) =~= prefix);
        assert(has_prefix(k, prefix));
        assert(k.subrange(prefix.len() as int, k.len() as int) =~= short);
        lemma_no_arch_entry(u, front, prefix, out.drop_last(), name);
    } else if has_prefix(pairs.last().0, prefix) {
        lemma_arch_entry(u, front, prefix, out.drop_last(), name, short, i);
    } else {
        lemma_arch_entry(u, front, prefix, out, name, short, i);
    }
}

/// The keys of the entries that come first are not those of dimensions.
proof fn lemma_general_keys(map: Map<Seq<char>, Seq<char>>, name: Seq<char>)
    requires
        name != "architecture"@,
        name != "name"@,
        name != "description"@,
    ensures
        meta_value(general_entries(map), name) is None,
{
    let a = passed_entry(map, "general.architecture"@, "architecture"@);
    let b = passed_entry(map, "general.name"@, "name"@);
    let c = passed_entry(map, "general.description"@, "description"@);
    let d = seq![entry("architecture"@, architecture(map))];
    lemma_joined_entries(a + b + c, d, name);
    lemma_joined_entries(a + b, c, name);
    lemma_joined_entries(a, b, name);
    reveal_with_fuel(meta_value, 2);
}

/// The value of a GGUF file under a key of its architecture, as the output has it.
proof fn lemma_gguf_value<U: FloatUnit>(
    u: &U,
    entries: Seq<(Seq<char>, ValueModel)>,
    map: Map<Seq<char>, Seq<char>>,
    metas: Seq<MetaModel>,
    short: Seq<char>,
    name: Seq<char>,
)
    requires
        are_texts(u, pairs_map(entries), map),
        are_model_entries(u, map, metas),
        map.contains_key(architecture(map) + "."@ + short),
        mapped_key(short) == name,
        name != "head_dim"@,
        name != "architecture"@,
        name != "name"@,
        name != "description"@,
        forall|x: Seq<char>| #[trigger] mapped_key(x) == name ==> x == short || x == name,
        short == name || text_less(
            architecture(map) + "."@ + short,
            architecture(map) + "."@ + name,
        ),
    ensures
        meta_value(metas, name) == Some(map[architecture(map) + "."@ + short]),
{
    let prefix = architecture(map) + "."@;
    let pairs = in_order(map);
    let arch = choose|arch: Seq<MetaModel>|
        {
            &&& #[trigger] are_arch_entries(u, pairs, prefix, arch)
            &&& metas == general_entries(map) + arch + tokenizer_entries(map)
        };
    lemma_in_order_of_list(entries, map);
    let key = prefix + short;
    assert(map.contains_key(key));
    let i = choose|i: int| 0 <= i < pairs.len() && #[trigger] pairs[i] == (key, map[key]);
    assert forall|j: int| 0 <= j < i && has_prefix((#[trigger] pairs[j]).0, prefix) implies mapped_key(
        pairs[j].0.subrange(prefix.len() as int, pairs[j].0.len() as int),
    ) != name by {
        let x = pairs[j].0.subrange(prefix.len() as int, pairs[j].0.len() as int);
        assert(text_less(pairs[j].0, pairs[i].0));
        assert(prefix + x =~= pairs[j].0);
        law_text_order(pairs[j].0, key, pairs[j].0);
    }
    lemma_arch_entry(u, pairs, prefix, arch, name, short, i);
    lemma_general_keys(map, name);
    lemma_joined_entries(general_entries(map) + arch, tokenizer_entries(map), name);
    lemma_joined_entries(general_entries(map), arch, name);
}

/// The whole number under a key of the architecture of a GGUF file, if there is one.
pub open spec fn gguf_number(
    entries: Map<Seq<char>, ValueModel>,
    arch: Seq<char>,
    short: Seq<char>,
) -> Option<u64> {
    let key = arch + "."@ + short;
    if entries.contains_key(key) {
        match entries[key] {
            ValueModel::One(ScalarModel::Whole(n)) => Some(n),
            _ => None,
        }
    } else {
        None
    }
}

proof fn lemma_gguf_number<U: FloatUnit>(
    u: &U,
    entries: Seq<(Seq<char>, ValueModel)>,
    map: Map<Seq<char>, Seq<char>>,
    metas: Seq<MetaModel>,
    short: Seq<char>,
    name: Seq<char>,
)
    requires
        are_texts(u, pairs_map(entries), map),
        are_model_entries(u, map, metas),
        mapped_key(short) == name,
        name != "head_dim"@,
        name != "architecture"@,
        name != "name"@,
        name != "description"@,
        forall|x: Seq<char>| #[trigger] mapped_key(x) == name ==> x == short || x == name,
        short == name || text_less(
            architecture(map) + "."@ + short,
            architecture(map) + "."@ + name,
        ),
    ensures
        gguf_number(pairs_map(entries), architecture(map), short) matches Some(n) ==> (n
            <= usize::MAX ==> meta_number(metas, name) == Some(n as nat)),
{
    if let Some(n) = gguf_number(pairs_map(entries), architecture(map), short) {
        let key = architecture(map) + "."@ + short;
        assert(map.contains_key(key));
        lemma_gguf_value(u, entries, map, metas, short, name);
        assert(is_value_text(u, pairs_map(entries)[key], map[key]));
        law_decimal_round_trip(n as nat);
    }
}

/// The dimensions that are read from a converted GGUF file are those of the GGUF file: each is the
/// number under its key, behind the name of the architecture.
pub proof fn law_gguf_dimensions_read_back<U: FloatUnit>(
    u: &U,
    entries: Seq<(Seq<char>, ValueModel)>,
    map: Map<Seq<char>, Seq<char>>,
    metas: Seq<MetaModel>,
    c: HypnoConfig,
)
    requires
        are_texts(u, pairs_map(entries), map),
        are_model_entries(u, map, metas),
        is_config(u, metas, c),
    ensures
        ({
            let number = |short: Seq<char>|
                gguf_number(pairs_map(entries), architecture(map), short);
            let says = |short: Seq<char>, d: usize|
                number(short) matches Some(n) ==> (n <= usize::MAX ==> d == n);
            &&& says("embedding_length"@, c.hidden_size)
            &&& says("feed_forward_length"@, c.intermediate_size)
            &&& says("attention.head_count"@, c.num_attention_heads)
            &&& says("attention.head_count_kv"@, c.num_key_value_heads)
            &&& says("block_count"@, c.num_hidden_layers)
            &&& says("context_length"@, c.max_position_embeddings)
            &&& says("vocab_size"@, c.vocab_size)
        }),
{
    let prefix = architecture(map) + "."@;
    reveal_keys();
    lemma_order_behind_prefix(prefix, "embedding_length"@, "hidden_size"@);
    lemma_gguf_number(u, entries, map, metas, "embedding_length"@, "hidden_size"@);
    lemma_order_behind_prefix(prefix, "feed_forward_length"@, "intermediate_size"@);
    lemma_gguf_number(u, entries, map, metas, "feed_forward_length"@, "intermediate_size"@);
    lemma_order_behind_prefix(prefix, "attention.head_count"@, "num_attention_heads"@);
    lemma_gguf_number(u, entries, map, metas, "attention.head_count"@, "num_attention_heads"@);
    lemma_order_behind_prefix(prefix, "attention.head_count_kv"@, "num_key_value_heads"@);
    lemma_gguf_number(u, entries, map, metas, "attention.head_count_kv"@, "num_key_value_heads"@);
    lemma_order_behind_prefix(prefix, "block_count"@, "num_hidden_layers"@);
    lemma_gguf_number(u, entries, map, metas, "block_count"@, "num_hidden_layers"@);
    lemma_order_behind_prefix(prefix, "context_length"@, "max_position_embeddings"@);
    lemma_gguf_number(u, entries, map, metas, "context_length"@, "max_position_embeddings"@);
    lemma_gguf_number(u, entries, map, metas, "vocab_size"@, "vocab_size"@);
}

/// Epsilon and theta of a converted GGUF file are read from the text of the value under their keys,
/// behind the name of the architecture.
pub proof fn law_gguf_constants_read_back<U: FloatUnit>(
    u: &U,
    entries: Seq<(Seq<char>, ValueModel)>,
    map: Map<Seq<char>, Seq<char>>,
    metas: Seq<MetaModel>,
    c: HypnoConfig,
)
    requires
        are_texts(u, pairs_map(entries), map),
        are_model_entries(u, map, metas),
        is_config(u, metas, c),
    ensures
        ({
            let eps = architecture(map) + "."@ + "attention.layer_norm_rms_epsilon"@;
            let theta = architecture(map) + "."@ + "rope.freq_base"@;
            &&& map.contains_key(eps) ==> is_read_or(u, map[eps], DEFAULT_EPS, c.rms_norm_eps)
            &&& map.contains_key(theta) ==> is_read_or(u, map[theta], DEFAULT_THETA, c.rope_theta)
        }),
{
    let prefix = architecture(map) + "."@;
    reveal_keys();
    let eps = "attention.layer_norm_rms_epsilon"@;
    let theta = "rope.freq_base"@;
    lemma_order_behind_prefix(prefix, eps, "rms_norm_eps"@);
    if map.contains_key(prefix + eps) {
        lemma_gguf_value(u, entries, map, metas, eps, "rms_norm_eps"@);
    }
    let same = theta.take(4);
    assert(same =~= "rope_theta"@.take(4));
    lemma_order_behind_prefix(prefix + same, theta.skip(4), "rope_theta"@.skip(4));
    assert(prefix + same + theta.skip(4) =~= prefix + theta);
    assert(prefix + same + "rope_theta"@.skip(4) =~= prefix + "rope_theta"@);
    if map.contains_key(prefix + theta) {
        lemma_gguf_value(u, entries, map, metas, theta, "rope_theta"@);
    }
}

/// `r` can be the 32-bit value that a text writes, or the default where it writes none.
pub open spec fn is_read_or<U: FloatUnit>(u: &U, text: Seq<char>, default: u32, r: u32) -> bool {
    is_read_single(u, text, Some(r)) || (is_read_single(u, text, None) && r == default)
}

/// What a GGUF file says of its tokenizer is found in the output: the numbers of the tokens of the
/// beginning and of the end each under their own name, and so are the model, the tokens, their scores and
/// their types, unless the architecture has an entry of that name.
pub proof fn law_gguf_tokenizer_reads_back<U: FloatUnit>(
    u: &U,
    entries: Seq<(Seq<char>, ValueModel)>,
    map: Map<Seq<char>, Seq<char>>,
    metas: Seq<MetaModel>,
)
    requires
        are_texts(u, pairs_map(entries), map),
        are_model_entries(u, map, metas),
    ensures
        ({
            let says = |key: Seq<char>, name: Seq<char>|
                map.contains_key(key) && !map.contains_key(architecture(map) + "."@ + name)
                    ==> meta_value(metas, name) == Some(map[key]);
            &&& says("tokenizer.ggml.model"@, "tokenizer_model"@)
            &&& says("tokenizer.ggml.tokens"@, "tokenizer_tokens"@)
            &&& says("tokenizer.ggml.scores"@, "tokenizer_scores"@)
            &&& says("tokenizer.ggml.token_type"@, "tokenizer_types"@)
            &&& says("tokenizer.ggml.bos_token_id"@, "bos_token_id"@)
            &&& says("tokenizer.ggml.eos_token_id"@, "eos_token_id"@)
        }),
{
    reveal_keys();
    reveal_strlit("tokenizer_model");
    reveal_strlit("tokenizer_tokens");
    reveal_strlit("tokenizer_scores");
    reveal_strlit("tokenizer_types");
    reveal_strlit("bos_token_id");
    reveal_strlit("eos_token_id");
    assert("tokenizer_model"@.len() == 15 && "tokenizer_types"@.len() == 15);
    assert("tokenizer_tokens"@.len() == 16 && "tokenizer_scores"@.len() == 16);
    assert("bos_token_id"@.len() == 12 && "eos_token_id"@.len() == 12);
    assert("tokenizer_model"@[10] == 'm' && "tokenizer_types"@[10] == 't');
    assert("tokenizer_model"@[0] == 't' && "tokenizer_types"@[0] == 't');
    assert("tokenizer_tokens"@[10] == 't' && "tokenizer_scores"@[10] == 's');
    assert("tokenizer_tokens"@[0] == 't' && "tokenizer_scores"@[0] == 't');
    assert("bos_token_id"@[0] == 'b' && "eos_token_id"@[0] == 'e');
    lemma_tokenizer_part(u, entries, map, metas, "tokenizer_model"@);
    lemma_tokenizer_part(u, entries, map, metas, "tokenizer_tokens"@);
    lemma_tokenizer_part(u, entries, map, metas, "tokenizer_scores"@);
    lemma_tokenizer_part(u, entries, map, metas, "tokenizer_types"@);
    lemma_tokenizer_part(u, entries, map, metas, "bos_token_id"@);
    lemma_tokenizer_part(u, entries, map, metas, "eos_token_id"@);
}

/// The value under the name of a tokenizer's entry is that of the tokenizer's entries.
proof fn lemma_tokenizer_part<U: FloatUnit>(
    u: &U,
    entries: Seq<(Seq<char>, ValueModel)>,
    map: Map<Seq<char>, Seq<char>>,
    metas: Seq<MetaModel>,
    name: Seq<char>,
)
    requires
        are_texts(u, pairs_map(entries), map),
        are_model_entries(u, map, metas),
        name != "architecture"@,
        name != "name"@,
        name != "description"@,
        forall|x: Seq<char>| #[trigger] mapped_key(x) == name ==> x == name,
    ensures
        !map.contains_key(architecture(map) + "."@ + name) ==> meta_value(metas, name)
            == tokenizer_value(map, name),
{
    if !map.contains_key(architecture(map) + "."@ + name) {
        let prefix = architecture(map) + "."@;
        let pairs = in_order(map);
        let arch = choose|arch: Seq<MetaModel>|
            {
                &&& #[trigger] are_arch_entries(u, pairs, prefix, arch)
                &&& metas == general_entries(map) + arch + tokenizer_entries(map)
            };
        lemma_in_order_of_list(entries, map);
        assert forall|j: int|
            0 <= j < pairs.len() && has_prefix((#[trigger] pairs[j]).0, prefix) implies mapped_key(
            pairs[j].0.subrange(prefix.len() as int, pairs[j].0.len() as int),
        ) != name by {
            let x = pairs[j].0.subrange(prefix.len() as int, pairs[j].0.len() as int);
            assert(prefix + x =~= pairs[j].0);
            lemma_pair_has_key(pairs, j);
            assert(map.contains_key(pairs[j].0));
        }
        lemma_no_arch_entry(u, pairs, prefix, arch, name);
        lemma_general_keys(map, name);
        lemma_joined_entries(general_entries(map) + arch, tokenizer_entries(map), name);
        lemma_joined_entries(general_entries(map), arch, name);
        let a = passed_entry(map, "tokenizer.ggml.model"@, "tokenizer_model"@);
        let b = passed_entry(map, "tokenizer.ggml.tokens"@, "tokenizer_tokens"@);
        let c = passed_entry(map, "tokenizer.ggml.scores"@, "tokenizer_scores"@);
        let d = passed_entry(map, "tokenizer.ggml.token_type"@, "tokenizer_types"@);
        let e = passed_entry(map, "tokenizer.ggml.bos_token_id"@, "bos_token_id"@);
        let f = passed_entry(map, "tokenizer.ggml.eos_token_id"@, "eos_token_id"@);
        lemma_joined_entries(a + b + c + d + e, f, name);
        lemma_joined_entries(a + b + c + d, e, name);
        lemma_joined_entries(a + b + c, d, name);
        lemma_joined_entries(a + b, c, name);
        lemma_joined_entries(a, b, name);
        reveal_with_fuel(meta_value, 2);
    }
}

/// What is said of a tokenizer under a name of the output: the first of the entries with that name.
spec fn tokenizer_value(map: Map<Seq<char>, Seq<char>>, name: Seq<char>) -> Option<Seq<char>> {
    if map.contains_key("tokenizer.ggml.model"@) && name == "tokenizer_model"@ {
        Some(map["tokenizer.ggml.model"@])
    } else if map.contains_key("tokenizer.ggml.tokens"@) && name == "tokenizer_tokens"@ {
        Some(map["tokenizer.ggml.tokens"@])
    } else if map.contains_key("tokenizer.ggml.scores"@) && name == "tokenizer_scores"@ {
        Some(map["tokenizer.ggml.scores"@])
    } else if map.contains_key("tokenizer.ggml.token_type"@) && name == "tokenizer_types"@ {
        Some(map["tokenizer.ggml.token_type"@])
    } else if map.contains_key("tokenizer.ggml.bos_token_id"@) && name == "bos_token_id"@ {
        Some(map["tokenizer.ggml.bos_token_id"@])
    } else if map.contains_key("tokenizer.ggml.eos_token_id"@) && name == "eos_token_id"@ {
        Some(map["tokenizer.ggml.eos_token_id"@])
    } else {
        None
    }
}

proof fn lemma_pair_has_key(pairs: Seq<(Seq<char>, Seq<char>)>, j: int)
    requires
        0 <= j < pairs.len(),
    ensures
        pairs_map(pairs).contains_key(pairs[j].0),
    decreases pairs.len(),
{
    if j < pairs.len() - 1 {
        lemma_pair_has_key(pairs.drop_last(), j);
        assert(pairs.drop_last()[j] == pairs[j]);
        assert(pairs_map(pairs.drop_last()).contains_key(pairs[j].0));
    }
}

/// What tells the keys apart: their lengths, or else one of their characters.
proof fn reveal_keys()
    ensures
        "architecture"@.len() == 12,
        "name"@.len() == 4,
        "description"@.len() == 11,
        "description"@[0] == 'd',
        "head_dim"@.len() == 8,
        "embedding_length"@.len() == 16,
        "embedding_length"@[0] == 'e',
        "hidden_size"@.len() == 11,
        "hidden_size"@[0] == 'h',
        "feed_forward_length"@.len() == 19,
        "feed_forward_length"@[0] == 'f',
        "intermediate_size"@.len() == 17,
        "intermediate_size"@[0] == 'i',
        "attention.head_count"@.len() == 20,
        "attention.head_count"@[0] == 'a',
        "num_attention_heads"@.len() == 19,
        "num_attention_heads"@[0] == 'n',
        "num_attention_heads"@[4] == 'a',
        "attention.head_count_kv"@.len() == 23,
        "attention.head_count_kv"@[0] == 'a',
        "num_key_value_heads"@.len() == 19,
        "num_key_value_heads"@[0] == 'n',
        "num_key_value_heads"@[4] == 'k',
        "attention.layer_norm_rms_epsilon"@.len() == 32,
        "attention.layer_norm_rms_epsilon"@[0] == 'a',
        "rms_norm_eps"@.len() == 12,
        "rms_norm_eps"@[0] == 'r',
        "architecture"@[0] == 'a',
        "block_count"@.len() == 11,
        "block_count"@[0] == 'b',
        "num_hidden_layers"@.len() == 17,
        "num_hidden_layers"@[0] == 'n',
        "context_length"@.len() == 14,
        "context_length"@[0] == 'c',
        "max_position_embeddings"@.len() == 23,
        "max_position_embeddings"@[0] == 'm',
        "rope.dimension_count"@.len() == 20,
        "rope.dimension_count"@[0] == 'r',
        "rope.freq_base"@.len() == 14,
        "rope.freq_base"@[0] == 'r',
        "rope.freq_base"@.take(4) == "rope_theta"@.take(4),
        "rope.freq_base"@[4] == '.',
        "rope_theta"@.len() == 10,
        "rope_theta"@[0] == 'r',
        "rope_theta"@[4] == '_',
        "vocab_size"@.len() == 10,
        "vocab_size"@[0] == 'v',
{
    reveal_strlit("architecture");
    reveal_strlit("name");
    reveal_strlit("description");
    reveal_strlit("head_dim");
    reveal_strlit("embedding_length");
    reveal_strlit("hidden_size");
    reveal_strlit("feed_forward_length");
    reveal_strlit("intermediate_size");
    reveal_strlit("attention.head_count");
    reveal_strlit("num_attention_heads");
    reveal_strlit("attention.head_count_kv");
    reveal_strlit("num_key_value_heads");
    reveal_strlit("attention.layer_norm_rms_epsilon");
    reveal_strlit("rms_norm_eps");
    reveal_strlit("block_count");
    reveal_strlit("num_hidden_layers");
    reveal_strlit("context_length");
    reveal_strlit("max_position_embeddings");
    reveal_strlit("rope.dimension_count");
    reveal_strlit("rope.freq_base");
    reveal_strlit("rope_theta");
    reveal_strlit("vocab_size");
    assert("rope.freq_base"@.take(4) =~= "rope_theta"@.take(4));
}

/// Whether a tensor goes into the output: those of the output layer stay out, but for its weight.
pub open spec fn is_kept(name: Seq<char>) -> bool {
    !has_infix(name, "output."@) || name == "output.weight"@
}

/// The tensors that go into the output.
pub open spec fn kept(infos: Seq<InfoModel>) -> Seq<InfoModel>
    decreases infos.len(),
{
    if infos.len() == 0 {
        Seq::empty()
    } else if is_kept(infos.last().name) {
        kept(infos.drop_last()).push(infos.last())
    } else {
        kept(infos.drop_last())
    }
}

/// The table item of a tensor: a type that is the same as an element type is kept, all others become
/// 32-bit ones.
pub open spec fn info_item(t: InfoModel) -> ItemModel {
    ItemModel {
        name: t.name,
        shape: t.dims,
        dtype: match direct_dtype(t.ggml_type) {
            Some(d) => d,
            None => DType::FP32,
        },
    }
}

/// The table items of tensors.
pub open spec fn info_items(infos: Seq<InfoModel>) -> Seq<ItemModel> {
    Seq::new(infos.len(), |i: int| info_item(infos[i]))
}

/// Whether a tensor type is known: that of an element type, or one whose values are stored in 32
/// bits.
pub open spec fn is_known_type(ggml_type: u32) -> bool {
    direct_dtype(ggml_type) is Some || ggml_type == 3 || ggml_type == 17 || is_block_type(ggml_type)
}

/// Names and types of the tensors whose type is not known.
pub open spec fn unknown_tensors(infos: Seq<InfoModel>) -> Seq<(Seq<char>, u32)>
    decreases infos.len(),
{
    if infos.len() == 0 {
        Seq::empty()
    } else {
        let rest = unknown_tensors(infos.drop_last());
        let t = infos.last();
        if is_known_type(t.ggml_type) {
            rest
        } else {
            rest.push((t.name, t.ggml_type))
        }
    }
}

/// How many values the whole blocks in `len` bytes of a tensor hold that is stored in 32 bits.
pub open spec fn opened_len(ggml_type: u32, len: nat) -> nat {
    if ggml_type == 3 {
        32 * (len / 20)
    } else if is_block_type(ggml_type) {
        values_in(ggml_type, len)
    } else {
        0
    }
}

/// Whether the data of a tensor starts within the file.
pub open spec fn in_file(t: InfoModel, file: Seq<u8>) -> bool {
    t.offset <= file.len() && t.offset + t.data_len <= u64::MAX
}

/// The data of a tensor, as far as the file has it.
pub open spec fn raw_data(t: InfoModel, file: Seq<u8>) -> Seq<u8> {
    file.subrange(
        t.offset as int,
        if t.offset + t.data_len < file.len() {
            t.offset + t.data_len
        } else {
            file.len() as int
        },
    )
}

/// `r` is value `i` of blocks of 20 bytes, with a scale, a smallest value and 32 values of 4 bits.
pub open spec fn is_q4_1_value<U: FloatUnit>(u: &U, raw: Seq<u8>, i: int, r: u32) -> bool {
    let at = 20 * (i / 32);
    let step = nibble_step(raw.subrange(at + 4, at + 20), i % 32) + 8;
    exists|w: u32, m: u32, p: u32|
        {
            &&& #[trigger] is_wide(u, le_value(raw.subrange(at, at + 2)) as u16, w)
            &&& #[trigger] is_wide(u, le_value(raw.subrange(at + 2, at + 4)) as u16, m)
            &&& #[trigger] is_scaled(u, step as i32, w, p)
            &&& is_sum(u, p, m, r)
        }
}

/// `n` values, or all that there are.
pub open spec fn at_most_values(n: nat, there: nat) -> nat {
    if there < n {
        there
    } else {
        n
    }
}

/// `out` is the data of a tensor in the output: unchanged where the type is the same as an
/// element type, its values in 32 bits for the other types that are known, and zeros else.
pub open spec fn is_gguf_data<U: FloatUnit>(
    u: &U,
    t: InfoModel,
    file: Seq<u8>,
    out: Seq<u8>,
) -> bool {
    let raw = raw_data(t, file);
    if direct_dtype(t.ggml_type) is Some {
        out == raw
    } else if t.ggml_type == 3 {
        exists|values: Seq<u32>|
            {
                &&& values.len() == at_most_values(product(t.dims), 32 * (raw.len() / 20))
                &&& forall|i: int|
                    0 <= i < values.len() ==> is_q4_1_value(u, raw, i, #[trigger] values[i])
                &&& #[trigger] is_encoded(u, DType::FP32, values, out)
            }
    } else if is_block_type(t.ggml_type) {
        exists|values: Seq<u32>|
            {
                &&& values.len() == at_most_values(
                    product(t.dims),
                    values_in(t.ggml_type, raw.len()),
                )
                &&& forall|i: int|
                    0 <= i < values.len() ==> is_block_value(
                        u,
                        t.ggml_type,
                        raw,
                        i,
                        #[trigger] values[i],
                    )
                &&& #[trigger] is_encoded(u, DType::FP32, values, out)
            }
    } else if t.ggml_type != 17 {
        out == Seq::new(4 * product(t.dims), |i: int| 0u8)
    } else {
        exists|values: Seq<u32>|
            {
                &&& values.len() == raw.len() / 2
                &&& forall|i: int|
                    0 <= i < values.len() ==> #[trigger] values[i] == brain_single(
                        le_value(raw.subrange(2 * i, 2 * i + 2)) as u16,
                    )
                &&& #[trigger] is_encoded(u, DType::FP32, values, out)
            }
    }
}

/// The values of blocks of 20 bytes.
pub fn dequantize_ggml_q4_1<U: FloatUnit>(data: &[u8], unit: &U) -> (values: Vec<u32>)
    requires
        32 * (data@.len() / 20) <= usize::MAX,
    ensures
        values@.len() == 32 * (data@.len() / 20),
        forall|i: int|
            0 <= i < values@.len() ==> is_q4_1_value(unit, data@, i, #[trigger] values@[i]),
{
    let size: usize = data.len();
    let blocks: usize = size / 20;
    let mut values: Vec<u32> = Vec::new();
    let mut b: usize = 0;
    proof {
        lemma_pow256_values();
    }
    while b < blocks
        invariant
            b <= blocks == size / 20,
            size == data@.len(),
            32 * blocks <= usize::MAX,
            values@.len() == 32 * b,
            crate::bytes::pow256(2) == 0x1_0000,
            forall|i: int|
                0 <= i < values@.len() ==> is_q4_1_value(unit, data@, i, #[trigger] values@[i]),
        decreases blocks - b,
    {
        let at: usize = 20 * b;
        proof {
            lemma_le_value_bound(data@.subrange(at as int, at + 2));
            lemma_le_value_bound(data@.subrange(at + 2, at + 4));
        }
        let w: u32 = unit.widen(read_le(data, at, 2) as u16);
        let m: u32 = unit.widen(read_le(data, at + 2, 2) as u16);
        let ghost qs = data@.subrange(at + 4, at + 20);
        let mut j: usize = 0;
        while j < 32
            invariant
                j <= 32,
                b < blocks == size / 20,
                at == 20 * b,
                size == data@.len(),
                values@.len() == 32 * b + j,
                qs == data@.subrange(at + 4, at + 20),
                is_wide(unit, le_value(data@.subrange(at as int, at + 2)) as u16, w),
                is_wide(unit, le_value(data@.subrange(at + 2, at + 4)) as u16, m),
                forall|i: int|
                    0 <= i < values@.len() ==> is_q4_1_value(unit, data@, i, #[trigger] values@[i]),
            decreases 32 - j,
        {
            let byte: u8 = data[at + 4 + j / 2];
            let step: i32 = if j % 2 == 0 {
                (byte % 16) as i32
            } else {
                (byte / 16) as i32
            };
            let p: u32 = unit.scale(step, w);
            let v: u32 = unit.plus(p, m);
            let ghost before = values@;
            values.push(v);
            proof {
                let i = 32 * b + j;
                assert(i / 32 == b && i % 32 == j);
                assert(qs[j as int / 2] == byte);
                assert(step == nibble_step(qs, j as int) + 8);
                assert(is_scaled(unit, step, w, p));
                assert(is_q4_1_value(unit, data@, i, v));
                assert forall|k: int| 0 <= k < values@.len() implies is_q4_1_value(
                    unit,
                    data@,
                    k,
                    #[trigger] values@[k],
                ) by {
                    if k < before.len() {
                        assert(values@[k] == before[k]);
                    }
                }
            }
            j = j + 1;
        }
        b = b + 1;
    }
    values
}

/// The values of brain floats.
pub fn dequantize_bf16(data: &[u8]) -> (values: Vec<u32>)
    ensures
        values@.len() == data@.len() / 2,
        forall|i: int|
            0 <= i < values@.len() ==> #[trigger] values@[i] == brain_single(
                le_value(data@.subrange(2 * i, 2 * i + 2)) as u16,
            ),
{
    let size: usize = data.len();
    let mut values: Vec<u32> = Vec::new();
    let mut i: usize = 0;
    proof {
        lemma_pow256_values();
    }
    while i < size / 2
        invariant
            i <= size / 2,
            size == data@.len(),
            values@.len() == i,
            crate::bytes::pow256(2) == 0x1_0000,
            forall|k: int|
                0 <= k < i ==> #[trigger] values@[k] == brain_single(
                    le_value(data@.subrange(2 * k, 2 * k + 2)) as u16,
                ),
        decreases size / 2 - i,
    {
        proof {
            lemma_le_value_bound(data@.subrange(2 * i, 2 * i + 2));
        }
        values.push(bf16_to_f32(read_le(data, 2 * i, 2) as u16));
        i = i + 1;
    }
    values
}

/// Why a GGUF file could not be converted.
#[derive(Debug, Clone, Copy, PartialEq, Eq, Structural)]
pub enum GgufConvertError {
    /// The file could not be read.
    Read(GgufError),
    /// The data of a tensor does not start within the file.
    OutOfFile,
    /// The output is too large.
    TooLarge,
}

/// The data of a tensor in the output.
fn output_data<U: FloatUnit>(t: &GgufTensorInfo, n: usize, file: &[u8], unit: &U) -> (r: Result<
    Vec<u8>,
    GgufConvertError,
>)
    requires
        n == product(t.dims@),
        info_item(t@).data_len() <= usize::MAX,
    ensures
        match r {
            Ok(out) => in_file(t@, file@) && is_gguf_data(unit, t@, file@, out@),
            Err(e) => (e == GgufConvertError::OutOfFile && !in_file(t@, file@)) || (e
                == GgufConvertError::TooLarge && in_file(t@, file@) && opened_len(
                t.ggml_type,
                raw_data(t@, file@).len(),
            ) > usize::MAX),
        },
{
    let size: usize = file.len();
    if t.offset as u128 > size as u128 {
        return Err(GgufConvertError::OutOfFile);
    }
    let end: u64 = match t.offset.checked_add(t.data_len) {
        Some(e) => e,
        None => {
            return Err(GgufConvertError::OutOfFile);
        },
    };
    let start: usize = t.offset as usize;
    let stop: usize = if (end as u128) < (size as u128) {
        end as usize
    } else {
        size
    };
    let raw = vstd::slice::slice_subrange(file, start, stop);
    assert(raw@ == raw_data(t@, file@));
    match t.ggml_type {
        0 | 1 | 2 | 8 => {
            let out = copy_range(raw, 0, raw.len());
            assert(out@ =~= raw@);
            Ok(out)
        },
        3 => {
            if raw.len() / 20 > usize::MAX / 32 {
                return Err(GgufConvertError::TooLarge);
            }
            let mut values = dequantize_ggml_q4_1(raw, unit);
            if values.len() > n {
                values.truncate(n);
            }
            let out = encode_singles(values.as_slice());
            assert(is_encoded(unit, DType::FP32, values@, out@));
            Ok(out)
        },
        6 | 7 | 9 | 10 | 11 | 12 | 13 | 14 => {
            let (size, bytes) = block_size(t.ggml_type);
            let blocks: usize = raw.len() / bytes;
            match size.checked_mul(blocks) {
                Some(_) => {},
                None => {
                    return Err(GgufConvertError::TooLarge);
                },
            }
            let mut values = dequantize_ggml_generic(raw, t.ggml_type, unit);
            if values.len() > n {
                values.truncate(n);
            }
            let out = encode_singles(values.as_slice());
            assert(is_encoded(unit, DType::FP32, values@, out@));
            Ok(out)
        },
        17 => {
            let values = dequantize_bf16(raw);
            let out = encode_singles(values.as_slice());
            assert(is_encoded(unit, DType::FP32, values@, out@));
            Ok(out)
        },
        _ => {
            let out = vec![0u8; 4 * n];
            assert(out@ =~= Seq::new(4 * product(t.dims@), |i: int| 0u8));
            Ok(out)
        },
    }
}

/// The table item of a tensor, and the number of its elements; `None` where it is too large.
fn output_item(t: &GgufTensorInfo) -> (r: Option<(TensorItem, usize)>)
    ensures
        match r {
            Some(x) => x.0@ == info_item(t@) && x.1 == product(t.dims@) && x.0@.data_len()
                <= usize::MAX,
            None => !info_item(t@).fits(),
        },
{
    let n: usize = match checked_product(t.dims.as_slice()) {
        Some(n) => {
            if n as u128 > usize::MAX as u128 {
                return None;
            }
            n as usize
        },
        None => {
            return None;
        },
    };
    let dtype = match ggml_to_hypno_dtype(t.ggml_type) {
        Some(d) => d,
        None => DType::FP32,
    };
    let item = TensorItem { name: t.name.clone(), shape: copy_shape(t.dims.as_slice()), dtype };
    match item_len(&item) {
        Some(_) => Some((item, n)),
        None => None,
    }
}

/// The data of a tensor starts within the file, and `out` is its data in the output.
pub open spec fn is_output_data<U: FloatUnit>(
    u: &U,
    t: InfoModel,
    file: Seq<u8>,
    out: Seq<u8>,
) -> bool {
    in_file(t, file) && is_gguf_data(u, t, file, out)
}

/// The data of tensors in the output.
pub open spec fn are_gguf_data<U: FloatUnit>(
    u: &U,
    infos: Seq<InfoModel>,
    file: Seq<u8>,
    data: Seq<Vec<u8>>,
) -> bool {
    data.len() == infos.len() && forall|i: int|
        0 <= i < infos.len() ==> is_output_data(u, infos[i], file, #[trigger] data[i]@)
}

/// The data of one of the tensors that go into the output does not start within the file.
pub open spec fn one_outside(infos: Seq<InfoModel>, file: Seq<u8>) -> bool {
    exists|i: int|
        0 <= i < infos.len() && is_kept((#[trigger] infos[i]).name) && !in_file(infos[i], file)
}

/// One of the tensors that go into the output is too large.
pub open spec fn one_too_large(infos: Seq<InfoModel>, file: Seq<u8>) -> bool {
    exists|i: int|
        0 <= i < infos.len() && is_kept((#[trigger] infos[i]).name) && (!info_item(
            infos[i],
        ).fits() || opened_len(infos[i].ggml_type, raw_data(infos[i], file).len()) > usize::MAX)
}

/// Takes one more tensor.
proof fn lemma_kept_step(infos: Seq<InfoModel>, i: int)
    requires
        0 <= i < infos.len(),
    ensures
        kept(infos.take(i + 1)) == if is_kept(infos[i].name) {
            kept(infos.take(i)).push(infos[i])
        } else {
            kept(infos.take(i))
        },
{
    assert(infos.take(i + 1).drop_last() =~= infos.take(i));
}

/// The contents of a list of names and types.
pub open spec fn named_types(v: Seq<(String, u32)>) -> Seq<(Seq<char>, u32)> {
    Seq::new(v.len(), |i: int| (v[i].0@, v[i].1))
}

/// Names and types of the tensors that go into the output and whose type is not known.
fn find_unknown(gguf: &GgufFile) -> (r: Vec<(String, u32)>)
    ensures
        named_types(r@) == unknown_tensors(kept(gguf@.tensors)),
{
    let ghost all = gguf@.tensors;
    let mut r: Vec<(String, u32)> = Vec::new();
    let mut i: usize = 0;
    assert(all.take(0) =~= Seq::<InfoModel>::empty());
    assert(named_types(r@) =~= unknown_tensors(kept(all.take(0))));
    while i < gguf.tensors.len()
        invariant
            all == gguf@.tensors,
            i <= gguf.tensors@.len() == all.len(),
            named_types(r@) == unknown_tensors(kept(all.take(i as int))),
        decreases gguf.tensors@.len() - i,
    {
        let t = &gguf.tensors[i];
        let ghost done = kept(all.take(i as int));
        let ghost before = r@;
        proof {
            assert(all[i as int] == t@);
            lemma_kept_step(all, i as int);
            assert(done.push(t@).drop_last() =~= done);
        }
        if goes_out(t.name.as_str()) {
            match t.ggml_type {
                0 | 1 | 2 | 3 | 6 | 7 | 8 | 9 | 10 | 11 | 12 | 13 | 14 | 17 => {},
                _ => {
                    let name = t.name.clone();
                    r.push((name, t.ggml_type));
                    assert(named_types(r@) =~= named_types(before).push((t.name@, t.ggml_type)));
                },
            }
        }
        i = i + 1;
    }
    assert(all.take(i as int) =~= all);
    r
}

fn goes_out(name: &str) -> (r: bool)
    ensures
        r == is_kept(name@),
{
    !contains(name, "output.") || same_text(name, "output.weight")
}

/// The table items and the data of the tensors that go into the output.
fn output_tensors<U: FloatUnit>(gguf: &GgufFile, file: &[u8], unit: &U) -> (r: Result<
    (Vec<TensorItem>, Vec<Vec<u8>>),
    GgufConvertError,
>)
    ensures
        match r {
            Ok(x) => items_model(x.0@) == info_items(kept(gguf@.tensors)) && are_gguf_data(
                unit,
                kept(gguf@.tensors),
                file@,
                x.1@,
            ),
            Err(e) => (e == GgufConvertError::OutOfFile && one_outside(gguf@.tensors, file@)) || (e
                == GgufConvertError::TooLarge && one_too_large(gguf@.tensors, file@)),
        },
{
    let ghost all = gguf@.tensors;
    let mut items: Vec<TensorItem> = Vec::new();
    let mut data: Vec<Vec<u8>> = Vec::new();
    let mut i: usize = 0;
    assert(all.take(0) =~= Seq::<InfoModel>::empty());
    assert(items_model(items@) =~= info_items(kept(all.take(0))));
    while i < gguf.tensors.len()
        invariant
            all == gguf@.tensors,
            i <= gguf.tensors@.len() == all.len(),
            items_model(items@) == info_items(kept(all.take(i as int))),
            are_gguf_data(unit, kept(all.take(i as int)), file@, data@),
        decreases gguf.tensors@.len() - i,
    {
        let t = &gguf.tensors[i];
        let ghost done = kept(all.take(i as int));
        let ghost items0 = items@;
        let ghost data0 = data@;
        proof {
            assert(all[i as int] == t@);
            lemma_kept_step(all, i as int);
        }
        if goes_out(t.name.as_str()) {
            assert(is_kept(all[i as int].name));
            let (item, n) = match output_item(t) {
                Some(x) => x,
                None => {
                    return Err(GgufConvertError::TooLarge);
                },
            };
            let bytes = match output_data(t, n, file, unit) {
                Ok(b) => b,
                Err(e) => {
                    return Err(e);
                },
            };
            items.push(item);
            data.push(bytes);
            proof {
                let now = done.push(t@);
                assert(items_model(items0).len() == info_items(done).len());
                assert forall|k: int| 0 <= k < now.len() implies #[trigger] items_model(items@)[k]
                    == info_items(now)[k] by {
                    if k < done.len() {
                        assert(items_model(items0)[k] == info_items(done)[k]);
                        assert(now[k] == done[k]);
                    }
                }
                assert(items_model(items@) =~= info_items(now));
                assert forall|k: int| 0 <= k < now.len() implies is_output_data(
                    unit,
                    now[k],
                    file@,
                    #[trigger] data@[k]@,
                ) by {
                    if k < done.len() {
                        assert(data@[k] == data0[k]);
                        assert(now[k] == done[k]);
                        assert(is_output_data(unit, done[k], file@, data0[k]@));
                    }
                }
            }
        }
        i = i + 1;
    }
    assert(all.take(i as int) =~= all);
    Ok((items, data))
}

/// `metas` and `data` are the metadata and the data of the tensors of the output.
pub open spec fn are_output_parts<U: FloatUnit>(
    u: &U,
    file: Seq<u8>,
    metas: Seq<MetaModel>,
    data: Seq<Vec<u8>>,
) -> bool {
    &&& are_gguf_data(u, kept(gguf_of(file)->Ok_0.tensors), file, data)
    &&& exists|map: Map<Seq<char>, Seq<char>>|
        {
            &&& #[trigger] are_texts(u, pairs_map(gguf_of(file)->Ok_0.entries), map)
            &&& are_model_entries(u, map, metas)
        }
}

/// The table items of the output.
pub open spec fn output_items(file: Seq<u8>) -> Seq<ItemModel> {
    info_items(kept(gguf_of(file)->Ok_0.tensors))
}

/// The length of each tensor's data is that of its elements.
pub open spec fn lengths_known(infos: Seq<InfoModel>) -> bool {
    forall|i: int|
        0 <= i < infos.len() ==> (#[trigger] infos[i]).data_len == ggml_len(
            infos[i].ggml_type,
            product(infos[i].dims),
        )
}

proof fn lemma_lengths_known(d: Seq<u8>, p: int, n: nat)
    requires
        run_at(info_reader(d), p, n) is Ok,
    ensures
        lengths_known(run_at(info_reader(d), p, n)->Ok_0.0),
    decreases n,
{
    if n > 0 {
        lemma_lengths_known(d, p, (n - 1) as nat);
    }
}

proof fn lemma_kept_lengths(infos: Seq<InfoModel>)
    requires
        lengths_known(infos),
    ensures
        lengths_known(kept(infos)),
    decreases infos.len(),
{
    if infos.len() > 0 {
        lemma_kept_lengths(infos.drop_last());
    }
}

/// Data of a tensor is never longer than its place in the output, and as long as that where the
/// file holds all of it.
proof fn lemma_gguf_data_len<U: FloatUnit>(u: &U, t: InfoModel, file: Seq<u8>, out: Seq<u8>)
    requires
        t.data_len == ggml_len(t.ggml_type, product(t.dims)),
        in_file(t, file),
        is_gguf_data(u, t, file, out),
    ensures
        out.len() <= info_item(t).data_len(),
        t.offset + t.data_len <= file.len() ==> out.len() == info_item(t).data_len(),
{
    let n = product(t.dims);
    if direct_dtype(t.ggml_type) is Some {
        law_direct_types_have_one_layout(t.ggml_type, n);
    } else if is_block_type(t.ggml_type) {
        let size = block_values_of(t.ggml_type);
        let bytes = block_bytes_of(t.ggml_type);
        let blocks = blocks_of(size, n);
        vstd::arithmetic::div_mod::lemma_div_multiples_vanish(blocks as int, bytes as int);
        vstd::arithmetic::mul::lemma_mul_is_commutative(blocks as int, bytes as int);
        assert((blocks * bytes) / bytes == blocks);
        vstd::arithmetic::div_mod::lemma_fundamental_div_mod(n as int, size as int);
        let whole = n / size;
        let rest = n % size;
        assert(size * blocks >= n) by (nonlinear_arith)
            requires
                n == size * whole + rest,
                rest < size,
                blocks == whole + 1 || (blocks == whole && rest == 0),
        ;
    }
}

proof fn lemma_output_lengths<U: FloatUnit>(u: &U, file: Seq<u8>, data: Seq<Vec<u8>>)
    requires
        gguf_of(file) is Ok,
        are_gguf_data(u, kept(gguf_of(file)->Ok_0.tensors), file, data),
    ensures
        lengths_known(kept(gguf_of(file)->Ok_0.tensors)),
        forall|i: int|
            0 <= i < output_items(file).len() ==> (#[trigger] some_data(data)[i] matches Some(d)
                ==> d.len() <= output_items(file)[i].data_len()),
{
    let infos = gguf_of(file)->Ok_0.tensors;
    let metas = num_at(file, 16, 8)->Ok_0.0;
    let p = run_at(entry_reader(file), 24, metas)->Ok_0.1;
    lemma_lengths_known(file, p, num_at(file, 8, 8)->Ok_0.0);
    lemma_kept_lengths(infos);
    assert forall|i: int| 0 <= i < output_items(file).len() implies (#[trigger] some_data(
        data,
    )[i] matches Some(d) ==> d.len() <= output_items(file)[i].data_len()) by {
        let t = kept(infos)[i];
        assert(is_output_data(u, t, file, data[i]@));
        lemma_gguf_data_len(u, t, file, data[i]@);
    }
}

/// What a read gives back of a converted GGUF file that holds all of its tensors: the tensor with a
/// name that no earlier one has is found by that name, with its data in the output and its element
/// type.
pub proof fn law_converted_gguf_reads_back<U: FloatUnit>(
    u: &U,
    file: Seq<u8>,
    metas: Seq<MetaModel>,
    data: Seq<Vec<u8>>,
    i: int,
)
    requires
        gguf_of(file) is Ok,
        are_output_parts(u, file, metas, data),
        plan_fits(metas, output_items(file)),
        forall|k: int|
            0 <= k < kept(gguf_of(file)->Ok_0.tensors).len() ==> (#[trigger] kept(
                gguf_of(file)->Ok_0.tensors,
            )[k]).offset + kept(gguf_of(file)->Ok_0.tensors)[k].data_len <= file.len(),
        0 <= i < output_items(file).len(),
        forall|k: int|
            0 <= k < i ==> (#[trigger] output_items(file)[k]).name != output_items(file)[i].name,
    ensures
        ({
            let items = output_items(file);
            let out = image_of(planned(metas, items), some_data(data), items.len());
            &&& manifest_of(out) is Ok
            &&& manifest_of(out)->Ok_0.0 == planned(metas, items)
            &&& tensor_data(out, manifest_of(out)->Ok_0.0.tensors, items[i].name) == Some(
                (data[i]@, items[i].dtype),
            )
            &&& data[i]@.len() == items[i].data_len()
        }),
{
    let items = output_items(file);
    let infos = kept(gguf_of(file)->Ok_0.tensors);
    lemma_output_lengths(u, file, data);
    assert forall|k: int| 0 <= k < items.len() implies (#[trigger] some_data(data)[k] matches Some(d)
        && d.len() == items[k].data_len()) by {
        assert(infos[k].offset + infos[k].data_len <= file.len());
        assert(is_output_data(u, infos[k], file, data[k]@));
        lemma_gguf_data_len(u, infos[k], file, data[k]@);
    }
    law_file_round_trip(metas, items, some_data(data));
    law_tensor_round_trip(metas, items, some_data(data), i);
    assert(some_data(data)[i] is Some);
}

/// A converted GGUF file.
#[derive(Debug, PartialEq, Eq)]
pub struct ConvertedGguf {
    pub file: Vec<u8>,
    /// Names and types of the tensors that are zeros, because their type is not known.
    pub zero_filled: Vec<(String, u32)>,
}

/// Converts a GGUF file.
pub fn convert_gguf_to_hypno<U: FloatUnit>(file: &[u8], unit: &U) -> (r: Result<
    ConvertedGguf,
    GgufConvertError,
>)
    ensures
        ({
            let gguf = gguf_of(file@);
            let infos = gguf->Ok_0.tensors;
            let items = output_items(file@);
            match r {
                Ok(out) => gguf is Ok && named_types(out.zero_filled@) == unknown_tensors(
                    kept(infos),
                ) && exists|metas: Seq<MetaModel>, data: Seq<Vec<u8>>|
                    {
                        &&& #[trigger] are_output_parts(unit, file@, metas, data)
                        &&& plan_fits(metas, items)
                        &&& out.file@ == image_of(
                            planned(metas, items),
                            some_data(data),
                            items.len(),
                        )
                    },
                Err(GgufConvertError::Read(e)) => gguf == Err::<GgufModel, GgufError>(e),
                Err(GgufConvertError::OutOfFile) => gguf is Ok && one_outside(infos, file@),
                Err(GgufConvertError::TooLarge) => gguf is Ok && (one_too_large(infos, file@)
                    || exists|metas: Seq<MetaModel>, data: Seq<Vec<u8>>|
                    {
                        &&& #[trigger] are_output_parts(unit, file@, metas, data)
                        &&& !plan_fits(metas, items)
                    }),
            }
        }),
{
    let gguf = match parse_gguf(file) {
        Ok(f) => f,
        Err(e) => {
            return Err(GgufConvertError::Read(e));
        },
    };
    let zero_filled = find_unknown(&gguf);
    let map = metadata_texts(&gguf, unit);
    let metas = model_metadata(&map, unit);
    let (items, data) = match output_tensors(&gguf, file, unit) {
        Ok(x) => x,
        Err(e) => {
            return Err(e);
        },
    };
    let ghost model_metas = metas_model(metas@);
    proof {
        assert(are_texts(unit, pairs_map(gguf@.entries), contents(map@)));
        assert(are_output_parts(unit, file@, model_metas, data@));
        assert(items_model(items@).len() == output_items(file@).len());
        lemma_output_lengths(unit, file@, data@);
        if plan_fits(model_metas, output_items(file@)) {
            lemma_data_has_room(
                model_metas,
                output_items(file@),
                some_data(data@),
                output_items(file@).len(),
            );
        }
    }
    match assemble(metas, &items, &data) {
        Ok(out) => Ok(ConvertedGguf { file: out, zero_filled }),
        Err(_) => Err(GgufConvertError::TooLarge),
    }
}

/// "output." stands somewhere in a name.
pub open spec fn names_output(name: Seq<char>) -> bool {
    exists|p: int|
        0 <= p && p + 7 <= name.len() && #[trigger] name.subrange(p, p + 7) == "output."@
}

proof fn lemma_output_in_name(name: Seq<char>)
    ensures
        has_infix(name, "output."@) == names_output(name),
{
    reveal_strlit("output.");
    let o = "output."@;
    if names_output(name) {
        let p = choose|p: int|
            0 <= p && p + 7 <= name.len() && #[trigger] name.subrange(p, p + 7) == o;
        assert(crate::text::occurs_at(name, o, p));
    }
    if has_infix(name, o) {
        let p = choose|p: int| crate::text::occurs_at(name, o, p);
        assert(name.subrange(p, p + 7) == o);
    }
}

/// Which tensors of a GGUF file go into the output: all but those with "output." in their name, and of
/// these "output.weight". They keep their names, their dimensions and their order.
pub proof fn law_tensors_are_kept_by_name(infos: Seq<InfoModel>, i: int)
    requires
        0 <= i < infos.len(),
    ensures
        !names_output(infos[i].name) || infos[i].name == "output.weight"@ ==> exists|k: int|
            0 <= k < kept(infos).len() && #[trigger] kept(infos)[k] == infos[i] && info_items(
                kept(infos),
            )[k].name == infos[i].name && info_items(kept(infos))[k].shape == infos[i].dims,
        names_output(infos[i].name) && infos[i].name != "output.weight"@ ==> !kept(infos).contains(
            infos[i],
        ),
    decreases infos.len(),
{
    lemma_output_in_name(infos[i].name);
    let front = infos.drop_last();
    if i < infos.len() - 1 {
        law_tensors_are_kept_by_name(front, i);
        if !names_output(infos[i].name) || infos[i].name == "output.weight"@ {
            let k = choose|k: int| 0 <= k < kept(front).len() && #[trigger] kept(front)[k] == front[i];
            assert(kept(infos)[k] == infos[i]);
        }
    } else if is_kept(infos[i].name) {
        assert(kept(infos)[kept(infos).len() - 1] == infos[i]);
    }
    if !is_kept(infos[i].name) {
        lemma_all_kept(infos);
        if kept(infos).contains(infos[i]) {
            let k = kept(infos).index_of(infos[i]);
            assert(is_kept(kept(infos)[k].name));
        }
    }
}

proof fn lemma_all_kept(infos: Seq<InfoModel>)
    ensures
        forall|k: int| 0 <= k < kept(infos).len() ==> is_kept((#[trigger] kept(infos)[k]).name),
    decreases infos.len(),
{
    if infos.len() > 0 {
        let front = infos.drop_last();
        lemma_all_kept(front);
        assert forall|k: int| 0 <= k < kept(infos).len() implies is_kept(
            (#[trigger] kept(infos)[k]).name,
        ) by {
            if k < kept(front).len() {
                assert(is_kept(kept(front)[k].name));
            }
        }
    }
}

/// Tensors of plain 32-bit and 16-bit values, and of blocks of 4 and of 8 bits, are copied byte by byte from
/// where the file has them, and keep their type.
pub proof fn law_direct_tensors_are_copied<U: FloatUnit>(
    u: &U,
    t: InfoModel,
    file: Seq<u8>,
    out: Seq<u8>,
    i: int,
)
    requires
        t.ggml_type == 0 || t.ggml_type == 1 || t.ggml_type == 2 || t.ggml_type == 8,
        t.offset + t.data_len <= file.len(),
        is_gguf_data(u, t, file, out),
        0 <= i < t.data_len,
    ensures
        out.len() == t.data_len,
        out[i] == file[t.offset + i],
        info_item(t).dtype == if t.ggml_type == 0 {
            DType::FP32
        } else if t.ggml_type == 1 {
            DType::FP16
        } else if t.ggml_type == 2 {
            DType::Q4_0
        } else {
            DType::Q8_0
        },
{
}

/// A block of 20 bytes holds 32 values with a smallest one: a 16-bit scale, the smallest value in 16 bits,
/// and half a byte for each value, the lower half of byte `j` for value `2 j`. A value is its half byte
/// times the scale, plus the smallest value.
pub proof fn law_values_with_a_smallest_one<U: FloatUnit>(
    u: &U,
    raw: Seq<u8>,
    b: int,
    j: int,
    r: u32,
)
    requires
        0 <= b,
        0 <= j < 32,
        20 * b + 20 <= raw.len(),
        is_q4_1_value(u, raw, 32 * b + j, r),
    ensures
        exists|w: u32, m: u32, p: u32|
            {
                &&& #[trigger] is_wide(u, (raw[20 * b] + 256 * raw[20 * b + 1]) as u16, w)
                &&& #[trigger] is_wide(u, (raw[20 * b + 2] + 256 * raw[20 * b + 3]) as u16, m)
                &&& is_scaled(
                    u,
                    if j % 2 == 0 {
                        raw[20 * b + 4 + j / 2] % 16
                    } else {
                        raw[20 * b + 4 + j / 2] / 16
                    } as i32,
                    w,
                    p,
                )
                &&& #[trigger] is_sum(u, p, m, r)
            },
{
    let i = 32 * b + j;
    let at = 20 * b;
    assert(i / 32 == b && i % 32 == j);
    lemma_two_bytes(raw, at);
    lemma_two_bytes(raw, at + 2);
    let qs = raw.subrange(at + 4, at + 20);
    assert(qs[j / 2] == raw[at + 4 + j / 2]);
    let step = nibble_step(qs, j) + 8;
    let (w, m, p) = choose|w: u32, m: u32, p: u32|
        {
            &&& #[trigger] is_wide(u, le_value(raw.subrange(at, at + 2)) as u16, w)
            &&& #[trigger] is_wide(u, le_value(raw.subrange(at + 2, at + 4)) as u16, m)
            &&& #[trigger] is_scaled(u, step as i32, w, p)
            &&& is_sum(u, p, m, r)
        };
    assert(is_wide(u, (raw[at] + 256 * raw[at + 1]) as u16, w));
    assert(is_wide(u, (raw[at + 2] + 256 * raw[at + 3]) as u16, m));
    let half = if j % 2 == 0 {
        raw[20 * b + 4 + j / 2] % 16
    } else {
        raw[20 * b + 4 + j / 2] / 16
    };
    assert(is_scaled(u, half as i32, w, p));
}

proof fn lemma_two_bytes(d: Seq<u8>, at: int)
    requires
        0 <= at,
        at + 2 <= d.len(),
    ensures
        le_value(d.subrange(at, at + 2)) == d[at] + 256 * d[at + 1],
{
    reveal_with_fuel(le_value, 3);
    let s = d.subrange(at, at + 2);
    let rest = s.subrange(1, 2);
    assert(s[0] == d[at] && rest[0] == d[at + 1]);
    assert(le_value(rest.subrange(1, 1)) == 0);
}

} // verus!
