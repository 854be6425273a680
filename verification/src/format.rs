//! The binary layout of `.hypno` files.
//!
//! A file holds, one after another and with all integers little-endian:
//! a header of 16 bytes (magic, version, number of metadata entries, number of tensors);
//! the metadata entries (key and value, each a `u32` length and UTF-8 text);
//! the tensor table (name, number of dimensions, dimensions, element type, offset, length);
//! and the tensor data, each tensor at a multiple of 64 bytes.

use vstd::prelude::*;
use vstd::utf8::{decode_utf8, encode_utf8, valid_utf8};
use crate::bytes::{le_bytes, le_value, read_le};
use crate::bytes::{
    lemma_le_bytes_len, lemma_le_round_trip, lemma_le_value_bound, lemma_le_value_bytes,
    lemma_pow256_values,
};
use crate::dtype::DType;
use crate::layout::{
    flat, lemma_run_error, lemma_run_reads_flat, lemma_run_was_flat, lemma_stands_concat, run_at,
    stands_at,
};
use crate::text::{decimal, decimal_digits, join, joined, texts};

verus! {

/// The first four bytes of every file: "HYPN" in ASCII.
pub const MAGIC_BYTES: [u8; 4] = [0x48, 0x59, 0x50, 0x4E];

/// The version of the layout.
pub const FORMAT_VERSION: u32 = 1;

/// Tensor data starts at multiples of this many bytes.
pub const ALIGNMENT: u64 = 64;

/// Bytes of the header.
pub const HEADER_LEN: usize = 16;

/// The length of the longest prefix of `bytes` that is UTF-8.
pub open spec fn valid_prefix_len(bytes: Seq<u8>) -> nat {
    choose|n: nat|
        n <= bytes.len() && #[trigger] valid_utf8(bytes.take(n as int)) && forall|m: nat|
            n < m <= bytes.len() ==> !#[trigger] valid_utf8(bytes.take(m as int))
}

/// The length of the sequence behind the longest prefix that is UTF-8; `None` where it is
/// incomplete (`Utf8Error::error_len`).
pub uninterp spec fn utf8_error_len(bytes: Seq<u8>) -> Option<usize>;

/// Reads UTF-8 text, through `std::str::from_utf8`: the text that the bytes encode, or, where not
/// all of them are UTF-8, the length of the longest prefix that is (`Utf8Error::valid_up_to`) and
/// that of the sequence behind it (`Utf8Error::error_len`), which is named.
#[verifier::external_body]
pub(crate) fn read_utf8(bytes: &[u8]) -> (r: Result<&str, (usize, Option<usize>)>)
    ensures
        r matches Ok(s) ==> valid_utf8(bytes@) && s@ == decode_utf8(bytes@),
        r matches Err((n, l)) ==> !valid_utf8(bytes@) && n == valid_prefix_len(bytes@) && l
            == utf8_error_len(bytes@),
{
    std::str::from_utf8(bytes).map_err(|e| (e.valid_up_to(), e.error_len()))
}

/// The product of the dimensions of a shape: the number of elements.
pub open spec fn product(shape: Seq<u64>) -> nat
    decreases shape.len(),
{
    if shape.len() == 0 {
        1
    } else {
        product(shape.drop_last()) * shape.last() as nat
    }
}

proof fn lemma_product_zero(shape: Seq<u64>, i: int)
    requires
        0 <= i < shape.len(),
        shape[i] == 0,
    ensures
        product(shape) == 0,
    decreases shape.len(),
{
    let front = shape.drop_last();
    if i < front.len() {
        lemma_product_zero(front, i);
    }
    assert(product(front) * shape.last() as nat == 0) by (nonlinear_arith)
        requires
            product(front) == 0 || shape.last() == 0,
    ;
}

proof fn lemma_product_grows(shape: Seq<u64>, n: nat)
    requires
        n <= shape.len(),
        forall|i: int| 0 <= i < shape.len() ==> shape[i] > 0,
    ensures
        1 <= product(shape.take(n as int)) <= product(shape),
    decreases shape.len(),
{
    if shape.len() == 0 {
        assert(shape.take(n as int) =~= shape);
    } else if n == shape.len() {
        assert(shape.take(n as int) =~= shape);
        let front = shape.drop_last();
        lemma_product_grows(front, front.len());
        assert(front.take(front.len() as int) =~= front);
        assert(product(front) * shape.last() as nat >= 1) by (nonlinear_arith)
            requires
                product(front) >= 1,
                shape.last() >= 1,
        ;
    } else {
        let front = shape.drop_last();
        lemma_product_grows(front, n);
        assert(front.take(n as int) =~= shape.take(n as int));
        assert(product(front) * shape.last() as nat >= product(front)) by (nonlinear_arith)
            requires
                shape.last() >= 1,
        ;
    }
}

/// The number of elements of a tensor with the dimensions `shape`, or `None` where it is above
/// `u64::MAX`.
pub fn checked_product(shape: &[u64]) -> (r: Option<u64>)
    ensures
        r == if product(shape@) <= u64::MAX {
            Some(product(shape@) as u64)
        } else {
            None
        },
{
    let n: usize = shape.len();
    let mut i: usize = 0;
    while i < n
        invariant
            i <= n == shape@.len(),
            forall|j: int| 0 <= j < i ==> shape@[j] > 0,
        decreases n - i,
    {
        if shape[i] == 0 {
            proof {
                lemma_product_zero(shape@, i as int);
            }
            return Some(0);
        }
        i = i + 1;
    }
    let mut acc: u64 = 1;
    let mut k: usize = 0;
    while k < n
        invariant
            k <= n == shape@.len(),
            forall|j: int| 0 <= j < n ==> shape@[j] > 0,
            acc == product(shape@.take(k as int)),
        decreases n - k,
    {
        proof {
            assert(shape@.take(k + 1).drop_last() =~= shape@.take(k as int));
            lemma_product_grows(shape@, (k + 1) as nat);
        }
        match acc.checked_mul(shape[k]) {
            Some(next) => {
                acc = next;
            },
            None => {
                return None;
            },
        }
        k = k + 1;
    }
    assert(shape@.take(n as int) =~= shape@);
    Some(acc)
}

/// What can be wrong with a file. A `usize` in an error is `usize::MAX` where the number is
/// larger.
#[derive(Debug, Clone, Copy, PartialEq, Eq)]
pub enum FormatError {
    /// The file does not start with [`MAGIC_BYTES`]; it starts with these bytes.
    InvalidMagic([u8; 4]),
    /// The version is not [`FORMAT_VERSION`].
    UnsupportedVersion(u32),
    /// A text is not UTF-8 behind `valid_up_to` bytes. What stands there is a sequence of
    /// `error_len` bytes, or one that is incomplete.
    Utf8 { valid_up_to: usize, error_len: Option<usize> },
    /// The file ends before what it must hold.
    BufferTooShort { needed: usize, got: usize },
    /// No element type has this code.
    UnknownDType(u32),
    /// The data of a tensor is not within the file.
    InvalidOffset { offset: u64, file_size: u64 },
}

/// The mathematical content of a [`FormatError`].
pub enum FormatFault {
    InvalidMagic(Seq<u8>),
    UnsupportedVersion(u32),
    Utf8 { valid_up_to: nat, error_len: Option<usize> },
    BufferTooShort { needed: nat, got: nat },
    UnknownDType(u32),
    InvalidOffset { offset: u64, file_size: nat },
}

impl View for FormatError {
    type V = FormatFault;

    open spec fn view(&self) -> FormatFault {
        match *self {
            FormatError::InvalidMagic(m) => FormatFault::InvalidMagic(m@),
            FormatError::UnsupportedVersion(v) => FormatFault::UnsupportedVersion(v),
            FormatError::Utf8 { valid_up_to, error_len } => FormatFault::Utf8 {
                valid_up_to: valid_up_to as nat,
                error_len,
            },
            FormatError::BufferTooShort { needed, got } => FormatFault::BufferTooShort {
                needed: needed as nat,
                got: got as nat,
            },
            FormatError::UnknownDType(c) => FormatFault::UnknownDType(c),
            FormatError::InvalidOffset { offset, file_size } => FormatFault::InvalidOffset {
                offset,
                file_size: file_size as nat,
            },
        }
    }
}

/// The fixed part at the start of a file.
#[derive(Debug, Clone, Copy)]
pub struct HypnoHeader {
    /// The magic bytes, [`MAGIC_BYTES`] in a valid file.
    pub magic: [u8; 4],
    /// The version of the layout.
    pub version: u32,
    /// The number of metadata entries.
    pub metadata_kv_count: u32,
    /// The number of tensors.
    pub tensor_count: u32,
}

impl HypnoHeader {
    /// Whether magic and version are those of this layout.
    pub open spec fn valid(self) -> bool {
        self.magic@ == MAGIC_BYTES@ && self.version == FORMAT_VERSION
    }

    /// The 16 bytes of the header.
    pub open spec fn encoding(self) -> Seq<u8> {
        header_bytes(self.magic@, self.version, self.metadata_kv_count, self.tensor_count)
    }

    /// A header with the magic and the version of this layout.
    pub fn new(metadata_kv_count: u32, tensor_count: u32) -> (h: HypnoHeader)
        ensures
            h.magic@ == MAGIC_BYTES@,
            h.version == FORMAT_VERSION,
            h.metadata_kv_count == metadata_kv_count,
            h.tensor_count == tensor_count,
            h.valid(),
    {
        HypnoHeader { magic: MAGIC_BYTES, version: FORMAT_VERSION, metadata_kv_count, tensor_count }
    }

    /// Checks the magic, then the version.
    pub fn validate(&self) -> (r: Result<(), FormatError>)
        ensures
            r is Ok <==> self.valid(),
            r matches Err(e) ==> e@ == (if self.magic@ != MAGIC_BYTES@ {
                FormatFault::InvalidMagic(self.magic@)
            } else {
                FormatFault::UnsupportedVersion(self.version)
            }),
    {
        let m = self.magic;
        if m[0] != MAGIC_BYTES[0] || m[1] != MAGIC_BYTES[1] || m[2] != MAGIC_BYTES[2] || m[3]
            != MAGIC_BYTES[3] {
            return Err(FormatError::InvalidMagic(self.magic));
        }
        assert(m@ =~= MAGIC_BYTES@);
        if self.version != FORMAT_VERSION {
            return Err(FormatError::UnsupportedVersion(self.version));
        }
        Ok(())
    }
}

/// One metadata entry.
#[derive(Debug, Clone)]
pub struct MetaKV {
    pub key: String,
    pub value: String,
}

/// The mathematical content of a [`MetaKV`].
pub struct MetaModel {
    pub key: Seq<char>,
    pub value: Seq<char>,
}

impl View for MetaKV {
    type V = MetaModel;

    open spec fn view(&self) -> MetaModel {
        MetaModel { key: self.key@, value: self.value@ }
    }
}

impl MetaKV {
    /// Bytes of the entry in a file.
    pub fn serialized_size(&self) -> (r: usize)
        requires
            meta_bytes(self@).len() <= usize::MAX,
        ensures
            r == meta_bytes(self@).len(),
    {
        proof {
            lemma_meta_len(self@);
        }
        4 + self.key.as_str().len() + 4 + self.value.as_str().len()
    }
}

/// One entry of the tensor table.
#[derive(Debug, Clone)]
pub struct TensorMeta {
    /// The name, such as "model.layers.0.self_attn.q_proj.weight".
    pub name: String,
    /// The number of dimensions.
    pub ndim: u32,
    /// The dimensions in row-major order.
    pub shape: Vec<u64>,
    /// The element type.
    pub dtype: DType,
    /// Where the data starts in the file.
    pub offset: u64,
    /// Bytes of the data.
    pub data_len: u64,
}

/// The mathematical content of a [`TensorMeta`].
pub struct TensorModel {
    pub name: Seq<char>,
    pub ndim: u32,
    pub shape: Seq<u64>,
    pub dtype: DType,
    pub offset: u64,
    pub data_len: u64,
}

impl TensorModel {
    /// The stated number of dimensions is the number of dimensions.
    pub open spec fn wf(self) -> bool {
        self.ndim == self.shape.len()
    }

    /// The data lies within a file of `file_size` bytes.
    pub open spec fn within(self, file_size: nat) -> bool {
        self.offset + self.data_len <= file_size
    }
}

impl View for TensorMeta {
    type V = TensorModel;

    open spec fn view(&self) -> TensorModel {
        TensorModel {
            name: self.name@,
            ndim: self.ndim,
            shape: self.shape@,
            dtype: self.dtype,
            offset: self.offset,
            data_len: self.data_len,
        }
    }
}

impl TensorMeta {
    /// The number of elements.
    pub fn num_elements(&self) -> (r: usize)
        requires
            product(self.shape@) <= u64::MAX,
            product(self.shape@) <= usize::MAX,
        ensures
            r == product(self.shape@),
    {
        match checked_product(self.shape.as_slice()) {
            Some(n) => n as usize,
            None => 0,
        }
    }

    /// Bytes of the elements as 32-bit floats.
    pub fn uncompressed_bytes(&self) -> (r: usize)
        requires
            product(self.shape@) * 4 <= u64::MAX,
            product(self.shape@) * 4 <= usize::MAX,
        ensures
            r == product(self.shape@) * 4,
    {
        self.num_elements() * 4
    }

    /// Bytes of the entry in a file.
    pub fn serialized_size(&self) -> (r: usize)
        requires
            28 + encode_utf8(self.name@).len() + 8 * self.ndim <= usize::MAX,
        ensures
            r == 28 + encode_utf8(self.name@).len() + 8 * self.ndim,
            self@.wf() ==> r == tensor_bytes(self@).len(),
    {
        proof {
            if self@.wf() {
                lemma_tensor_len(self@);
            }
        }
        4 + self.name.as_str().len() + 4 + (self.ndim as usize) * 8 + 4 + 8 + 8
    }
}

/// The header, the metadata and the tensor table of a file.
#[derive(Debug, Clone)]
pub struct HypnoManifest {
    pub header: HypnoHeader,
    pub metadata: Vec<MetaKV>,
    pub tensors: Vec<TensorMeta>,
}

/// The contents of a metadata list.
pub open spec fn metas_model(v: Seq<MetaKV>) -> Seq<MetaModel> {
    Seq::new(v.len(), |i: int| v[i]@)
}

/// The contents of a tensor table.
pub open spec fn tensors_model(v: Seq<TensorMeta>) -> Seq<TensorModel> {
    Seq::new(v.len(), |i: int| v[i]@)
}

/// The mathematical content of a manifest with a valid header: the counts in the header are
/// the lengths of the two lists.
pub struct ManifestModel {
    pub metadata: Seq<MetaModel>,
    pub tensors: Seq<TensorModel>,
}

impl View for HypnoManifest {
    type V = ManifestModel;

    open spec fn view(&self) -> ManifestModel {
        ManifestModel {
            metadata: metas_model(self.metadata@),
            tensors: tensors_model(self.tensors@),
        }
    }
}

impl HypnoManifest {
    /// The header fits the two lists.
    pub open spec fn wf(self) -> bool {
        &&& self.header.valid()
        &&& self.header.metadata_kv_count == self.metadata@.len()
        &&& self.header.tensor_count == self.tensors@.len()
    }
}

/// The header as bytes.
pub open spec fn header_bytes(magic: Seq<u8>, version: u32, metas: u32, tensors: u32) -> Seq<u8> {
    magic + le_bytes(version as nat, 4) + le_bytes(metas as nat, 4) + le_bytes(tensors as nat, 4)
}

/// A text as bytes: its length in UTF-8, then its UTF-8.
pub open spec fn text_bytes(s: Seq<char>) -> Seq<u8> {
    le_bytes(encode_utf8(s).len(), 4) + encode_utf8(s)
}

/// Whether the length of a text fits its field.
pub open spec fn text_fits(s: Seq<char>) -> bool {
    encode_utf8(s).len() <= u32::MAX
}

/// A metadata entry as bytes.
pub open spec fn meta_bytes(m: MetaModel) -> Seq<u8> {
    text_bytes(m.key) + text_bytes(m.value)
}

pub open spec fn meta_fits(m: MetaModel) -> bool {
    text_fits(m.key) && text_fits(m.value)
}

/// The encoder of metadata entries.
pub open spec fn meta_encoder() -> spec_fn(MetaModel) -> Seq<u8> {
    |m: MetaModel| meta_bytes(m)
}

/// The encoder of dimensions.
pub open spec fn dim_encoder() -> spec_fn(u64) -> Seq<u8> {
    |d: u64| le_bytes(d as nat, 8)
}

/// An entry of the tensor table as bytes.
pub open spec fn tensor_bytes(t: TensorModel) -> Seq<u8> {
    text_bytes(t.name) + le_bytes(t.ndim as nat, 4) + flat(dim_encoder(), t.shape) + le_bytes(
        t.dtype.code() as nat,
        4,
    ) + le_bytes(t.offset as nat, 8) + le_bytes(t.data_len as nat, 8)
}

pub open spec fn tensor_fits(t: TensorModel) -> bool {
    t.wf() && text_fits(t.name)
}

/// The encoder of entries of the tensor table.
pub open spec fn tensor_encoder() -> spec_fn(TensorModel) -> Seq<u8> {
    |t: TensorModel| tensor_bytes(t)
}

/// Everything before the tensor data, as bytes.
pub open spec fn manifest_bytes(m: ManifestModel) -> Seq<u8> {
    header_bytes(MAGIC_BYTES@, FORMAT_VERSION, m.metadata.len() as u32, m.tensors.len() as u32)
        + flat(meta_encoder(), m.metadata) + flat(tensor_encoder(), m.tensors)
}

/// Whether every length and count of a manifest fits its field.
pub open spec fn manifest_fits(m: ManifestModel) -> bool {
    &&& m.metadata.len() <= u32::MAX
    &&& m.tensors.len() <= u32::MAX
    &&& forall|i: int| 0 <= i < m.metadata.len() ==> meta_fits(#[trigger] m.metadata[i])
    &&& forall|i: int| 0 <= i < m.tensors.len() ==> tensor_fits(#[trigger] m.tensors[i])
}

pub proof fn lemma_text_len(s: Seq<char>)
    ensures
        text_bytes(s).len() == 4 + encode_utf8(s).len(),
{
    lemma_le_bytes_len(encode_utf8(s).len(), 4);
}

pub proof fn lemma_meta_len(m: MetaModel)
    ensures
        meta_bytes(m).len() == 8 + encode_utf8(m.key).len() + encode_utf8(m.value).len(),
{
    lemma_text_len(m.key);
    lemma_text_len(m.value);
}

pub proof fn lemma_dims_len(shape: Seq<u64>)
    ensures
        flat(dim_encoder(), shape).len() == 8 * shape.len(),
    decreases shape.len(),
{
    if shape.len() > 0 {
        lemma_dims_len(shape.drop_last());
        lemma_le_bytes_len(shape.last() as nat, 8);
    }
}

pub proof fn lemma_tensor_len(t: TensorModel)
    ensures
        tensor_bytes(t).len() == 28 + encode_utf8(t.name).len() + 8 * t.shape.len(),
{
    lemma_text_len(t.name);
    lemma_dims_len(t.shape);
    lemma_le_bytes_len(t.ndim as nat, 4);
    lemma_le_bytes_len(t.dtype.code() as nat, 4);
    lemma_le_bytes_len(t.offset as nat, 8);
    lemma_le_bytes_len(t.data_len as nat, 8);
}

/// A length for an error: `usize::MAX` stands for anything larger.
pub open spec fn capped(n: int) -> nat {
    if n > usize::MAX {
        usize::MAX as nat
    } else {
        n as nat
    }
}

/// The fault of a file `d` that ends before position `needed`.
pub open spec fn too_short(d: Seq<u8>, needed: int) -> FormatFault {
    FormatFault::BufferTooShort { needed: capped(needed), got: d.len() }
}

/// Reads the `n` bytes of an integer at `p`.
pub open spec fn int_at(d: Seq<u8>, p: int, n: nat) -> Result<(nat, int), FormatFault> {
    if p + n > d.len() {
        Err(too_short(d, p + n))
    } else {
        Ok((le_value(d.subrange(p, p + n)), p + n))
    }
}

/// Reads a text at `p`.
pub open spec fn text_at(d: Seq<u8>, p: int) -> Result<(Seq<char>, int), FormatFault> {
    match int_at(d, p, 4) {
        Err(e) => Err(e),
        Ok((n, q)) => if q + n > d.len() {
            Err(too_short(d, q + n))
        } else if !valid_utf8(d.subrange(q, q + n)) {
            Err(
                FormatFault::Utf8 {
                    valid_up_to: valid_prefix_len(d.subrange(q, q + n)),
                    error_len: utf8_error_len(d.subrange(q, q + n)),
                },
            )
        } else {
            Ok((decode_utf8(d.subrange(q, q + n)), q + n))
        },
    }
}

/// Reads a metadata entry at `p`.
pub open spec fn meta_at(d: Seq<u8>, p: int) -> Result<(MetaModel, int), FormatFault> {
    match text_at(d, p) {
        Err(e) => Err(e),
        Ok((key, q)) => match text_at(d, q) {
            Err(e) => Err(e),
            Ok((value, r)) => Ok((MetaModel { key, value }, r)),
        },
    }
}

/// The reader of metadata entries of `d`.
pub open spec fn meta_reader(d: Seq<u8>) -> spec_fn(int) -> Result<(MetaModel, int), FormatFault> {
    |p: int| meta_at(d, p)
}

/// The reader of dimensions of `d`.
pub open spec fn dim_reader(d: Seq<u8>) -> spec_fn(int) -> Result<(u64, int), FormatFault> {
    |p: int|
        match int_at(d, p, 8) {
            Err(e) => Err(e),
            Ok((v, q)) => Ok((v as u64, q)),
        }
}

/// Reads the part of a table entry behind the dimensions: type, offset and length.
pub open spec fn tensor_tail_at(
    d: Seq<u8>,
    p: int,
    name: Seq<char>,
    shape: Seq<u64>,
) -> Result<(TensorModel, int), FormatFault> {
    match int_at(d, p, 4) {
        Err(e) => Err(e),
        Ok((code, q)) => match DType::of_code(code as u32) {
            None => Err(FormatFault::UnknownDType(code as u32)),
            Some(dtype) => match int_at(d, q, 8) {
                Err(e) => Err(e),
                Ok((offset, r)) => match int_at(d, r, 8) {
                    Err(e) => Err(e),
                    Ok((data_len, s)) => if offset + data_len > d.len() {
                        Err(
                            FormatFault::InvalidOffset {
                                offset: offset as u64,
                                file_size: d.len(),
                            },
                        )
                    } else {
                        Ok(
                            (
                                TensorModel {
                                    name,
                                    ndim: shape.len() as u32,
                                    shape,
                                    dtype,
                                    offset: offset as u64,
                                    data_len: data_len as u64,
                                },
                                s,
                            ),
                        )
                    },
                },
            },
        },
    }
}

/// Reads an entry of the tensor table at `p`. Its data must lie within `d`.
pub open spec fn tensor_at(d: Seq<u8>, p: int) -> Result<(TensorModel, int), FormatFault> {
    match text_at(d, p) {
        Err(e) => Err(e),
        Ok((name, q)) => match int_at(d, q, 4) {
            Err(e) => Err(e),
            Ok((ndim, r)) => match run_at(dim_reader(d), r, ndim) {
                Err(e) => Err(e),
                Ok((shape, s)) => tensor_tail_at(d, s, name, shape),
            },
        },
    }
}

/// The reader of table entries of `d`.
pub open spec fn tensor_reader(d: Seq<u8>) -> spec_fn(int) -> Result<
    (TensorModel, int),
    FormatFault,
> {
    |p: int| tensor_at(d, p)
}

/// Reads the header of `d`: the two counts.
pub open spec fn header_of(d: Seq<u8>) -> Result<(u32, u32), FormatFault> {
    if d.len() < 16 {
        Err(too_short(d, 16))
    } else if d.subrange(0, 4) != MAGIC_BYTES@ {
        Err(FormatFault::InvalidMagic(d.subrange(0, 4)))
    } else if le_value(d.subrange(4, 8)) != FORMAT_VERSION {
        Err(FormatFault::UnsupportedVersion(le_value(d.subrange(4, 8)) as u32))
    } else {
        Ok((le_value(d.subrange(8, 12)) as u32, le_value(d.subrange(12, 16)) as u32))
    }
}

/// Reads everything before the tensor data: the manifest and the position behind it, or the
/// first thing that is wrong.
pub open spec fn manifest_of(d: Seq<u8>) -> Result<(ManifestModel, int), FormatFault> {
    match header_of(d) {
        Err(e) => Err(e),
        Ok((metas, tensors)) => match run_at(meta_reader(d), 16, metas as nat) {
            Err(e) => Err(e),
            Ok((metadata, p)) => match run_at(tensor_reader(d), p, tensors as nat) {
                Err(e) => Err(e),
                Ok((table, q)) => Ok((ManifestModel { metadata, tensors: table }, q)),
            },
        },
    }
}

fn short(data: &[u8], cursor: usize, more: usize) -> (e: FormatError)
    ensures
        e@ == too_short(data@, cursor + more),
{
    FormatError::BufferTooShort { needed: cursor.saturating_add(more), got: data.len() }
}

/// Reads a `u32` at `cursor`.
pub fn read_u32(data: &[u8], cursor: usize) -> (r: Result<(u32, usize), FormatError>)
    ensures
        r matches Ok(x) ==> int_at(data@, cursor as int, 4) == Ok::<(nat, int), FormatFault>(
            (x.0 as nat, x.1 as int),
        ) && cursor + 4 == x.1 <= data@.len(),
        r matches Err(e) ==> int_at(data@, cursor as int, 4) == Err::<(nat, int), FormatFault>(e@),
{
    if data.len() < 4 || cursor > data.len() - 4 {
        return Err(short(data, cursor, 4));
    }
    proof {
        lemma_le_value_bound(data@.subrange(cursor as int, cursor + 4));
        lemma_pow256_values();
    }
    Ok((read_le(data, cursor, 4) as u32, cursor + 4))
}

/// Reads a `u64` at `cursor`.
pub fn read_u64(data: &[u8], cursor: usize) -> (r: Result<(u64, usize), FormatError>)
    ensures
        r matches Ok(x) ==> int_at(data@, cursor as int, 8) == Ok::<(nat, int), FormatFault>(
            (x.0 as nat, x.1 as int),
        ) && cursor + 8 == x.1 <= data@.len(),
        r matches Err(e) ==> int_at(data@, cursor as int, 8) == Err::<(nat, int), FormatFault>(e@),
{
    if data.len() < 8 || cursor > data.len() - 8 {
        return Err(short(data, cursor, 8));
    }
    Ok((read_le(data, cursor, 8), cursor + 8))
}

/// Reads a text at `cursor`.
fn read_text(data: &[u8], cursor: usize) -> (r: Result<(String, usize), FormatError>)
    requires
        cursor <= data@.len(),
    ensures
        r matches Ok(x) ==> text_at(data@, cursor as int) == Ok::<(Seq<char>, int), FormatFault>(
            (x.0@, x.1 as int),
        ) && cursor <= x.1 <= data@.len(),
        r matches Err(e) ==> text_at(data@, cursor as int) == Err::<(Seq<char>, int), FormatFault>(
            e@,
        ),
{
    let (len, start) = match read_u32(data, cursor) {
        Ok(x) => x,
        Err(e) => {
            return Err(e);
        },
    };
    let n: usize = len as usize;
    if data.len() - start < n {
        return Err(short(data, start, n));
    }
    let bytes = vstd::slice::slice_subrange(data, start, start + n);
    match read_utf8(bytes) {
        Ok(s) => Ok((s.to_owned(), start + n)),
        Err((valid_up_to, error_len)) => Err(FormatError::Utf8 { valid_up_to, error_len }),
    }
}

/// Reads the metadata entry at `cursor`.
fn read_meta(data: &[u8], cursor: usize) -> (r: Result<(MetaKV, usize), FormatError>)
    requires
        cursor <= data@.len(),
    ensures
        r matches Ok(x) ==> meta_at(data@, cursor as int) == Ok::<(MetaModel, int), FormatFault>(
            (x.0@, x.1 as int),
        ) && cursor <= x.1 <= data@.len(),
        r matches Err(e) ==> meta_at(data@, cursor as int) == Err::<(MetaModel, int), FormatFault>(
            e@,
        ),
{
    let (key, middle) = match read_text(data, cursor) {
        Ok(x) => x,
        Err(e) => {
            return Err(e);
        },
    };
    match read_text(data, middle) {
        Ok((value, end)) => Ok((MetaKV { key, value }, end)),
        Err(e) => Err(e),
    }
}

/// Reads `count` dimensions at `cursor`.
fn read_dims(data: &[u8], cursor: usize, count: u32) -> (r: Result<(Vec<u64>, usize), FormatError>)
    requires
        cursor <= data@.len(),
    ensures
        r matches Ok(x) ==> run_at(dim_reader(data@), cursor as int, count as nat) == Ok::<
            (Seq<u64>, int),
            FormatFault,
        >((x.0@, x.1 as int)) && x.0@.len() == count && cursor <= x.1 <= data@.len(),
        r matches Err(e) ==> run_at(dim_reader(data@), cursor as int, count as nat) == Err::<
            (Seq<u64>, int),
            FormatFault,
        >(e@),
{
    let mut dims: Vec<u64> = Vec::new();
    let mut at: usize = cursor;
    let mut i: u32 = 0;
    while i < count
        invariant
            i <= count,
            cursor <= at <= data@.len(),
            dims@.len() == i,
            run_at(dim_reader(data@), cursor as int, i as nat) == Ok::<
                (Seq<u64>, int),
                FormatFault,
            >((dims@, at as int)),
        decreases count - i,
    {
        match read_u64(data, at) {
            Ok((dim, next)) => {
                dims.push(dim);
                at = next;
            },
            Err(e) => {
                proof {
                    let f = dim_reader(data@);
                    assert(run_at(f, cursor as int, (i + 1) as nat) is Err);
                    lemma_run_error(f, cursor as int, (i + 1) as nat, count as nat);
                }
                return Err(e);
            },
        }
        i = i + 1;
    }
    Ok((dims, at))
}

/// Reads the entry of the tensor table at `cursor`.
fn read_tensor(data: &[u8], cursor: usize) -> (r: Result<(TensorMeta, usize), FormatError>)
    requires
        cursor <= data@.len(),
    ensures
        r matches Ok(x) ==> tensor_at(data@, cursor as int) == Ok::<
            (TensorModel, int),
            FormatFault,
        >((x.0@, x.1 as int)) && cursor <= x.1 <= data@.len(),
        r matches Err(e) ==> tensor_at(data@, cursor as int) == Err::<
            (TensorModel, int),
            FormatFault,
        >(e@),
{
    let (name, at1) = match read_text(data, cursor) {
        Ok(x) => x,
        Err(e) => {
            return Err(e);
        },
    };
    let (ndim, at2) = match read_u32(data, at1) {
        Ok(x) => x,
        Err(e) => {
            return Err(e);
        },
    };
    let (shape, at3) = match read_dims(data, at2, ndim) {
        Ok(x) => x,
        Err(e) => {
            return Err(e);
        },
    };
    let (code, at4) = match read_u32(data, at3) {
        Ok(x) => x,
        Err(e) => {
            return Err(e);
        },
    };
    let dtype = match DType::from_u32(code) {
        Some(t) => t,
        None => {
            return Err(FormatError::UnknownDType(code));
        },
    };
    let (offset, at5) = match read_u64(data, at4) {
        Ok(x) => x,
        Err(e) => {
            return Err(e);
        },
    };
    let (data_len, at6) = match read_u64(data, at5) {
        Ok(x) => x,
        Err(e) => {
            return Err(e);
        },
    };
    let file_size: u64 = data.len() as u64;
    if offset > file_size || data_len > file_size - offset {
        return Err(FormatError::InvalidOffset { offset, file_size });
    }
    Ok((TensorMeta { name, ndim, shape, dtype, offset, data_len }, at6))
}

/// Reads the header of a file.
fn read_header(data: &[u8]) -> (r: Result<HypnoHeader, FormatError>)
    ensures
        r matches Ok(h) ==> h.valid() && data@.len() >= 16 && header_of(data@) == Ok::<
            (u32, u32),
            FormatFault,
        >((h.metadata_kv_count, h.tensor_count)),
        r matches Err(e) ==> header_of(data@) == Err::<(u32, u32), FormatFault>(e@),
{
    if data.len() < HEADER_LEN {
        return Err(short(data, 0, HEADER_LEN));
    }
    proof {
        lemma_pow256_values();
        lemma_le_value_bound(data@.subrange(4, 8));
        lemma_le_value_bound(data@.subrange(8, 12));
        lemma_le_value_bound(data@.subrange(12, 16));
    }
    let magic: [u8; 4] = [data[0], data[1], data[2], data[3]];
    assert(magic@ =~= data@.subrange(0, 4));
    let header = HypnoHeader {
        magic,
        version: read_le(data, 4, 4) as u32,
        metadata_kv_count: read_le(data, 8, 4) as u32,
        tensor_count: read_le(data, 12, 4) as u32,
    };
    match header.validate() {
        Ok(()) => Ok(header),
        Err(e) => Err(e),
    }
}

/// Reads the manifest at the start of a file. A tensor whose data does not lie within `data` is
/// an error.
pub fn read_manifest(data: &[u8]) -> (r: Result<(HypnoManifest, usize), FormatError>)
    ensures
        r matches Ok(x) ==> x.0.wf() && manifest_of(data@) == Ok::<
            (ManifestModel, int),
            FormatFault,
        >((x.0@, x.1 as int)) && x.1 <= data@.len(),
        r matches Err(e) ==> manifest_of(data@) == Err::<(ManifestModel, int), FormatFault>(e@),
{
    let header = match read_header(data) {
        Ok(h) => h,
        Err(e) => {
            return Err(e);
        },
    };
    let mut metadata: Vec<MetaKV> = Vec::new();
    let mut at: usize = HEADER_LEN;
    let mut i: u32 = 0;
    let metas: u32 = header.metadata_kv_count;
    assert(metas_model(metadata@) =~= Seq::<MetaModel>::empty());
    while i < metas
        invariant
            i <= metas,
            at <= data@.len(),
            metadata@.len() == i,
            run_at(meta_reader(data@), 16, i as nat) == Ok::<(Seq<MetaModel>, int), FormatFault>(
                (metas_model(metadata@), at as int),
            ),
            header_of(data@) is Ok,
            header_of(data@)->Ok_0.0 == metas,
        decreases metas - i,
    {
        let ghost before = metadata@;
        match read_meta(data, at) {
            Ok((meta, next)) => {
                metadata.push(meta);
                at = next;
                assert(metas_model(metadata@) =~= metas_model(before).push(meta@));
            },
            Err(e) => {
                proof {
                    assert(run_at(meta_reader(data@), 16, (i + 1) as nat) is Err);
                    lemma_run_error(meta_reader(data@), 16, (i + 1) as nat, metas as nat);
                }
                return Err(e);
            },
        }
        i = i + 1;
    }
    let ghost table_start = at as int;
    let mut tensors: Vec<TensorMeta> = Vec::new();
    let mut k: u32 = 0;
    let count: u32 = header.tensor_count;
    assert(tensors_model(tensors@) =~= Seq::<TensorModel>::empty());
    while k < count
        invariant
            k <= count,
            at <= data@.len(),
            tensors@.len() == k,
            run_at(tensor_reader(data@), table_start, k as nat) == Ok::<
                (Seq<TensorModel>, int),
                FormatFault,
            >((tensors_model(tensors@), at as int)),
            header_of(data@) == Ok::<(u32, u32), FormatFault>((metas, count)),
            run_at(meta_reader(data@), 16, metas as nat) == Ok::<
                (Seq<MetaModel>, int),
                FormatFault,
            >((metas_model(metadata@), table_start)),
        decreases count - k,
    {
        let ghost before = tensors@;
        match read_tensor(data, at) {
            Ok((tensor, next)) => {
                tensors.push(tensor);
                at = next;
                assert(tensors_model(tensors@) =~= tensors_model(before).push(tensor@));
            },
            Err(e) => {
                proof {
                    assert(run_at(tensor_reader(data@), table_start, (k + 1) as nat) is Err);
                    lemma_run_error(
                        tensor_reader(data@),
                        table_start,
                        (k + 1) as nat,
                        count as nat,
                    );
                }
                return Err(e);
            },
        }
        k = k + 1;
    }
    Ok((HypnoManifest { header, metadata, tensors }, at))
}

proof fn lemma_int_read(d: Seq<u8>, p: int, v: nat, n: nat)
    requires
        v < crate::bytes::pow256(n),
        stands_at(d, p, le_bytes(v, n)),
    ensures
        int_at(d, p, n) == Ok::<(nat, int), FormatFault>((v, p + n)),
        le_bytes(v, n).len() == n,
{
    lemma_le_round_trip(v, n);
}

proof fn lemma_text_read(d: Seq<u8>, p: int, s: Seq<char>)
    requires
        text_fits(s),
        stands_at(d, p, text_bytes(s)),
    ensures
        text_at(d, p) == Ok::<(Seq<char>, int), FormatFault>((s, p + text_bytes(s).len())),
{
    let utf8 = encode_utf8(s);
    lemma_pow256_values();
    lemma_stands_concat(d, p, le_bytes(utf8.len(), 4), utf8);
    lemma_int_read(d, p, utf8.len(), 4);
    vstd::utf8::encode_utf8_valid_utf8(s);
    vstd::utf8::encode_utf8_decode_utf8(s);
}

proof fn lemma_meta_read(d: Seq<u8>, p: int, m: MetaModel)
    requires
        meta_fits(m),
        stands_at(d, p, meta_bytes(m)),
    ensures
        meta_at(d, p) == Ok::<(MetaModel, int), FormatFault>((m, p + meta_bytes(m).len())),
{
    lemma_stands_concat(d, p, text_bytes(m.key), text_bytes(m.value));
    lemma_text_read(d, p, m.key);
    lemma_text_read(d, p + text_bytes(m.key).len(), m.value);
}

proof fn lemma_tensor_read(d: Seq<u8>, p: int, t: TensorModel)
    requires
        tensor_fits(t),
        t.within(d.len()),
        stands_at(d, p, tensor_bytes(t)),
    ensures
        tensor_at(d, p) == Ok::<(TensorModel, int), FormatFault>((t, p + tensor_bytes(t).len())),
{
    lemma_pow256_values();
    let a = text_bytes(t.name);
    let b = le_bytes(t.ndim as nat, 4);
    let c = flat(dim_encoder(), t.shape);
    let e = le_bytes(t.dtype.code() as nat, 4);
    let f = le_bytes(t.offset as nat, 8);
    let g = le_bytes(t.data_len as nat, 8);
    lemma_stands_concat(d, p, a + b + c + e + f, g);
    lemma_stands_concat(d, p, a + b + c + e, f);
    lemma_stands_concat(d, p, a + b + c, e);
    lemma_stands_concat(d, p, a + b, c);
    lemma_stands_concat(d, p, a, b);
    lemma_text_read(d, p, t.name);
    let p1 = p + a.len();
    lemma_int_read(d, p1, t.ndim as nat, 4);
    let p2 = p1 + 4;
    assert forall|i: int, q: int|
        0 <= i < t.shape.len() && #[trigger] stands_at(
            d,
            q,
            dim_encoder()(t.shape[i]),
        ) implies dim_reader(d)(q) == Ok::<(u64, int), FormatFault>(
        (t.shape[i], q + dim_encoder()(t.shape[i]).len()),
    ) by {
        lemma_int_read(d, q, t.shape[i] as nat, 8);
    }
    lemma_run_reads_flat(dim_reader(d), dim_encoder(), d, p2, t.shape);
    let p3 = p2 + c.len();
    lemma_int_read(d, p3, t.dtype.code() as nat, 4);
    lemma_int_read(d, p3 + 4, t.offset as nat, 8);
    lemma_int_read(d, p3 + 12, t.data_len as nat, 8);
}

proof fn lemma_header_read(d: Seq<u8>, metas: u32, tensors: u32)
    requires
        stands_at(d, 0, header_bytes(MAGIC_BYTES@, FORMAT_VERSION, metas, tensors)),
    ensures
        header_of(d) == Ok::<(u32, u32), FormatFault>((metas, tensors)),
        header_bytes(MAGIC_BYTES@, FORMAT_VERSION, metas, tensors).len() == 16,
{
    lemma_pow256_values();
    let a = MAGIC_BYTES@;
    let b = le_bytes(FORMAT_VERSION as nat, 4);
    let c = le_bytes(metas as nat, 4);
    let e = le_bytes(tensors as nat, 4);
    lemma_stands_concat(d, 0, a + b + c, e);
    lemma_stands_concat(d, 0, a + b, c);
    lemma_stands_concat(d, 0, a, b);
    lemma_int_read(d, 4, FORMAT_VERSION as nat, 4);
    lemma_int_read(d, 8, metas as nat, 4);
    lemma_int_read(d, 12, tensors as nat, 4);
}

/// Reading a file gives back the manifest that was written at its start, whatever follows, if
/// the data of every tensor lies within the file.
pub proof fn law_manifest_round_trip(m: ManifestModel, rest: Seq<u8>)
    requires
        manifest_fits(m),
        forall|i: int|
            0 <= i < m.tensors.len() ==> (#[trigger] m.tensors[i]).within(
                (manifest_bytes(m) + rest).len(),
            ),
    ensures
        manifest_of(manifest_bytes(m) + rest) == Ok::<(ManifestModel, int), FormatFault>(
            (m, manifest_bytes(m).len() as int),
        ),
{
    let d = manifest_bytes(m) + rest;
    let h = header_bytes(
        MAGIC_BYTES@,
        FORMAT_VERSION,
        m.metadata.len() as u32,
        m.tensors.len() as u32,
    );
    let a = flat(meta_encoder(), m.metadata);
    let b = flat(tensor_encoder(), m.tensors);
    assert(d.subrange(0, manifest_bytes(m).len() as int) =~= manifest_bytes(m));
    assert(stands_at(d, 0, h + a + b));
    lemma_stands_concat(d, 0, h + a, b);
    lemma_stands_concat(d, 0, h, a);
    lemma_header_read(d, m.metadata.len() as u32, m.tensors.len() as u32);
    assert forall|i: int, q: int|
        0 <= i < m.metadata.len() && #[trigger] stands_at(
            d,
            q,
            meta_encoder()(m.metadata[i]),
        ) implies meta_reader(d)(q) == Ok::<(MetaModel, int), FormatFault>(
        (m.metadata[i], q + meta_encoder()(m.metadata[i]).len()),
    ) by {
        lemma_meta_read(d, q, m.metadata[i]);
    }
    lemma_run_reads_flat(meta_reader(d), meta_encoder(), d, 16, m.metadata);
    assert forall|i: int, q: int|
        0 <= i < m.tensors.len() && #[trigger] stands_at(
            d,
            q,
            tensor_encoder()(m.tensors[i]),
        ) implies tensor_reader(d)(q) == Ok::<(TensorModel, int), FormatFault>(
        (m.tensors[i], q + tensor_encoder()(m.tensors[i]).len()),
    ) by {
        lemma_tensor_read(d, q, m.tensors[i]);
    }
    lemma_run_reads_flat(tensor_reader(d), tensor_encoder(), d, 16int + a.len(), m.tensors);
}

proof fn lemma_int_was(d: Seq<u8>, p: int, n: nat)
    requires
        0 <= p,
        int_at(d, p, n) is Ok,
    ensures
        stands_at(d, p, le_bytes(int_at(d, p, n)->Ok_0.0, n)),
        le_bytes(int_at(d, p, n)->Ok_0.0, n).len() == n,
        int_at(d, p, n)->Ok_0.0 < crate::bytes::pow256(n),
{
    lemma_le_value_bytes(d.subrange(p, p + n));
    lemma_le_value_bound(d.subrange(p, p + n));
}

proof fn lemma_text_was(d: Seq<u8>, p: int)
    requires
        0 <= p,
        text_at(d, p) is Ok,
    ensures
        text_fits(text_at(d, p)->Ok_0.0),
        stands_at(d, p, text_bytes(text_at(d, p)->Ok_0.0)),
        text_at(d, p)->Ok_0.1 == p + text_bytes(text_at(d, p)->Ok_0.0).len(),
{
    lemma_int_was(d, p, 4);
    lemma_pow256_values();
    let n = int_at(d, p, 4)->Ok_0.0;
    let utf8 = d.subrange(p + 4, p + 4 + n);
    vstd::utf8::decode_utf8_encode_utf8(utf8);
    lemma_stands_concat(d, p, le_bytes(n, 4), utf8);
}

proof fn lemma_meta_was(d: Seq<u8>, p: int)
    requires
        0 <= p,
        meta_at(d, p) is Ok,
    ensures
        meta_fits(meta_at(d, p)->Ok_0.0),
        stands_at(d, p, meta_bytes(meta_at(d, p)->Ok_0.0)),
        meta_at(d, p)->Ok_0.1 == p + meta_bytes(meta_at(d, p)->Ok_0.0).len(),
{
    lemma_text_was(d, p);
    let m = meta_at(d, p)->Ok_0.0;
    let q = text_at(d, p)->Ok_0.1;
    lemma_text_was(d, q);
    lemma_stands_concat(d, p, text_bytes(m.key), text_bytes(m.value));
}

proof fn lemma_tensor_was(d: Seq<u8>, p: int)
    requires
        0 <= p,
        tensor_at(d, p) is Ok,
    ensures
        tensor_fits(tensor_at(d, p)->Ok_0.0),
        tensor_at(d, p)->Ok_0.0.within(d.len()),
        stands_at(d, p, tensor_bytes(tensor_at(d, p)->Ok_0.0)),
        tensor_at(d, p)->Ok_0.1 == p + tensor_bytes(tensor_at(d, p)->Ok_0.0).len(),
{
    lemma_pow256_values();
    let t = tensor_at(d, p)->Ok_0.0;
    lemma_text_was(d, p);
    let p1 = text_at(d, p)->Ok_0.1;
    lemma_int_was(d, p1, 4);
    let ndim = int_at(d, p1, 4)->Ok_0.0;
    let p2 = p1 + 4;
    assert forall|q: int| 0 <= q <= d.len() && (#[trigger] dim_reader(d)(q)) is Ok implies stands_at(
        d,
        q,
        dim_encoder()(dim_reader(d)(q)->Ok_0.0),
    ) && dim_reader(d)(q)->Ok_0.1 == q + dim_encoder()(dim_reader(d)(q)->Ok_0.0).len() by {
        lemma_int_was(d, q, 8);
    }
    lemma_run_was_flat(dim_reader(d), dim_encoder(), d, p2, ndim);
    let p3 = run_at(dim_reader(d), p2, ndim)->Ok_0.1;
    lemma_int_was(d, p3, 4);
    lemma_int_was(d, p3 + 4, 8);
    lemma_int_was(d, p3 + 12, 8);
    let a = text_bytes(t.name);
    let b = le_bytes(t.ndim as nat, 4);
    let c = flat(dim_encoder(), t.shape);
    let e = le_bytes(t.dtype.code() as nat, 4);
    let f = le_bytes(t.offset as nat, 8);
    let g = le_bytes(t.data_len as nat, 8);
    lemma_stands_concat(d, p, a, b);
    lemma_stands_concat(d, p, a + b, c);
    lemma_stands_concat(d, p, a + b + c, e);
    lemma_stands_concat(d, p, a + b + c + e, f);
    lemma_stands_concat(d, p, a + b + c + e + f, g);
}

/// A file that can be read starts with the bytes of the manifest that was read from it, and
/// the data of every tensor lies within the file.
pub proof fn law_read_manifest_was_written(d: Seq<u8>)
    requires
        manifest_of(d) is Ok,
    ensures
        manifest_fits(manifest_of(d)->Ok_0.0),
        stands_at(d, 0, manifest_bytes(manifest_of(d)->Ok_0.0)),
        manifest_of(d)->Ok_0.1 == manifest_bytes(manifest_of(d)->Ok_0.0).len(),
        forall|i: int|
            0 <= i < manifest_of(d)->Ok_0.0.tensors.len()
                ==> (#[trigger] manifest_of(d)->Ok_0.0.tensors[i]).within(d.len()),
{
    lemma_pow256_values();
    let m = manifest_of(d)->Ok_0.0;
    let (metas, tensors) = header_of(d)->Ok_0;
    let h = header_bytes(MAGIC_BYTES@, FORMAT_VERSION, metas, tensors);
    lemma_int_was(d, 4, 4);
    lemma_int_was(d, 8, 4);
    lemma_int_was(d, 12, 4);
    let b = le_bytes(FORMAT_VERSION as nat, 4);
    let c = le_bytes(metas as nat, 4);
    let e = le_bytes(tensors as nat, 4);
    assert(stands_at(d, 0, MAGIC_BYTES@));
    lemma_stands_concat(d, 0, MAGIC_BYTES@, b);
    lemma_stands_concat(d, 0, MAGIC_BYTES@ + b, c);
    lemma_stands_concat(d, 0, MAGIC_BYTES@ + b + c, e);
    assert forall|q: int|
        0 <= q <= d.len() && (#[trigger] meta_reader(d)(q)) is Ok implies stands_at(
        d,
        q,
        meta_encoder()(meta_reader(d)(q)->Ok_0.0),
    ) && meta_reader(d)(q)->Ok_0.1 == q + meta_encoder()(meta_reader(d)(q)->Ok_0.0).len() by {
        lemma_meta_was(d, q);
    }
    lemma_run_was_flat(meta_reader(d), meta_encoder(), d, 16, metas as nat);
    assert forall|q: int|
        0 <= q <= d.len() && (#[trigger] tensor_reader(d)(q)) is Ok implies stands_at(
        d,
        q,
        tensor_encoder()(tensor_reader(d)(q)->Ok_0.0),
    ) && tensor_reader(d)(q)->Ok_0.1 == q + tensor_encoder()(
        tensor_reader(d)(q)->Ok_0.0,
    ).len() by {
        lemma_tensor_was(d, q);
    }
    let p = run_at(meta_reader(d), 16, metas as nat)->Ok_0.1;
    lemma_run_was_flat(tensor_reader(d), tensor_encoder(), d, p, tensors as nat);
    lemma_stands_concat(d, 0, h, flat(meta_encoder(), m.metadata));
    lemma_stands_concat(
        d,
        0,
        h + flat(meta_encoder(), m.metadata),
        flat(tensor_encoder(), m.tensors),
    );
    lemma_metas_fit(d, 16, metas as nat);
    lemma_tensors_fit(d, p, tensors as nat);
}

proof fn lemma_metas_fit(d: Seq<u8>, p: int, n: nat)
    requires
        0 <= p <= d.len(),
        run_at(meta_reader(d), p, n) is Ok,
    ensures
        p <= run_at(meta_reader(d), p, n)->Ok_0.1 <= d.len(),
        forall|i: int|
            0 <= i < run_at(meta_reader(d), p, n)->Ok_0.0.len() ==> meta_fits(
                #[trigger] run_at(meta_reader(d), p, n)->Ok_0.0[i],
            ),
    decreases n,
{
    if n > 0 {
        lemma_metas_fit(d, p, (n - 1) as nat);
        let q = run_at(meta_reader(d), p, (n - 1) as nat)->Ok_0.1;
        assert(meta_reader(d)(q) is Ok);
        lemma_meta_was(d, q);
    }
}

proof fn lemma_tensors_fit(d: Seq<u8>, p: int, n: nat)
    requires
        0 <= p <= d.len(),
        run_at(tensor_reader(d), p, n) is Ok,
    ensures
        p <= run_at(tensor_reader(d), p, n)->Ok_0.1 <= d.len(),
        forall|i: int|
            0 <= i < run_at(tensor_reader(d), p, n)->Ok_0.0.len() ==> tensor_fits(
                #[trigger] run_at(tensor_reader(d), p, n)->Ok_0.0[i],
            ) && run_at(tensor_reader(d), p, n)->Ok_0.0[i].within(d.len()),
    decreases n,
{
    if n > 0 {
        lemma_tensors_fit(d, p, (n - 1) as nat);
        let q = run_at(tensor_reader(d), p, (n - 1) as nat)->Ok_0.1;
        assert(tensor_reader(d)(q) is Ok);
        lemma_tensor_was(d, q);
    }
}

/// Bytes as a list of numbers.
pub open spec fn listed(bytes: Seq<u8>) -> Seq<char> {
    "["@ + joined(
        Seq::new(bytes.len(), |i: int| decimal_digits(bytes[i] as nat)),
        ", "@,
    ) + "]"@
}

fn list_bytes(bytes: &[u8]) -> (s: String)
    ensures
        s@ == listed(bytes@),
{
    let mut parts: Vec<String> = Vec::new();
    while parts.len() < bytes.len()
        invariant
            parts@.len() <= bytes@.len(),
            forall|i: int|
                0 <= i < parts@.len() ==> (#[trigger] parts@[i])@ == decimal_digits(
                    bytes@[i] as nat,
                ),
        decreases bytes@.len() - parts@.len(),
    {
        parts.push(decimal(bytes[parts.len()] as u64));
    }
    assert(texts(parts@) =~= Seq::new(bytes@.len(), |i: int| decimal_digits(bytes@[i] as nat)));
    let mut s: String = "[".to_owned();
    s.append(join(parts.as_slice(), ", ").as_str());
    s.append("]");
    s
}

/// What an error says.
pub open spec fn fault_message(e: FormatFault) -> Seq<char> {
    match e {
        FormatFault::InvalidMagic(m) => "invalid magic bytes: expected '"@ + listed(MAGIC_BYTES@)
            + "', got '"@ + listed(m) + "'"@,
        FormatFault::UnsupportedVersion(v) => "unsupported format version "@ + decimal_digits(
            v as nat,
        ) + " (expected 1)"@,
        FormatFault::Utf8 { valid_up_to, error_len } => match error_len {
            Some(n) => "UTF-8 error: invalid utf-8 sequence of "@ + decimal_digits(n as nat)
                + " bytes from index "@ + decimal_digits(valid_up_to),
            None => "UTF-8 error: incomplete utf-8 byte sequence from index "@ + decimal_digits(
                valid_up_to,
            ),
        },
        FormatFault::BufferTooShort { needed, got } => "buffer too short: needed "@
            + decimal_digits(needed) + " bytes, got "@ + decimal_digits(got),
        FormatFault::UnknownDType(c) => "unknown dtype code: "@ + decimal_digits(c as nat),
        FormatFault::InvalidOffset { offset, file_size } => "invalid tensor offset "@
            + decimal_digits(offset as nat) + ": out of file bounds ("@ + decimal_digits(file_size)
            + ")"@,
    }
}

impl FormatError {
    /// What the error says.
    pub fn message(&self) -> (s: String)
        ensures
            s@ == fault_message(self@),
    {
        match self {
            FormatError::InvalidMagic(m) => {
                let mut s: String = "invalid magic bytes: expected '".to_owned();
                s.append(list_bytes(MAGIC_BYTES.as_slice()).as_str());
                s.append("', got '");
                s.append(list_bytes(m.as_slice()).as_str());
                s.append("'");
                s
            },
            FormatError::UnsupportedVersion(v) => {
                let mut s: String = "unsupported format version ".to_owned();
                s.append(decimal(*v as u64).as_str());
                s.append(" (expected 1)");
                s
            },
            FormatError::Utf8 { valid_up_to, error_len } => {
                let mut s: String = match error_len {
                    Some(n) => {
                        let mut t: String = "UTF-8 error: invalid utf-8 sequence of ".to_owned();
                        t.append(decimal(*n as u64).as_str());
                        t.append(" bytes from index ");
                        t
                    },
                    None => "UTF-8 error: incomplete utf-8 byte sequence from index ".to_owned(),
                };
                s.append(decimal(*valid_up_to as u64).as_str());
                s
            },
            FormatError::BufferTooShort { needed, got } => {
                let mut s: String = "buffer too short: needed ".to_owned();
                s.append(decimal(*needed as u64).as_str());
                s.append(" bytes, got ");
                s.append(decimal(*got as u64).as_str());
                s
            },
            FormatError::UnknownDType(c) => {
                let mut s: String = "unknown dtype code: ".to_owned();
                s.append(decimal(*c as u64).as_str());
                s
            },
            FormatError::InvalidOffset { offset, file_size } => {
                let mut s: String = "invalid tensor offset ".to_owned();
                s.append(decimal(*offset).as_str());
                s.append(": out of file bounds (");
                s.append(decimal(*file_size).as_str());
                s.append(")");
                s
            },
        }
    }
}

} // verus!
