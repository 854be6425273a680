//! Writing `.hypno` files: where each tensor goes, and the bytes of the whole file.

use vstd::prelude::*;
use vstd::utf8::encode_utf8;
use crate::bytes::{le_bytes, pad_to, push_all, push_le, zeros, lemma_le_bytes_len};
use crate::dtype::DType;
use crate::format::{
    checked_product, dim_encoder, header_bytes, law_manifest_round_trip, lemma_meta_len,
    lemma_tensor_len, manifest_bytes, manifest_fits, manifest_of, meta_bytes, meta_encoder,
    meta_fits, metas_model, product, tensor_bytes, tensor_encoder, tensor_fits, tensors_model,
    text_bytes, text_fits, FormatFault, HypnoHeader, HypnoManifest, ManifestModel, MetaKV,
    MetaModel, TensorMeta, TensorModel, ALIGNMENT, FORMAT_VERSION, MAGIC_BYTES,
};
use crate::layout::{align_up, flat, lemma_align_up, lemma_flat_push, stands_at};

verus! {

fn push_text(out: &mut Vec<u8>, s: &str)
    requires
        text_fits(s@),
    ensures
        final(out)@ == old(out)@ + text_bytes(s@),
{
    let bytes = s.as_bytes();
    push_le(out, bytes.len() as u64, 4);
    push_all(out, bytes);
    assert(out@ =~= old(out)@ + text_bytes(s@));
}

fn push_dims(out: &mut Vec<u8>, shape: &[u64])
    ensures
        final(out)@ == old(out)@ + flat(dim_encoder(), shape@),
{
    let mut i: usize = 0;
    assert(shape@.take(0) =~= Seq::<u64>::empty());
    assert(out@ =~= old(out)@ + flat(dim_encoder(), shape@.take(0)));
    while i < shape.len()
        invariant
            i <= shape@.len(),
            out@ == old(out)@ + flat(dim_encoder(), shape@.take(i as int)),
        decreases shape@.len() - i,
    {
        let ghost before = out@;
        push_le(out, shape[i], 8);
        proof {
            lemma_flat_push(dim_encoder(), shape@.take(i as int), shape@[i as int]);
            assert(shape@.take(i as int).push(shape@[i as int]) =~= shape@.take(i + 1));
            assert(before + le_bytes(shape@[i as int] as nat, 8) =~= old(out)@ + flat(
                dim_encoder(),
                shape@.take(i + 1),
            ));
        }
        i = i + 1;
    }
    assert(shape@.take(i as int) =~= shape@);
}

fn push_tensor(out: &mut Vec<u8>, t: &TensorMeta)
    requires
        tensor_fits(t@),
    ensures
        final(out)@ == old(out)@ + tensor_bytes(t@),
{
    push_text(out, t.name.as_str());
    push_le(out, t.ndim as u64, 4);
    push_dims(out, t.shape.as_slice());
    push_le(out, t.dtype.to_u32() as u64, 4);
    push_le(out, t.offset, 8);
    push_le(out, t.data_len, 8);
    assert(out@ =~= old(out)@ + tensor_bytes(t@));
}

/// Everything of a file before the tensor data, as bytes.
pub fn encode_manifest(m: &HypnoManifest) -> (out: Vec<u8>)
    requires
        m.wf(),
        manifest_fits(m@),
    ensures
        out@ == manifest_bytes(m@),
{
    let mut out: Vec<u8> = Vec::new();
    push_all(&mut out, m.header.magic.as_slice());
    push_le(&mut out, m.header.version as u64, 4);
    push_le(&mut out, m.header.metadata_kv_count as u64, 4);
    push_le(&mut out, m.header.tensor_count as u64, 4);
    let ghost model = m@;
    let ghost head = header_bytes(
        MAGIC_BYTES@,
        FORMAT_VERSION,
        model.metadata.len() as u32,
        model.tensors.len() as u32,
    );
    assert(out@ =~= head);
    let mut i: usize = 0;
    assert(model.metadata.take(0) =~= Seq::<MetaModel>::empty());
    assert(out@ =~= head + flat(meta_encoder(), model.metadata.take(0)));
    while i < m.metadata.len()
        invariant
            model == m@,
            manifest_fits(model),
            i <= m.metadata@.len() == model.metadata.len(),
            out@ == head + flat(meta_encoder(), model.metadata.take(i as int)),
        decreases m.metadata@.len() - i,
    {
        let ghost x = model.metadata[i as int];
        let ghost done = model.metadata.take(i as int);
        assert(meta_fits(x));
        push_text(&mut out, m.metadata[i].key.as_str());
        push_text(&mut out, m.metadata[i].value.as_str());
        proof {
            lemma_flat_push(meta_encoder(), done, x);
            assert(done.push(x) =~= model.metadata.take(i + 1));
            assert(out@ =~= head + (flat(meta_encoder(), done) + meta_bytes(x)));
        }
        i = i + 1;
    }
    assert(model.metadata.take(i as int) =~= model.metadata);
    let ghost middle = head + flat(meta_encoder(), model.metadata);
    let mut k: usize = 0;
    assert(model.tensors.take(0) =~= Seq::<TensorModel>::empty());
    assert(out@ =~= middle + flat(tensor_encoder(), model.tensors.take(0)));
    while k < m.tensors.len()
        invariant
            model == m@,
            manifest_fits(model),
            k <= m.tensors@.len() == model.tensors.len(),
            out@ == middle + flat(tensor_encoder(), model.tensors.take(k as int)),
        decreases m.tensors@.len() - k,
    {
        let ghost x = model.tensors[k as int];
        let ghost done = model.tensors.take(k as int);
        assert(tensor_fits(x));
        push_tensor(&mut out, &m.tensors[k]);
        proof {
            lemma_flat_push(tensor_encoder(), done, x);
            assert(done.push(x) =~= model.tensors.take(k + 1));
            assert(out@ =~= middle + (flat(tensor_encoder(), done) + tensor_bytes(x)));
        }
        k = k + 1;
    }
    assert(model.tensors.take(k as int) =~= model.tensors);
    out
}

/// A tensor that is to be written: all of its table entry but the place.
#[derive(Debug, Clone)]
pub struct TensorItem {
    pub name: String,
    pub shape: Vec<u64>,
    pub dtype: DType,
}

/// The mathematical content of a [`TensorItem`].
pub struct ItemModel {
    pub name: Seq<char>,
    pub shape: Seq<u64>,
    pub dtype: DType,
}

impl View for TensorItem {
    type V = ItemModel;

    open spec fn view(&self) -> ItemModel {
        ItemModel { name: self.name@, shape: self.shape@, dtype: self.dtype }
    }
}

impl ItemModel {
    /// Bytes of the tensor's data.
    pub open spec fn data_len(self) -> nat {
        self.dtype.stored_len(product(self.shape))
    }

    /// Bytes of the tensor's entry in the table.
    pub open spec fn entry_len(self) -> nat {
        28 + encode_utf8(self.name).len() + 8 * self.shape.len()
    }

    /// Whether the element count and the lengths fit their fields.
    pub open spec fn fits(self) -> bool {
        &&& text_fits(self.name)
        &&& self.shape.len() <= u32::MAX
        &&& product(self.shape) <= usize::MAX
        &&& product(self.shape) <= u64::MAX
        &&& self.data_len() <= usize::MAX
        &&& self.data_len() <= u64::MAX
    }
}

/// The contents of a list of items.
pub open spec fn items_model(v: Seq<TensorItem>) -> Seq<ItemModel> {
    Seq::new(v.len(), |i: int| v[i]@)
}

/// Bytes of the metadata entries.
pub open spec fn metas_len(metas: Seq<MetaModel>) -> nat
    decreases metas.len(),
{
    if metas.len() == 0 {
        0
    } else {
        metas_len(metas.drop_last()) + meta_bytes(metas.last()).len()
    }
}

/// Bytes of the tensor table.
pub open spec fn table_len(items: Seq<ItemModel>) -> nat
    decreases items.len(),
{
    if items.len() == 0 {
        0
    } else {
        table_len(items.drop_last()) + items.last().entry_len()
    }
}

/// Where the data of the first tensor starts: behind header, metadata and table, aligned.
pub open spec fn data_start(metas: Seq<MetaModel>, items: Seq<ItemModel>) -> nat {
    align_up(16 + metas_len(metas) + table_len(items))
}

/// Where the data of tensor `i` starts: the tensors stand one after another, each aligned.
pub open spec fn offset_of(items: Seq<ItemModel>, start: nat, i: nat) -> nat
    decreases i,
{
    if i == 0 {
        start
    } else {
        align_up(offset_of(items, start, (i - 1) as nat) + items[i - 1].data_len())
    }
}

/// The tensor table for `items`, with the data from `start` on.
pub open spec fn placed(items: Seq<ItemModel>, start: nat) -> Seq<TensorModel> {
    Seq::new(
        items.len(),
        |i: int|
            TensorModel {
                name: items[i].name,
                ndim: items[i].shape.len() as u32,
                shape: items[i].shape,
                dtype: items[i].dtype,
                offset: offset_of(items, start, i as nat) as u64,
                data_len: items[i].data_len() as u64,
            },
    )
}

/// The manifest of a file with these metadata entries and tensors.
pub open spec fn planned(metas: Seq<MetaModel>, items: Seq<ItemModel>) -> ManifestModel {
    ManifestModel { metadata: metas, tensors: placed(items, data_start(metas, items)) }
}

/// Where the file ends, if the last tensor is padded too.
pub open spec fn planned_end(metas: Seq<MetaModel>, items: Seq<ItemModel>) -> nat {
    offset_of(items, data_start(metas, items), items.len())
}

/// Whether every count, length and offset of the file fits its field, and the file fits in memory.
pub open spec fn plan_fits(metas: Seq<MetaModel>, items: Seq<ItemModel>) -> bool {
    &&& metas.len() <= u32::MAX
    &&& items.len() <= u32::MAX
    &&& forall|i: int| 0 <= i < metas.len() ==> meta_fits(#[trigger] metas[i])
    &&& forall|i: int| 0 <= i < items.len() ==> (#[trigger] items[i]).fits()
    &&& planned_end(metas, items) <= u64::MAX
    &&& planned_end(metas, items) <= usize::MAX
}

pub proof fn lemma_offsets_grow(items: Seq<ItemModel>, start: nat, i: nat, j: nat)
    requires
        i <= j,
    ensures
        offset_of(items, start, i) <= offset_of(items, start, j),
    decreases j,
{
    if i < j {
        lemma_offsets_grow(items, start, i, (j - 1) as nat);
        lemma_align_up(offset_of(items, start, (j - 1) as nat) + items[j - 1].data_len());
    }
}

proof fn lemma_metas_len_grows(metas: Seq<MetaModel>, n: nat)
    requires
        n <= metas.len(),
    ensures
        metas_len(metas.take(n as int)) <= metas_len(metas),
    decreases metas.len(),
{
    if n < metas.len() {
        lemma_metas_len_grows(metas.drop_last(), n);
        assert(metas.drop_last().take(n as int) =~= metas.take(n as int));
    } else {
        assert(metas.take(n as int) =~= metas);
    }
}

proof fn lemma_table_len_grows(items: Seq<ItemModel>, n: nat)
    requires
        n <= items.len(),
    ensures
        table_len(items.take(n as int)) <= table_len(items),
    decreases items.len(),
{
    if n < items.len() {
        lemma_table_len_grows(items.drop_last(), n);
        assert(items.drop_last().take(n as int) =~= items.take(n as int));
    } else {
        assert(items.take(n as int) =~= items);
    }
}

/// The next multiple of 64, or `None` where it is too large.
pub fn checked_align(n: u64) -> (r: Option<u64>)
    ensures
        r == if align_up(n as nat) <= u64::MAX {
            Some(align_up(n as nat) as u64)
        } else {
            None
        },
{
    let over: u64 = n % ALIGNMENT;
    if over == 0 {
        Some(n)
    } else {
        n.checked_add(ALIGNMENT - over)
    }
}

/// Bytes of the metadata entries, or `None` where one does not fit its field or the sum is too
/// large.
fn metadata_size(metadata: &Vec<MetaKV>) -> (r: Option<u64>)
    ensures
        r matches Some(n) ==> n == metas_len(metas_model(metadata@)) && forall|i: int|
            0 <= i < metadata@.len() ==> meta_fits(#[trigger] metas_model(metadata@)[i]),
        r is None ==> metas_len(metas_model(metadata@)) > u64::MAX || exists|i: int|
            0 <= i < metadata@.len() && !meta_fits(#[trigger] metas_model(metadata@)[i]),
{
    let mut total: u64 = 0;
    let ghost metas = metas_model(metadata@);
    let mut i: usize = 0;
    while i < metadata.len()
        invariant
            metas == metas_model(metadata@),
            i <= metadata@.len(),
            total == metas_len(metas.take(i as int)),
            forall|k: int| 0 <= k < i ==> meta_fits(#[trigger] metas[k]),
        decreases metadata@.len() - i,
    {
        let key: usize = metadata[i].key.as_str().as_bytes().len();
        let value: usize = metadata[i].value.as_str().as_bytes().len();
        proof {
            assert(metas[i as int] == metadata@[i as int]@);
            lemma_meta_len(metas[i as int]);
            assert(metas.take(i + 1).drop_last() =~= metas.take(i as int));
            lemma_metas_len_grows(metas, (i + 1) as nat);
        }
        if key > u32::MAX as usize || value > u32::MAX as usize {
            assert(!meta_fits(metas[i as int]));
            return None;
        }
        match total.checked_add(key as u64 + value as u64 + 8) {
            Some(n) => {
                total = n;
            },
            None => {
                return None;
            },
        }
        i = i + 1;
    }
    assert(metas.take(i as int) =~= metas);
    Some(total)
}

/// Bytes of the tensor table, or `None` where a tensor does not fit its fields or the sum is too
/// large.
fn table_size(items: &Vec<TensorItem>) -> (r: Option<u64>)
    ensures
        r matches Some(n) ==> n == table_len(items_model(items@)) && forall|i: int|
            0 <= i < items@.len() ==> (#[trigger] items_model(items@)[i]).fits(),
        r is None ==> table_len(items_model(items@)) > u64::MAX || exists|i: int|
            0 <= i < items@.len() && !(#[trigger] items_model(items@)[i]).fits(),
{
    let mut total: u64 = 0;
    let ghost models = items_model(items@);
    let mut i: usize = 0;
    while i < items.len()
        invariant
            models == items_model(items@),
            i <= items@.len(),
            total == table_len(models.take(i as int)),
            forall|k: int| 0 <= k < i ==> (#[trigger] models[k]).fits(),
        decreases items@.len() - i,
    {
        let item = &items[i];
        let name: usize = item.name.as_str().as_bytes().len();
        let dims: usize = item.shape.len();
        let ghost model = models[i as int];
        proof {
            assert(model == item@);
            assert(models.take(i + 1).drop_last() =~= models.take(i as int));
            lemma_table_len_grows(models, (i + 1) as nat);
        }
        let fits: bool = match item_len(item) {
            Some(_) => name <= u32::MAX as usize && dims <= u32::MAX as usize,
            None => false,
        };
        if !fits {
            assert(!models[i as int].fits());
            return None;
        }
        match total.checked_add(name as u64 + dims as u64 * 8 + 28) {
            Some(n) => {
                total = n;
            },
            None => {
                return None;
            },
        }
        i = i + 1;
    }
    assert(models.take(i as int) =~= models);
    Some(total)
}

/// Bytes of a tensor's data, or `None` where the element count or the number of bytes is too
/// large.
pub fn item_len(item: &TensorItem) -> (r: Option<u64>)
    ensures
        r == if product(item.shape@) <= usize::MAX && product(item.shape@) <= u64::MAX
            && item@.data_len() <= usize::MAX && item@.data_len() <= u64::MAX {
            Some(item@.data_len() as u64)
        } else {
            None
        },
{
    match checked_product(item.shape.as_slice()) {
        Some(n) => {
            if n > usize::MAX as u64 {
                return None;
            }
            match item.dtype.checked_data_bytes(n as usize) {
                Some(len) => if len as u128 <= u64::MAX as u128 {
                    Some(len as u64)
                } else {
                    None
                },
                None => None,
            }
        },
        None => None,
    }
}

/// The manifest of a file with these metadata entries and tensors: the data starts behind the
/// table, and each tensor at a multiple of 64. `None` where a number does not fit its field.
pub fn plan_file(metadata: Vec<MetaKV>, items: &Vec<TensorItem>) -> (r: Option<HypnoManifest>)
    ensures
        r is Some <==> plan_fits(metas_model(metadata@), items_model(items@)),
        r matches Some(m) ==> m.wf() && m@ == planned(
            metas_model(metadata@),
            items_model(items@),
        ) && m.metadata@ == metadata@,
{
    let ghost metas = metas_model(metadata@);
    let ghost models = items_model(items@);
    proof {
        lemma_offsets_grow(models, data_start(metas, models), 0, models.len());
        lemma_align_up(16 + metas_len(metas) + table_len(models));
        assert(forall|i: int|
            0 <= i < metas.len() && !meta_fits(#[trigger] metas_model(metadata@)[i]) ==> !plan_fits(
                metas,
                models,
            ));
    }
    if metadata.len() > u32::MAX as usize || items.len() > u32::MAX as usize {
        return None;
    }
    let meta_size: u64 = match metadata_size(&metadata) {
        Some(n) => n,
        None => {
            return None;
        },
    };
    let table: u64 = match table_size(items) {
        Some(n) => n,
        None => {
            return None;
        },
    };
    let head: u64 = match meta_size.checked_add(16) {
        Some(n) => n,
        None => {
            return None;
        },
    };
    let end: u64 = match head.checked_add(table) {
        Some(n) => n,
        None => {
            return None;
        },
    };
    let start: u64 = match checked_align(end) {
        Some(n) => n,
        None => {
            return None;
        },
    };
    let mut tensors: Vec<TensorMeta> = Vec::new();
    let mut offset: u64 = start;
    let mut i: usize = 0;
    while i < items.len()
        invariant
            metas == metas_model(metadata@),
            models == items_model(items@),
            start == data_start(metas, models),
            i <= items@.len() == models.len(),
            offset == offset_of(models, start as nat, i as nat),
            tensors@.len() == i,
            forall|k: int| 0 <= k < items@.len() ==> (#[trigger] models[k]).fits(),
            tensors_model(tensors@) =~= placed(models, start as nat).take(i as int),
        decreases items@.len() - i,
    {
        let item = &items[i];
        let ghost model = models[i as int];
        let ghost before = tensors@;
        assert(model == item@ && model.fits());
        let len: u64 = match item_len(item) {
            Some(n) => n,
            None => {
                return None;
            },
        };
        let shape = copy_shape(item.shape.as_slice());
        tensors.push(
            TensorMeta {
                name: item.name.clone(),
                ndim: item.shape.len() as u32,
                shape,
                dtype: item.dtype,
                offset,
                data_len: len,
            },
        );
        proof {
            lemma_offsets_grow(models, start as nat, (i + 1) as nat, models.len());
            lemma_align_up(offset as nat + len as nat);
            assert(tensors@[i as int]@ == placed(models, start as nat)[i as int]);
            assert(tensors_model(tensors@) =~= tensors_model(before).push(tensors@[i as int]@));
        }
        match offset.checked_add(len) {
            Some(n) => match checked_align(n) {
                Some(next) => {
                    offset = next;
                },
                None => {
                    return None;
                },
            },
            None => {
                return None;
            },
        }
        i = i + 1;
    }
    assert(tensors_model(tensors@) =~= placed(models, start as nat));
    if offset as u128 > usize::MAX as u128 {
        return None;
    }
    let header = HypnoHeader::new(metadata.len() as u32, tensors.len() as u32);
    Some(HypnoManifest { header, metadata, tensors })
}

/// A copy of a shape.
pub fn copy_shape(shape: &[u64]) -> (v: Vec<u64>)
    ensures
        v@ == shape@,
{
    let mut v: Vec<u64> = Vec::new();
    v.extend_from_slice(shape);
    assert(v@ =~= shape@);
    v
}

proof fn lemma_flat_metas(metas: Seq<MetaModel>)
    ensures
        flat(meta_encoder(), metas).len() == metas_len(metas),
    decreases metas.len(),
{
    if metas.len() > 0 {
        lemma_flat_metas(metas.drop_last());
    }
}

proof fn lemma_flat_table(tensors: Seq<TensorModel>, items: Seq<ItemModel>)
    requires
        tensors.len() == items.len(),
        forall|i: int|
            0 <= i < items.len() ==> (#[trigger] tensors[i]).name == items[i].name
                && tensors[i].shape == items[i].shape,
    ensures
        flat(tensor_encoder(), tensors).len() == table_len(items),
    decreases items.len(),
{
    if items.len() > 0 {
        lemma_flat_table(tensors.drop_last(), items.drop_last());
        lemma_tensor_len(tensors.last());
        assert(tensors[items.len() - 1].name == items.last().name);
    }
}

/// A planned file can be written: every count and length fits its field, and the data of the
/// first tensor starts behind the manifest, at the next multiple of 64.
pub proof fn law_plan_is_writable(metas: Seq<MetaModel>, items: Seq<ItemModel>)
    requires
        plan_fits(metas, items),
    ensures
        manifest_fits(planned(metas, items)),
        align_up(manifest_bytes(planned(metas, items)).len()) == data_start(metas, items),
{
    let m = planned(metas, items);
    assert forall|i: int| 0 <= i < m.tensors.len() implies tensor_fits(#[trigger] m.tensors[i]) by {
        assert(items[i].fits());
    }
    lemma_flat_metas(metas);
    lemma_flat_table(m.tensors, items);
    lemma_le_bytes_len(FORMAT_VERSION as nat, 4);
    lemma_le_bytes_len(m.metadata.len() as u32 as nat, 4);
    lemma_le_bytes_len(m.tensors.len() as u32 as nat, 4);
}

/// In a planned file every tensor starts at a multiple of 64 behind the manifest, its data does
/// not reach into that of a later one, and all data ends before the planned end.
pub proof fn law_plan_places_apart(metas: Seq<MetaModel>, items: Seq<ItemModel>, i: int, j: int)
    requires
        plan_fits(metas, items),
        0 <= i < j <= items.len(),
    ensures
        ({
            let t = planned(metas, items).tensors;
            &&& t[i].offset % 64 == 0
            &&& manifest_bytes(planned(metas, items)).len() <= t[i].offset
            &&& t[i].data_len == items[i].data_len()
            &&& j < items.len() ==> t[i].offset + t[i].data_len <= t[j].offset
            &&& t[i].offset + t[i].data_len <= planned_end(metas, items)
        }),
{
    let start = data_start(metas, items);
    law_plan_is_writable(metas, items);
    lemma_align_up(manifest_bytes(planned(metas, items)).len());
    lemma_align_up(16 + metas_len(metas) + table_len(items));
    lemma_offset_aligned(items, start, i as nat);
    lemma_offsets_grow(items, start, 0, i as nat);
    lemma_offsets_grow(items, start, (i + 1) as nat, j as nat);
    lemma_offsets_grow(items, start, j as nat, items.len());
    lemma_align_up(offset_of(items, start, i as nat) + items[i].data_len());
    assert(items[i].fits());
}

proof fn lemma_offset_aligned(items: Seq<ItemModel>, start: nat, i: nat)
    requires
        start % 64 == 0,
    ensures
        offset_of(items, start, i) % 64 == 0,
    decreases i,
{
    if i > 0 {
        lemma_align_up(offset_of(items, start, (i - 1) as nat) + items[i - 1].data_len());
    }
}

/// `s`, padded with zeros to a multiple of 64 bytes.
pub open spec fn aligned(s: Seq<u8>) -> Seq<u8> {
    s + zeros((align_up(s.len()) - s.len()) as nat)
}

/// `s`, padded with zeros to at least `len` bytes.
pub open spec fn padded(s: Seq<u8>, len: nat) -> Seq<u8> {
    s + zeros(if len > s.len() {
        (len - s.len()) as nat
    } else {
        0
    })
}

/// `out` with the data of one more tensor: padded to the tensor's offset, then the data, then
/// padded to a multiple of 64. A tensor without data leaves it as it is.
pub open spec fn with_tensor(out: Seq<u8>, offset: nat, data: Option<Seq<u8>>) -> Seq<u8> {
    match data {
        Some(d) => aligned(padded(out, offset) + d),
        None => out,
    }
}

/// The file up to the first `n` tensors.
pub open spec fn image_of(m: ManifestModel, data: Seq<Option<Seq<u8>>>, n: nat) -> Seq<u8>
    decreases n,
{
    if n == 0 {
        aligned(manifest_bytes(m))
    } else {
        with_tensor(
            image_of(m, data, (n - 1) as nat),
            m.tensors[n - 1].offset as nat,
            data[n - 1],
        )
    }
}

/// Whether each of the first `n` tensors that has data starts at its offset, with what precedes
/// it no longer than that.
pub open spec fn room_for(m: ManifestModel, data: Seq<Option<Seq<u8>>>, n: nat) -> bool {
    forall|i: int|
        0 <= i < n && data[i] is Some ==> (#[trigger] image_of(m, data, i as nat)).len()
            <= m.tensors[i].offset
}

/// Starts a file: the manifest, padded to a multiple of 64 bytes; `None` where that is too
/// long.
pub fn start_image(m: &HypnoManifest) -> (r: Option<Vec<u8>>)
    requires
        m.wf(),
        manifest_fits(m@),
    ensures
        r matches Some(out) ==> out@ == aligned(manifest_bytes(m@)),
        r is None ==> align_up(manifest_bytes(m@).len()) > usize::MAX,
{
    let mut out = encode_manifest(m);
    if pad_to_alignment(&mut out) {
        Some(out)
    } else {
        None
    }
}

/// Pads with zeros to a multiple of 64 bytes; `false`, and no change, where that is too long.
pub fn pad_to_alignment(out: &mut Vec<u8>) -> (ok: bool)
    ensures
        ok == (align_up(old(out)@.len()) <= usize::MAX),
        ok ==> final(out)@ == aligned(old(out)@),
        !ok ==> final(out)@ == old(out)@,
{
    let over: usize = out.len() % 64;
    if over == 0 {
        assert(aligned(out@) =~= out@);
        return true;
    }
    match out.len().checked_add(64 - over) {
        Some(len) => {
            pad_to(out, len);
            true
        },
        None => false,
    }
}

/// Why the data of a tensor could not be put into a file.
#[derive(Debug, Clone, Copy, PartialEq, Eq, Structural)]
pub enum PlaceError {
    /// What precedes the tensor is longer than the tensor's offset.
    Overlap,
    /// The file would be larger than can be held.
    TooLarge,
}

/// Puts the data of one more tensor into a file.
pub fn place_tensor(out: &mut Vec<u8>, offset: u64, data: &[u8]) -> (r: Result<(), PlaceError>)
    ensures
        r is Ok <==> old(out)@.len() <= offset && align_up(offset as nat + data@.len())
            <= usize::MAX,
        r is Ok ==> final(out)@ == with_tensor(
            old(out)@,
            offset as nat,
            Some(data@),
        ),
        r == Err::<(), PlaceError>(PlaceError::Overlap) <==> old(out)@.len() > offset,
        r == Err::<(), PlaceError>(PlaceError::TooLarge) <==> old(out)@.len() <= offset && align_up(
            offset as nat + data@.len(),
        ) > usize::MAX,
        r is Err ==> final(out)@ == old(out)@,
{
    if out.len() as u128 > offset as u128 {
        return Err(PlaceError::Overlap);
    }
    proof {
        lemma_align_up(offset as nat + data@.len());
    }
    if offset as u128 > usize::MAX as u128 {
        return Err(PlaceError::TooLarge);
    }
    let at: usize = offset as usize;
    let end: usize = match at.checked_add(data.len()) {
        Some(n) => n,
        None => {
            return Err(PlaceError::TooLarge);
        },
    };
    let over: usize = end % 64;
    if over != 0 && end > usize::MAX - (64 - over) {
        return Err(PlaceError::TooLarge);
    }
    pad_to(out, at);
    push_all(out, data);
    pad_to_alignment(out);
    Ok(())
}

/// The data of the tensors that have some, each as long as the plan says.
pub open spec fn right_data(items: Seq<ItemModel>, data: Seq<Option<Seq<u8>>>) -> bool {
    data.len() == items.len() && forall|i: int|
        0 <= i < items.len() ==> (#[trigger] data[i] matches Some(d) ==> d.len()
            == items[i].data_len())
}

/// There is data for tensor `i` or a later one.
pub open spec fn data_from(data: Seq<Option<Seq<u8>>>, i: int) -> bool {
    exists|j: int| i <= j < data.len() && (#[trigger] data[j]) is Some
}

/// The file reaches behind every tensor: one that has no data, but should have, stands before one
/// that has.
pub open spec fn reaches_all(items: Seq<ItemModel>, data: Seq<Option<Seq<u8>>>) -> bool {
    forall|i: int|
        0 <= i < items.len() && (#[trigger] data[i]) is None && items[i].data_len() > 0
            ==> data_from(data, i)
}

proof fn lemma_image_len(
    metas: Seq<MetaModel>,
    items: Seq<ItemModel>,
    data: Seq<Option<Seq<u8>>>,
    n: nat,
)
    requires
        plan_fits(metas, items),
        right_data(items, data),
        n <= items.len(),
    ensures
        image_of(planned(metas, items), data, n).len() <= offset_of(
            items,
            data_start(metas, items),
            n,
        ),
        n == 0 || data[n - 1] is Some ==> image_of(planned(metas, items), data, n).len()
            == offset_of(items, data_start(metas, items), n),
    decreases n,
{
    let start = data_start(metas, items);
    law_plan_is_writable(metas, items);
    lemma_align_up(manifest_bytes(planned(metas, items)).len());
    if n > 0 {
        lemma_image_len(metas, items, data, (n - 1) as nat);
        assert(items[n - 1].fits());
        lemma_offsets_grow(items, start, (n - 1) as nat, n);
        lemma_offsets_grow(items, start, (n - 1) as nat, items.len());
        lemma_offsets_grow(items, start, n, items.len());
        lemma_align_up(offset_of(items, start, (n - 1) as nat) + items[n - 1].data_len());
    }
}

/// Data that is nowhere longer than the plan says has room in the file.
pub proof fn lemma_data_has_room(
    metas: Seq<MetaModel>,
    items: Seq<ItemModel>,
    data: Seq<Option<Seq<u8>>>,
    n: nat,
)
    requires
        plan_fits(metas, items),
        data.len() == items.len(),
        forall|i: int|
            0 <= i < items.len() ==> (#[trigger] data[i] matches Some(d) ==> d.len()
                <= items[i].data_len()),
        n <= items.len(),
    ensures
        image_of(planned(metas, items), data, n).len() <= offset_of(
            items,
            data_start(metas, items),
            n,
        ),
        offset_of(items, data_start(metas, items), n) <= usize::MAX,
        room_for(planned(metas, items), data, n),
    decreases n,
{
    let start = data_start(metas, items);
    let m = planned(metas, items);
    law_plan_is_writable(metas, items);
    lemma_align_up(manifest_bytes(m).len());
    lemma_offsets_grow(items, start, n, items.len());
    if n > 0 {
        lemma_data_has_room(metas, items, data, (n - 1) as nat);
        let i = n - 1;
        assert(items[i].fits());
        lemma_offsets_grow(items, start, i as nat, n);
        lemma_offsets_grow(items, start, i as nat, items.len());
        let at = offset_of(items, start, i as nat);
        lemma_align_up(at + items[i].data_len());
        if let Some(d) = data[i] {
            lemma_align_up(at + d.len());
            assert((padded(image_of(m, data, i as nat), at) + d).len() == at + d.len());
        }
    }
}

proof fn lemma_image_keeps(
    m: ManifestModel,
    data: Seq<Option<Seq<u8>>>,
    i: nat,
    n: nat,
)
    requires
        i <= n,
    ensures
        image_of(m, data, i).len() <= image_of(m, data, n).len(),
        image_of(m, data, n).take(image_of(m, data, i).len() as int) == image_of(m, data, i),
    decreases n,
{
    let small = image_of(m, data, i);
    if i < n {
        lemma_image_keeps(m, data, i, (n - 1) as nat);
        let middle = image_of(m, data, (n - 1) as nat);
        let big = image_of(m, data, n);
        if let Some(d) = data[n - 1] {
            lemma_align_up((padded(middle, m.tensors[n - 1].offset as nat) + d).len());
            assert(big.take(small.len() as int) =~= middle.take(small.len() as int));
        }
    } else {
        assert(small.take(small.len() as int) =~= small);
    }
}

proof fn lemma_image_reaches(
    metas: Seq<MetaModel>,
    items: Seq<ItemModel>,
    data: Seq<Option<Seq<u8>>>,
    i: nat,
)
    requires
        plan_fits(metas, items),
        right_data(items, data),
        reaches_all(items, data),
        i <= items.len(),
        !data_from(data, i as int),
    ensures
        offset_of(items, data_start(metas, items), i) <= image_of(
            planned(metas, items),
            data,
            items.len(),
        ).len(),
    decreases i,
{
    let m = planned(metas, items);
    let start = data_start(metas, items);
    lemma_image_len(metas, items, data, i);
    lemma_image_keeps(m, data, i, items.len());
    if i > 0 && data[i - 1] is None {
        assert(!data_from(data, i - 1)) by {
            assert forall|j: int| i - 1 <= j < data.len() implies (#[trigger] data[j]) is None by {
                if j >= i && data[j] is Some {
                    assert(data_from(data, i as int));
                }
            }
        }
        lemma_image_reaches(metas, items, data, (i - 1) as nat);
        lemma_align_up(16 + metas_len(metas) + table_len(items));
        lemma_offset_aligned(items, start, (i - 1) as nat);
        lemma_align_up(offset_of(items, start, (i - 1) as nat));
    }
}

/// The law that writing and reading are for: a file built by the plan is read as the planned
/// manifest, and at the offset of each tensor whose data was put into it stands that data.
pub proof fn law_file_round_trip(
    metas: Seq<MetaModel>,
    items: Seq<ItemModel>,
    data: Seq<Option<Seq<u8>>>,
)
    requires
        plan_fits(metas, items),
        right_data(items, data),
        reaches_all(items, data),
    ensures
        room_for(planned(metas, items), data, items.len()),
        image_of(planned(metas, items), data, items.len()).len() <= planned_end(metas, items),
        manifest_of(image_of(planned(metas, items), data, items.len())) == Ok::<
            (ManifestModel, int),
            FormatFault,
        >((planned(metas, items), manifest_bytes(planned(metas, items)).len() as int)),
        forall|i: int|
            0 <= i < items.len() && data[i] is Some ==> stands_at(
                image_of(planned(metas, items), data, items.len()),
                (#[trigger] planned(metas, items).tensors[i]).offset as int,
                data[i]->Some_0,
            ),
{
    let m = planned(metas, items);
    let n = items.len();
    let image = image_of(m, data, n);
    let start = data_start(metas, items);
    lemma_image_len(metas, items, data, n);
    law_plan_is_writable(metas, items);
    lemma_align_up(manifest_bytes(m).len());
    assert forall|i: int| 0 <= i < n && data[i] is Some implies (#[trigger] image_of(
        m,
        data,
        i as nat,
    )).len() <= m.tensors[i].offset by {
        lemma_image_len(metas, items, data, i as nat);
        lemma_offsets_grow(items, start, i as nat, n);
    }
    lemma_image_reads(metas, items, data);
    assert forall|i: int| 0 <= i < n && data[i] is Some implies stands_at(
        image,
        (#[trigger] m.tensors[i]).offset as int,
        data[i]->Some_0,
    ) by {
        lemma_tensor_stands(metas, items, data, i);
    }
}

proof fn lemma_image_reads(
    metas: Seq<MetaModel>,
    items: Seq<ItemModel>,
    data: Seq<Option<Seq<u8>>>,
)
    requires
        plan_fits(metas, items),
        right_data(items, data),
        reaches_all(items, data),
    ensures
        manifest_of(image_of(planned(metas, items), data, items.len())) == Ok::<
            (ManifestModel, int),
            FormatFault,
        >((planned(metas, items), manifest_bytes(planned(metas, items)).len() as int)),
{
    let m = planned(metas, items);
    let n = items.len();
    let image = image_of(m, data, n);
    let start = data_start(metas, items);
    lemma_image_len(metas, items, data, 0);
    law_plan_is_writable(metas, items);
    lemma_align_up(manifest_bytes(m).len());
    lemma_image_keeps(m, data, 0, n);
    let head = manifest_bytes(m);
    let rest = image.subrange(head.len() as int, image.len() as int);
    assert(image.take(aligned(head).len() as int).take(head.len() as int) =~= head);
    assert(image =~= head + rest);
    assert forall|i: int| 0 <= i < m.tensors.len() implies (#[trigger] m.tensors[i]).within(
        (head + rest).len(),
    ) by {
        law_plan_places_apart(metas, items, i, n as int);
        assert(items[i].fits());
        lemma_offsets_grow(items, start, i as nat, n);
        if data_from(data, i) {
            let j = choose|j: int| i <= j < data.len() && (#[trigger] data[j]) is Some;
            lemma_image_len(metas, items, data, (j + 1) as nat);
            lemma_image_keeps(m, data, (j + 1) as nat, n);
            lemma_offsets_grow(items, start, (i + 1) as nat, (j + 1) as nat);
            lemma_align_up(offset_of(items, start, i as nat) + items[i].data_len());
        } else {
            assert(data[i] is None);
            lemma_image_reaches(metas, items, data, i as nat);
        }
    }
    law_manifest_round_trip(m, rest);
}

proof fn lemma_tensor_stands(
    metas: Seq<MetaModel>,
    items: Seq<ItemModel>,
    data: Seq<Option<Seq<u8>>>,
    i: int,
)
    requires
        plan_fits(metas, items),
        right_data(items, data),
        0 <= i < items.len(),
        data[i] is Some,
    ensures
        stands_at(
            image_of(planned(metas, items), data, items.len()),
            planned(metas, items).tensors[i].offset as int,
            data[i]->Some_0,
        ),
{
    let m = planned(metas, items);
    let n = items.len();
    let image = image_of(m, data, n);
    let start = data_start(metas, items);
    lemma_image_len(metas, items, data, i as nat);
    lemma_offsets_grow(items, start, i as nat, n);
    lemma_image_keeps(m, data, (i + 1) as nat, n);
    let d = data[i]->Some_0;
    let at = m.tensors[i].offset as int;
    let upto = image_of(m, data, (i + 1) as nat);
    let before = padded(image_of(m, data, i as nat), at as nat);
    assert(upto == aligned(before + d));
    lemma_align_up((before + d).len());
    assert(upto.subrange(at, at + d.len()) =~= d);
    assert(image.subrange(at, at + d.len()) =~= image.take(upto.len() as int).subrange(
        at,
        at + d.len(),
    ));
}

/// The data of tensors, all of which have some.
pub open spec fn some_data(data: Seq<Vec<u8>>) -> Seq<Option<Seq<u8>>> {
    Seq::new(data.len(), |i: int| Some(data[i]@))
}

/// Builds a file from its metadata, its tensors and their data. A tensor's data may be of another
/// length than the plan gives it, as long as the next one still starts at its offset.
pub fn assemble(metadata: Vec<MetaKV>, items: &Vec<TensorItem>, data: &Vec<Vec<u8>>) -> (r: Result<
    Vec<u8>,
    PlaceError,
>)
    requires
        data@.len() == items@.len(),
    ensures
        ({
            let metas = metas_model(metadata@);
            let models = items_model(items@);
            let m = planned(metas, models);
            let image = image_of(m, some_data(data@), models.len());
            match r {
                Ok(file) => plan_fits(metas, models) && room_for(
                    m,
                    some_data(data@),
                    models.len(),
                ) && file@ == image,
                Err(PlaceError::Overlap) => plan_fits(metas, models) && !room_for(
                    m,
                    some_data(data@),
                    models.len(),
                ),
                Err(PlaceError::TooLarge) => !plan_fits(metas, models) || image.len() > usize::MAX,
            }
        }),
{
    let ghost metas = metas_model(metadata@);
    let ghost models = items_model(items@);
    let ghost all = some_data(data@);
    let manifest = match plan_file(metadata, items) {
        Some(m) => m,
        None => {
            return Err(PlaceError::TooLarge);
        },
    };
    let ghost m = manifest@;
    proof {
        law_plan_is_writable(metas, models);
        lemma_image_keeps(m, all, 0, models.len());
        lemma_align_up(manifest_bytes(m).len());
    }
    let mut file: Vec<u8> = match start_image(&manifest) {
        Some(f) => f,
        None => {
            return Err(PlaceError::TooLarge);
        },
    };
    let mut i: usize = 0;
    while i < items.len()
        invariant
            metas == metas_model(metadata@),
            models == items_model(items@),
            all == some_data(data@),
            m == planned(metas, models),
            manifest@ == m,
            manifest.tensors@.len() == items@.len() == data@.len() == models.len(),
            plan_fits(metas, models),
            i <= items@.len(),
            file@ == image_of(m, all, i as nat),
            room_for(m, all, i as nat),
        decreases items@.len() - i,
    {
        let offset: u64 = manifest.tensors[i].offset;
        assert(m.tensors[i as int] == manifest.tensors@[i as int]@);
        assert(all[i as int] == Some(data@[i as int]@));
        match place_tensor(&mut file, offset, data[i].as_slice()) {
            Ok(()) => {},
            Err(PlaceError::Overlap) => {
                assert(!(image_of(m, all, i as nat).len() <= m.tensors[i as int].offset));
                return Err(PlaceError::Overlap);
            },
            Err(PlaceError::TooLarge) => {
                proof {
                    lemma_image_keeps(m, all, (i + 1) as nat, models.len());
                    lemma_align_up(offset as nat + data@[i as int]@.len());
                }
                return Err(PlaceError::TooLarge);
            },
        }
        i = i + 1;
    }
    Ok(file)
}

} // verus!
