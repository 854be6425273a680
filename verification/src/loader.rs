//! Reading tensors and metadata of a `.hypno` file without copying the tensor data.

use vstd::prelude::*;
use crate::dtype::DType;
use crate::format::{
    law_read_manifest_was_written, manifest_of, metas_model, read_manifest, tensors_model,
    FormatError, FormatFault, HypnoManifest, ManifestModel, MetaModel, TensorMeta, TensorModel,
};
use crate::text::same_text;
use crate::writer::{
    image_of, law_file_round_trip, plan_fits, planned, reaches_all, right_data, ItemModel,
};

verus! {

/// The first tensor with the name `name`.
pub open spec fn tensor_index(tensors: Seq<TensorModel>, name: Seq<char>) -> Option<int>
    decreases tensors.len(),
{
    if tensors.len() == 0 {
        None
    } else {
        match tensor_index(tensors.drop_last(), name) {
            Some(i) => Some(i),
            None => if tensors.last().name == name {
                Some(tensors.len() - 1)
            } else {
                None
            },
        }
    }
}

/// The value of the first metadata entry with the key `key`.
pub open spec fn meta_value(metas: Seq<MetaModel>, key: Seq<char>) -> Option<Seq<char>>
    decreases metas.len(),
{
    if metas.len() == 0 {
        None
    } else {
        match meta_value(metas.drop_last(), key) {
            Some(v) => Some(v),
            None => if metas.last().key == key {
                Some(metas.last().value)
            } else {
                None
            },
        }
    }
}

/// The index of a name is that of the first tensor with it; without an index, no tensor has it.
pub proof fn lemma_tensor_index(tensors: Seq<TensorModel>, name: Seq<char>)
    ensures
        match tensor_index(tensors, name) {
            Some(i) => 0 <= i < tensors.len() && tensors[i].name == name && forall|j: int|
                0 <= j < i ==> (#[trigger] tensors[j]).name != name,
            None => forall|j: int| 0 <= j < tensors.len() ==> (#[trigger] tensors[j]).name != name,
        },
    decreases tensors.len(),
{
    if tensors.len() > 0 {
        let front = tensors.drop_last();
        lemma_tensor_index(front, name);
        assert(forall|j: int| 0 <= j < front.len() ==> front[j] == #[trigger] tensors[j]);
    }
}

/// The first tensor with a name is found.
pub proof fn lemma_tensor_index_is(tensors: Seq<TensorModel>, name: Seq<char>, i: int)
    requires
        0 <= i < tensors.len(),
        tensors[i].name == name,
        forall|j: int| 0 <= j < i ==> (#[trigger] tensors[j]).name != name,
    ensures
        tensor_index(tensors, name) == Some(i),
{
    lemma_tensor_index(tensors, name);
    assert(tensors[i].name == name);
}

proof fn lemma_tensor_index_prefix(tensors: Seq<TensorModel>, name: Seq<char>, n: nat)
    requires
        n <= tensors.len(),
        tensor_index(tensors.take(n as int), name) is Some,
    ensures
        tensor_index(tensors, name) == tensor_index(tensors.take(n as int), name),
    decreases tensors.len(),
{
    if n < tensors.len() {
        assert(tensors.drop_last().take(n as int) =~= tensors.take(n as int));
        lemma_tensor_index_prefix(tensors.drop_last(), name, n);
    } else {
        assert(tensors.take(n as int) =~= tensors);
    }
}

/// A value found among the first entries is the value found among all.
pub proof fn lemma_meta_value_prefix(metas: Seq<MetaModel>, key: Seq<char>, n: nat)
    requires
        n <= metas.len(),
        meta_value(metas.take(n as int), key) is Some,
    ensures
        meta_value(metas, key) == meta_value(metas.take(n as int), key),
    decreases metas.len(),
{
    if n < metas.len() {
        assert(metas.drop_last().take(n as int) =~= metas.take(n as int));
        lemma_meta_value_prefix(metas.drop_last(), key, n);
    } else {
        assert(metas.take(n as int) =~= metas);
    }
}

/// The bytes and the element type of the first tensor with the name `name`, if there is one and
/// its data lies within the file.
pub open spec fn tensor_data(d: Seq<u8>, tensors: Seq<TensorModel>, name: Seq<char>) -> Option<
    (Seq<u8>, DType),
> {
    match tensor_index(tensors, name) {
        Some(i) => if tensors[i].within(d.len()) {
            Some(
                (
                    d.subrange(
                        tensors[i].offset as int,
                        tensors[i].offset + tensors[i].data_len,
                    ),
                    tensors[i].dtype,
                ),
            )
        } else {
            None
        },
        None => None,
    }
}

/// What a file that was opened holds.
pub struct HypnoModel<'a> {
    /// The bytes of the file.
    pub data: &'a [u8],
    /// The header, the metadata and the tensor table.
    pub manifest: HypnoManifest,
}

/// What [`HypnoModel::validate`] can find wrong with a tensor, by its place in the table.
#[derive(Debug, Clone, Copy, PartialEq, Eq, Structural)]
pub enum ValidateError {
    /// Offset and length exceed the size of the file.
    OutOfBounds(usize),
    /// The data of the tensor with this tensor's name cannot be read.
    NotAccessible(usize),
}

impl<'a> HypnoModel<'a> {
    /// The bytes of the file.
    pub open spec fn file(self) -> Seq<u8> {
        self.data@
    }

    /// The manifest is the one that the file holds.
    pub open spec fn wf(self) -> bool {
        &&& self.manifest.wf()
        &&& manifest_of(self.file()) is Ok
        &&& manifest_of(self.file())->Ok_0.0 == self.manifest@
    }

    /// The metadata entries.
    pub open spec fn metas(self) -> Seq<MetaModel> {
        metas_model(self.manifest.metadata@)
    }

    /// The tensor table.
    pub open spec fn tensors(self) -> Seq<TensorModel> {
        tensors_model(self.manifest.tensors@)
    }

    /// Opens a file that is held in memory.
    pub fn open(data: &'a [u8]) -> (r: Result<HypnoModel<'a>, FormatError>)
        ensures
            r matches Ok(m) ==> m.wf() && m.file() == data@,
            r matches Err(e) ==> manifest_of(data@) == Err::<(ManifestModel, int), FormatFault>(
                e@,
            ),
            r is Ok <==> manifest_of(data@) is Ok,
    {
        match read_manifest(data) {
            Ok((manifest, _)) => Ok(HypnoModel { data, manifest }),
            Err(e) => Err(e),
        }
    }

    /// Bytes of the file.
    pub fn size(&self) -> (n: usize)
        ensures
            n == self.file().len(),
    {
        self.data.len()
    }

    fn tensor_position(&self, name: &str) -> (r: Option<usize>)
        ensures
            match r {
                Some(i) => tensor_index(self.tensors(), name@) == Some(i as int) && i
                    < self.manifest.tensors@.len(),
                None => tensor_index(self.tensors(), name@) is None,
            },
    {
        let ghost all = self.tensors();
        let mut i: usize = 0;
        assert(all.take(0) =~= Seq::<TensorModel>::empty());
        while i < self.manifest.tensors.len()
            invariant
                all == self.tensors(),
                i <= self.manifest.tensors@.len(),
                tensor_index(all.take(i as int), name@) is None,
            decreases self.manifest.tensors@.len() - i,
        {
            assert(all.take(i + 1).drop_last() =~= all.take(i as int));
            assert(all.take(i + 1).last() == self.manifest.tensors@[i as int]@);
            if same_text(self.manifest.tensors[i].name.as_str(), name) {
                proof {
                    lemma_tensor_index_prefix(all, name@, (i + 1) as nat);
                }
                return Some(i);
            }
            i = i + 1;
        }
        assert(all.take(i as int) =~= all);
        None
    }

    /// The data of the first tensor with the name `name`, and its element type.
    pub fn get_tensor_data(&self, name: &str) -> (r: Option<(&'a [u8], DType)>)
        ensures
            match r {
                Some(x) => tensor_data(self.file(), self.tensors(), name@) == Some((x.0@, x.1)),
                None => tensor_data(self.file(), self.tensors(), name@) is None,
            },
    {
        match self.tensor_position(name) {
            Some(i) => {
                let t = &self.manifest.tensors[i];
                assert(self.tensors()[i as int] == t@);
                let size: u64 = self.data.len() as u64;
                if t.offset > size || t.data_len > size - t.offset {
                    return None;
                }
                let start: usize = t.offset as usize;
                let end: usize = start + t.data_len as usize;
                Some((vstd::slice::slice_subrange(self.data, start, end), t.dtype))
            },
            None => None,
        }
    }

    /// The table entry of the first tensor with the name `name`.
    pub fn find_tensor(&self, name: &str) -> (r: Option<&TensorMeta>)
        ensures
            match r {
                Some(t) => tensor_index(self.tensors(), name@) matches Some(i) && *t
                    == self.manifest.tensors@[i],
                None => tensor_index(self.tensors(), name@) is None,
            },
    {
        match self.tensor_position(name) {
            Some(i) => Some(&self.manifest.tensors[i]),
            None => None,
        }
    }

    /// The value of the first metadata entry with the key `key`.
    pub fn get_metadata(&self, key: &str) -> (r: Option<&str>)
        ensures
            match r {
                Some(v) => meta_value(self.metas(), key@) == Some(v@),
                None => meta_value(self.metas(), key@) is None,
            },
    {
        let ghost all = self.metas();
        let mut i: usize = 0;
        assert(all.take(0) =~= Seq::<MetaModel>::empty());
        while i < self.manifest.metadata.len()
            invariant
                all == self.metas(),
                i <= self.manifest.metadata@.len(),
                meta_value(all.take(i as int), key@) is None,
            decreases self.manifest.metadata@.len() - i,
        {
            assert(all.take(i + 1).drop_last() =~= all.take(i as int));
            assert(all.take(i + 1).last() == self.manifest.metadata@[i as int]@);
            if same_text(self.manifest.metadata[i].key.as_str(), key) {
                proof {
                    lemma_meta_value_prefix(all, key@, (i + 1) as nat);
                }
                return Some(self.manifest.metadata[i].value.as_str());
            }
            i = i + 1;
        }
        assert(all.take(i as int) =~= all);
        None
    }

    /// Checks of every tensor, in the order of the table, that its data lies within the file, and
    /// then of every tensor that its data can be read by its name.
    pub fn validate(&self) -> (r: Result<(), ValidateError>)
        ensures
            r is Ok <==> forall|i: int|
                0 <= i < self.tensors().len() ==> (#[trigger] self.tensors()[i]).within(
                    self.file().len(),
                ),
            r matches Err(e) ==> (e matches ValidateError::OutOfBounds(i) && i
                < self.tensors().len() && !self.tensors()[i as int].within(self.file().len())
                && forall|j: int|
                0 <= j < i ==> (#[trigger] self.tensors()[j]).within(self.file().len())),
    {
        let size: u64 = self.data.len() as u64;
        let mut i: usize = 0;
        while i < self.manifest.tensors.len()
            invariant
                size == self.file().len(),
                i <= self.manifest.tensors@.len(),
                forall|j: int|
                    0 <= j < i ==> (#[trigger] self.tensors()[j]).within(self.file().len()),
            decreases self.manifest.tensors@.len() - i,
        {
            let t = &self.manifest.tensors[i];
            assert(self.tensors()[i as int] == t@);
            if t.offset > size || t.data_len > size - t.offset {
                return Err(ValidateError::OutOfBounds(i));
            }
            i = i + 1;
        }
        let mut k: usize = 0;
        while k < self.manifest.tensors.len()
            invariant
                k <= self.manifest.tensors@.len(),
                forall|j: int|
                    0 <= j < self.tensors().len() ==> (#[trigger] self.tensors()[j]).within(
                        self.file().len(),
                    ),
            decreases self.manifest.tensors@.len() - k,
        {
            proof {
                lemma_tensor_index(self.tensors(), self.tensors()[k as int].name);
            }
            if self.get_tensor_data(self.manifest.tensors[k].name.as_str()).is_none() {
                return Err(ValidateError::NotAccessible(k));
            }
            k = k + 1;
        }
        Ok(())
    }
}

/// A file that was opened is valid: the data of every tensor lies within it and can be read by
/// the tensor's name.
pub proof fn law_opened_file_is_valid(m: HypnoModel<'_>)
    requires
        m.wf(),
    ensures
        forall|i: int|
            0 <= i < m.tensors().len() ==> (#[trigger] m.tensors()[i]).within(m.file().len()),
        forall|i: int|
            0 <= i < m.tensors().len() ==> tensor_data(
                m.file(),
                m.tensors(),
                (#[trigger] m.tensors()[i]).name,
            ) is Some,
{
    law_read_manifest_was_written(m.file());
    assert forall|i: int| 0 <= i < m.tensors().len() implies tensor_data(
        m.file(),
        m.tensors(),
        (#[trigger] m.tensors()[i]).name,
    ) is Some by {
        lemma_tensor_index(m.tensors(), m.tensors()[i].name);
    }
}

/// What a read gives back of a write: in a file that was built by the plan, each tensor whose data
/// was put into it, and whose name no earlier one has, is found with its data and its element
/// type.
pub proof fn law_tensor_round_trip(
    metas: Seq<MetaModel>,
    items: Seq<ItemModel>,
    data: Seq<Option<Seq<u8>>>,
    i: int,
)
    requires
        plan_fits(metas, items),
        right_data(items, data),
        reaches_all(items, data),
        0 <= i < items.len(),
        data[i] is Some,
        forall|j: int| 0 <= j < i ==> (#[trigger] items[j]).name != items[i].name,
    ensures
        ({
            let file = image_of(planned(metas, items), data, items.len());
            &&& manifest_of(file) is Ok
            &&& tensor_data(file, manifest_of(file)->Ok_0.0.tensors, items[i].name) == Some(
                (data[i]->Some_0, items[i].dtype),
            )
        }),
{
    let m = planned(metas, items);
    let file = image_of(m, data, items.len());
    law_file_round_trip(metas, items, data);
    assert(m.tensors[i].name == items[i].name);
    assert forall|j: int| 0 <= j < i implies (#[trigger] m.tensors[j]).name != items[i].name by {
        assert(items[j].name != items[i].name);
    }
    lemma_tensor_index_is(m.tensors, items[i].name, i);
    crate::writer::law_plan_places_apart(metas, items, i, items.len() as int);
}

} // verus!
