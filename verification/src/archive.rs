//! Tensors of safetensors archives.

use vstd::prelude::*;
use vstd::utf8::{decode_utf8, valid_utf8};
use crate::bytes::{le_bytes, le_value, push_le, read_le};
use crate::bytes::{lemma_le_bytes_len, lemma_le_value_bound, lemma_pow256_values};
use crate::dtype::DType;
use crate::float::{bf16_to_f32, brain_single, is_narrow, is_wide, FloatUnit};
use crate::format::{product, read_utf8};
use crate::json::{json_document, parse_json, Json, JsonModel};
use crate::order::{contents, lemma_pairs_push, pairs_map, TextMap};
use crate::quant::{is_q4_data, is_q8_data, quantize_f32_to_q4_0, quantize_f32_to_q8_0};

verus! {

/// The element types of an archive that can be converted, and all others.
#[derive(Debug, Clone, Copy, PartialEq, Eq, Structural)]
pub enum SourceDType {
    F32,
    F16,
    BF16,
    Other,
}

/// A tensor of an archive.
#[derive(Debug)]
pub struct SourceTensor {
    pub dtype: SourceDType,
    pub shape: Vec<u64>,
    pub data: Vec<u8>,
}

/// The mathematical content of a [`SourceTensor`].
pub struct SourceModel {
    pub dtype: SourceDType,
    pub shape: Seq<u64>,
    pub data: Seq<u8>,
}

impl View for SourceTensor {
    type V = SourceModel;

    open spec fn view(&self) -> SourceModel {
        SourceModel { dtype: self.dtype, shape: self.shape@, data: self.data@ }
    }
}

impl SourceModel {
    /// The data is as long as shape and element type say.
    pub open spec fn sized(self) -> bool {
        &&& product(self.shape) <= usize::MAX
        &&& self.dtype == SourceDType::F32 ==> self.data.len() == 4 * product(self.shape)
        &&& self.dtype == SourceDType::F16 ==> self.data.len() == 2 * product(self.shape)
        &&& self.dtype == SourceDType::BF16 ==> self.data.len() == 2 * product(self.shape)
    }
}

/// The tensors of an archive by name; `None` where the bytes are no archive.
pub uninterp spec fn tensor_archive(bytes: Seq<u8>) -> Option<Map<Seq<char>, SourceModel>>;

/// The pairs of names and contents of a list of tensors.
pub open spec fn tensor_pairs(v: Seq<(String, SourceTensor)>) -> Seq<(Seq<char>, SourceModel)> {
    Seq::new(v.len(), |i: int| (v[i].0@, v[i].1@))
}

/// The text of the header of a file: behind its length in the first 8 bytes. `None` where the file
/// has none.
pub open spec fn header_text(bytes: Seq<u8>) -> Option<Seq<char>> {
    let n = le_value(bytes.subrange(0, 8)) as int;
    if bytes.len() < 8 || 8 + n > bytes.len() || !valid_utf8(bytes.subrange(8, 8 + n)) {
        None
    } else {
        Some(decode_utf8(bytes.subrange(8, 8 + n)))
    }
}

/// Where the data of a tensor ends, as its entry in the header says. An entry is an object with the
/// member "data_offsets", or the list of its members' values.
pub open spec fn data_end(entry: JsonModel) -> Option<u64> {
    match entry {
        JsonModel::Array(_) => entry.element(2).element(1).whole(),
        _ => entry.member("data_offsets"@).element(1).whole(),
    }
}

/// Where the data of a tensor ends, added to the length of the file, fits a `usize`.
pub open spec fn leaves_room(entry: JsonModel, len: nat) -> bool {
    data_end(entry) matches Some(end) ==> end + len <= usize::MAX
}

/// All entries of a header leave room for the length of the file.
pub open spec fn document_leaves_room(document: JsonModel, len: nat) -> bool {
    match document {
        JsonModel::Object(fields) => forall|i: int|
            0 <= i < fields.len() ==> leaves_room((#[trigger] fields[i]).1, len),
        _ => true,
    }
}

/// The offsets in the header of a file leave room for the length of the file.
pub open spec fn has_modest_offsets(bytes: Seq<u8>) -> bool {
    match header_text(bytes) {
        Some(text) => json_document(text) matches Ok(document) ==> document_leaves_room(
            document,
            bytes.len(),
        ),
        None => true,
    }
}

fn entry_leaves_room(entry: &Json, len: usize) -> (r: bool)
    ensures
        r == leaves_room(entry@, len as nat),
{
    let offsets = match entry {
        Json::Array(_) => entry.at(2),
        _ => entry.get("data_offsets"),
    };
    let end: Option<u64> = match offsets {
        Some(pair) => match pair.at(1) {
            Some(n) => n.as_u64(),
            None => None,
        },
        None => None,
    };
    assert(end == data_end(entry@));
    match end {
        Some(e) => e as u128 + len as u128 <= usize::MAX as u128,
        None => true,
    }
}

/// Whether the offsets in the header of a file leave room for the length of the file.
fn offsets_are_modest(bytes: &[u8]) -> (r: bool)
    ensures
        r == has_modest_offsets(bytes@),
{
    let size: usize = bytes.len();
    if size < 8 {
        return true;
    }
    let n: u64 = read_le(bytes, 0, 8);
    if n > (size - 8) as u64 {
        return true;
    }
    let text = match read_utf8(vstd::slice::slice_subrange(bytes, 8, 8 + n as usize)) {
        Ok(s) => s,
        Err(_) => {
            return true;
        },
    };
    let document = match parse_json(text) {
        Ok(d) => d,
        Err(_) => {
            return true;
        },
    };
    match &document {
        Json::Object(fields) => {
            let ghost all = document@->Object_0;
            let mut i: usize = 0;
            while i < fields.len()
                invariant
                    document is Object && *fields == document->Object_0,
                    all == document@->Object_0,
                    i <= fields@.len() == all.len(),
                    size == bytes@.len(),
                    header_text(bytes@) == Some(text@),
                    json_document(text@) == Ok::<JsonModel, Seq<char>>(document@),
                    forall|k: int|
                        0 <= k < i ==> leaves_room((#[trigger] all[k]).1, size as nat),
                decreases fields@.len() - i,
            {
                assert(all[i as int].1 == fields@[i as int].1@);
                if !entry_leaves_room(&fields[i].1, size) {
                    assert(!document_leaves_room(document@, size as nat));
                    return false;
                }
                i = i + 1;
            }
            true
        },
        _ => true,
    }
}

/// Reads an archive, by `safetensors::SafeTensors::deserialize` and `SafeTensors::tensors`. The
/// tensors come in any order, each name once. `deserialize` accepts an archive only if the
/// number of elements of each tensor fits a `usize` and the length of its data is that number
/// times the size of an element. It adds the offset behind the last tensor to the length of the
/// header unchecked, so the offsets in the header have to leave room for that. Which of several
/// faults is reported is left open: `deserialize` collects the tensors in a `HashMap`, so that it
/// depends on the order in which that is walked.
#[verifier::external_body]
fn deserialize_archive(bytes: &[u8]) -> (r: Result<Vec<(String, SourceTensor)>, String>)
    requires
        has_modest_offsets(bytes@),
    ensures
        r matches Ok(v) ==> tensor_archive(bytes@) == Some(pairs_map(tensor_pairs(v@)))
            && (forall|i: int, j: int|
            0 <= i < j < v@.len() ==> (#[trigger] v@[i]).0@ != (#[trigger] v@[j]).0@) && forall|
            i: int,
        |
            0 <= i < v@.len() ==> (#[trigger] v@[i]).1@.sized(),
        r is Err ==> tensor_archive(bytes@) is None,
{
    let sf = safetensors::SafeTensors::deserialize(bytes).map_err(|e| format!("{:?}", e))?;
    Ok(sf.tensors().into_iter().map(|(name, view)| {
        let dtype = match view.dtype() {
            safetensors::Dtype::F32 => SourceDType::F32,
            safetensors::Dtype::F16 => SourceDType::F16,
            safetensors::Dtype::BF16 => SourceDType::BF16,
            _ => SourceDType::Other,
        };
        let shape = view.shape().iter().map(|d| *d as u64).collect();
        (name, SourceTensor { dtype, shape, data: view.data().to_vec() })
    }).collect())
}

/// The tensors of a file by name; `None` where it is no archive, or where an offset in its header
/// is beyond what a file can have.
pub open spec fn file_tensors(bytes: Seq<u8>) -> Option<Map<Seq<char>, SourceModel>> {
    if has_modest_offsets(bytes) {
        tensor_archive(bytes)
    } else {
        None
    }
}

/// Reads the tensors of a file, each name once.
pub fn read_archive(bytes: &[u8]) -> (r: Result<Vec<(String, SourceTensor)>, String>)
    ensures
        r is Ok <==> file_tensors(bytes@) is Some,
        r matches Ok(v) ==> {
            &&& file_tensors(bytes@) == Some(pairs_map(tensor_pairs(v@)))
            &&& forall|i: int, j: int|
                0 <= i < j < v@.len() ==> (#[trigger] v@[i]).0@ != (#[trigger] v@[j]).0@
            &&& forall|i: int| 0 <= i < v@.len() ==> (#[trigger] v@[i]).1@.sized()
        },
{
    if offsets_are_modest(bytes) {
        deserialize_archive(bytes)
    } else {
        Err("MetadataIncompleteBuffer".to_owned())
    }
}

/// The tensors of several archives by name: that of the last archive that has the name.
pub open spec fn merged(files: Seq<Seq<u8>>) -> Option<Map<Seq<char>, SourceModel>>
    decreases files.len(),
{
    if files.len() == 0 {
        Some(Map::empty())
    } else {
        match (merged(files.drop_last()), file_tensors(files.last())) {
            (Some(a), Some(b)) => Some(a.union_prefer_right(b)),
            _ => None,
        }
    }
}

/// The contents of several files.
pub open spec fn file_bytes(files: Seq<Vec<u8>>) -> Seq<Seq<u8>> {
    Seq::new(files.len(), |i: int| files[i]@)
}

/// Every tensor of a map has as much data as it should.
pub open spec fn all_sized(m: Map<Seq<char>, SourceTensor>) -> bool {
    forall|k: Seq<char>| m.contains_key(k) ==> (#[trigger] m[k])@.sized()
}

/// Puts the tensors of an archive into a map of tensors, over those that are there.
fn add_tensors(map: &mut TextMap<SourceTensor>, tensors: Vec<(String, SourceTensor)>)
    requires
        old(map).wf(),
        all_sized(old(map)@),
        forall|i: int| 0 <= i < tensors@.len() ==> (#[trigger] tensors@[i]).1@.sized(),
    ensures
        final(map).wf(),
        all_sized(final(map)@),
        contents(final(map)@) == contents(old(map)@).union_prefer_right(
            pairs_map(tensor_pairs(tensors@)),
        ),
{
    let ghost all = tensors@;
    let ghost base = contents(map@);
    let mut rest = tensors;
    let mut front: Vec<(String, SourceTensor)> = Vec::new();
    while rest.len() > 0
        invariant
            rest@ + front@.reverse() =~= all,
        decreases rest@.len(),
    {
        match rest.pop() {
            Some(x) => {
                let ghost before = front@;
                front.push(x);
                assert(front@.reverse() =~= seq![x] + before.reverse());
            },
            None => {},
        }
    }
    let ghost mut done: int = 0;
    assert(tensor_pairs(all).take(0) =~= Seq::<(Seq<char>, SourceModel)>::empty());
    assert(base =~= base.union_prefer_right(pairs_map(tensor_pairs(all).take(0))));
    while front.len() > 0
        invariant
            0 <= done,
            done + front@.len() == all.len(),
            front@.reverse() =~= all.subrange(done, all.len() as int),
            map.wf(),
            all_sized(map@),
            forall|i: int| 0 <= i < all.len() ==> (#[trigger] all[i]).1@.sized(),
            contents(map@) == base.union_prefer_right(pairs_map(tensor_pairs(all).take(done))),
        decreases front@.len(),
    {
        let ghost before = front@;
        match front.pop() {
            Some((name, tensor)) => {
                proof {
                    assert(before.reverse()[0] == before.last());
                    assert(before.reverse()[0] == all[done]);
                    assert(front@.reverse() =~= before.reverse().subrange(
                        1,
                        before.len() as int,
                    ));
                    let pairs = tensor_pairs(all);
                    lemma_pairs_push(pairs.take(done), name@, tensor@);
                    assert(pairs.take(done).push((name@, tensor@)) =~= pairs.take(done + 1));
                }
                let ghost k = name@;
                let ghost old_map = map@;
                map.insert(name, tensor);
                proof {
                    assert forall|x: Seq<char>| map@.contains_key(x) implies (
                    #[trigger] map@[x])@.sized() by {
                        if x != k {
                            assert(old_map.contains_key(x) && old_map[x]@.sized());
                        }
                    }
                    assert(contents(map@) =~= contents(old_map).insert(k, tensor@));
                    assert(contents(map@) =~= base.union_prefer_right(
                        pairs_map(tensor_pairs(all).take(done + 1)),
                    ));
                    done = done + 1;
                }
            },
            None => {},
        }
    }
    assert(tensor_pairs(all).take(done) =~= tensor_pairs(all));
}

/// Reads archives and merges their tensors; an error names the first file that is no archive.
pub fn read_archives(files: &Vec<Vec<u8>>) -> (r: Result<
    TextMap<SourceTensor>,
    (usize, String),
>)
    ensures
        r matches Ok(m) ==> m.wf() && all_sized(m@) && merged(file_bytes(files@)) == Some(
            contents(m@),
        ),
        r matches Err(e) ==> e.0 < files@.len() && file_tensors(files@[e.0 as int]@) is None
            && forall|i: int| 0 <= i < e.0 ==> file_tensors((#[trigger] files@[i])@) is Some,
        r is Ok <==> forall|i: int|
            0 <= i < files@.len() ==> file_tensors((#[trigger] files@[i])@) is Some,
{
    let mut map: TextMap<SourceTensor> = TextMap::new();
    let ghost all = file_bytes(files@);
    let mut i: usize = 0;
    assert(all.take(0) =~= Seq::<Seq<u8>>::empty());
    assert(contents(map@) =~= Map::<Seq<char>, SourceModel>::empty());
    while i < files.len()
        invariant
            all == file_bytes(files@),
            i <= files@.len(),
            map.wf(),
            all_sized(map@),
            merged(all.take(i as int)) == Some(contents(map@)),
            forall|k: int| 0 <= k < i ==> file_tensors((#[trigger] files@[k])@) is Some,
        decreases files@.len() - i,
    {
        assert(all.take(i + 1).drop_last() =~= all.take(i as int));
        assert(all.take(i + 1).last() == files@[i as int]@);
        match read_archive(files[i].as_slice()) {
            Ok(tensors) => {
                add_tensors(&mut map, tensors);
            },
            Err(e) => {
                return Err((i, e));
            },
        }
        i = i + 1;
    }
    assert(all.take(i as int) =~= all);
    Ok(map)
}

/// `values` are the elements of a tensor, as 32-bit patterns.
pub open spec fn is_values<U: FloatUnit>(u: &U, t: SourceModel, values: Seq<u32>) -> bool {
    match t.dtype {
        SourceDType::F32 => values.len() == t.data.len() / 4 && forall|i: int|
            0 <= i < values.len() ==> #[trigger] values[i] == le_value(
                t.data.subrange(4 * i, 4 * i + 4),
            ),
        SourceDType::F16 => values.len() == t.data.len() / 2 && forall|i: int|
            0 <= i < values.len() ==> is_wide(
                u,
                le_value(t.data.subrange(2 * i, 2 * i + 2)) as u16,
                #[trigger] values[i],
            ),
        SourceDType::BF16 => values.len() == t.data.len() / 2 && forall|i: int|
            0 <= i < values.len() ==> #[trigger] values[i] == brain_single(
                le_value(t.data.subrange(2 * i, 2 * i + 2)) as u16,
            ),
        SourceDType::Other => false,
    }
}

/// The elements of a tensor as 32-bit patterns; `None` for an element type that cannot be
/// converted.
pub fn tensor_values<U: FloatUnit>(t: &SourceTensor, unit: &U) -> (r: Option<Vec<u32>>)
    ensures
        match r {
            Some(v) => is_values(unit, t@, v@),
            None => t.dtype == SourceDType::Other,
        },
{
    let size: usize = t.data.len();
    let data = t.data.as_slice();
    let mut values: Vec<u32> = Vec::new();
    let mut i: usize = 0;
    proof {
        lemma_pow256_values();
    }
    match t.dtype {
        SourceDType::F32 => {
            while i < size / 4
                invariant
                    i <= size / 4,
                    size == data@.len(),
                    values@.len() == i,
                    crate::bytes::pow256(4) == 0x1_0000_0000,
                    forall|k: int|
                        0 <= k < i ==> #[trigger] values@[k] == le_value(
                            data@.subrange(4 * k, 4 * k + 4),
                        ),
                decreases size / 4 - i,
            {
                proof {
                    lemma_le_value_bound(data@.subrange(4 * i, 4 * i + 4));
                }
                values.push(read_le(data, 4 * i, 4) as u32);
                i = i + 1;
            }
        },
        SourceDType::F16 => {
            while i < size / 2
                invariant
                    i <= size / 2,
                    size == data@.len(),
                    values@.len() == i,
                    crate::bytes::pow256(2) == 0x1_0000,
                    forall|k: int|
                        0 <= k < i ==> is_wide(
                            unit,
                            le_value(data@.subrange(2 * k, 2 * k + 2)) as u16,
                            #[trigger] values@[k],
                        ),
                decreases size / 2 - i,
            {
                proof {
                    lemma_le_value_bound(data@.subrange(2 * i, 2 * i + 2));
                }
                values.push(unit.widen(read_le(data, 2 * i, 2) as u16));
                i = i + 1;
            }
        },
        SourceDType::BF16 => {
            while i < size / 2
                invariant
                    i <= size / 2,
                    size == data@.len(),
                    values@.len() == i,
                    crate::bytes::pow256(2) == 0x1_0000,
                    forall|k: int|
                        0 <= k < i ==> #[trigger] values@[k] == brain_single(
                            le_value(data@.subrange(2 * k, 2 * k + 2)) as u16,
                        ),
                decreases size / 2 - i,
            {
                proof {
                    lemma_le_value_bound(data@.subrange(2 * i, 2 * i + 2));
                }
                values.push(bf16_to_f32(read_le(data, 2 * i, 2) as u16));
                i = i + 1;
            }
        },
        SourceDType::Other => {
            return None;
        },
    }
    Some(values)
}

/// `d` holds `values` in the element type `dtype`.
pub open spec fn is_encoded<U: FloatUnit>(
    u: &U,
    dtype: DType,
    values: Seq<u32>,
    d: Seq<u8>,
) -> bool {
    match dtype {
        DType::FP32 => d.len() == 4 * values.len() && forall|i: int|
            0 <= i < values.len() ==> d.subrange(4 * i, 4 * i + 4) == le_bytes(
                #[trigger] values[i] as nat,
                4,
            ),
        DType::FP16 => d.len() == 2 * values.len() && forall|i: int|
            0 <= i < values.len() ==> is_narrow(
                u,
                #[trigger] values[i],
                le_value(d.subrange(2 * i, 2 * i + 2)) as u16,
            ),
        DType::Q8_0 => is_q8_data(u, values, d),
        DType::Q4_0 => is_q4_data(u, values, d),
    }
}

/// Values take as many bytes as their element type says.
pub proof fn law_encoded_len<U: FloatUnit>(u: &U, dtype: DType, values: Seq<u32>, d: Seq<u8>)
    requires
        is_encoded(u, dtype, values, d),
    ensures
        d.len() == dtype.stored_len(values.len()),
{
}

/// Stores values in an element type.
pub fn encode_values<U: FloatUnit>(values: &[u32], dtype: DType, unit: &U) -> (out: Vec<u8>)
    ensures
        is_encoded(unit, dtype, values@, out@),
        out@.len() == dtype.stored_len(values@.len()),
{
    match dtype {
        DType::FP32 => encode_singles(values),
        DType::FP16 => encode_halves(values, unit),
        DType::Q8_0 => quantize_f32_to_q8_0(values, unit),
        DType::Q4_0 => quantize_f32_to_q4_0(values, unit),
    }
}

/// The bytes of 32-bit patterns.
pub fn encode_singles(values: &[u32]) -> (out: Vec<u8>)
    ensures
        out@.len() == 4 * values@.len(),
        forall|i: int|
            0 <= i < values@.len() ==> out@.subrange(4 * i, 4 * i + 4) == le_bytes(
                #[trigger] values@[i] as nat,
                4,
            ),
{
    let mut out: Vec<u8> = Vec::new();
    let mut i: usize = 0;
    while i < values.len()
        invariant
            i <= values@.len(),
            out@.len() == 4 * i,
            forall|k: int|
                0 <= k < i ==> out@.subrange(4 * k, 4 * k + 4) == le_bytes(
                    #[trigger] values@[k] as nat,
                    4,
                ),
        decreases values@.len() - i,
    {
        let ghost before = out@;
        push_le(&mut out, values[i] as u64, 4);
        proof {
            lemma_le_bytes_len(values@[i as int] as nat, 4);
            assert forall|k: int| 0 <= k < i + 1 implies out@.subrange(4 * k, 4 * k + 4)
                == le_bytes(#[trigger] values@[k] as nat, 4) by {
                if k < i {
                    assert(out@.subrange(4 * k, 4 * k + 4) =~= before.subrange(4 * k, 4 * k + 4));
                } else {
                    assert(out@.subrange(4 * k, 4 * k + 4) =~= le_bytes(values@[k] as nat, 4));
                }
            }
        }
        i = i + 1;
    }
    out
}

fn encode_halves<U: FloatUnit>(values: &[u32], unit: &U) -> (out: Vec<u8>)
    ensures
        is_encoded(unit, DType::FP16, values@, out@),
{
    let mut out: Vec<u8> = Vec::new();
    let mut i: usize = 0;
    while i < values.len()
        invariant
            i <= values@.len(),
            out@.len() == 2 * i,
            forall|k: int|
                0 <= k < i ==> is_narrow(
                    unit,
                    #[trigger] values@[k],
                    le_value(out@.subrange(2 * k, 2 * k + 2)) as u16,
                ),
        decreases values@.len() - i,
    {
        let ghost before = out@;
        let h: u16 = unit.narrow(values[i]);
        push_le(&mut out, h as u64, 2);
        proof {
            lemma_pow256_values();
            crate::bytes::lemma_le_round_trip(h as nat, 2);
            assert forall|k: int| 0 <= k < i + 1 implies is_narrow(
                unit,
                #[trigger] values@[k],
                le_value(out@.subrange(2 * k, 2 * k + 2)) as u16,
            ) by {
                if k < i {
                    assert(out@.subrange(2 * k, 2 * k + 2) =~= before.subrange(2 * k, 2 * k + 2));
                } else {
                    assert(out@.subrange(2 * k, 2 * k + 2) =~= le_bytes(h as nat, 2));
                }
            }
        }
        i = i + 1;
    }
    out
}

/// Where the elements of a tensor are, the lowest byte first: of 32-bit values in four bytes each, of 16-bit
/// ones in two. The two bytes of a brain float are the upper half of its 32-bit value.
pub proof fn law_elements_of_a_tensor<U: FloatUnit>(
    u: &U,
    t: SourceModel,
    values: Seq<u32>,
    i: int,
)
    requires
        is_values(u, t, values),
        0 <= i < values.len(),
    ensures
        t.dtype == SourceDType::F32 ==> values[i] == t.data[4 * i] + 0x100 * t.data[4 * i + 1]
            + 0x1_0000 * t.data[4 * i + 2] + 0x100_0000 * t.data[4 * i + 3],
        t.dtype == SourceDType::F16 ==> is_wide(
            u,
            (t.data[2 * i] + 0x100 * t.data[2 * i + 1]) as u16,
            values[i],
        ),
        t.dtype == SourceDType::BF16 ==> values[i] == 0x1_0000 * t.data[2 * i] + 0x100_0000
            * t.data[2 * i + 1],
{
    reveal_with_fuel(le_value, 5);
    if t.dtype == SourceDType::F32 {
        let s = t.data.subrange(4 * i, 4 * i + 4);
        let s1 = s.subrange(1, 4);
        let s2 = s1.subrange(1, 3);
        let s3 = s2.subrange(1, 2);
        assert(s[0] == t.data[4 * i] && s1[0] == t.data[4 * i + 1]);
        assert(s2[0] == t.data[4 * i + 2] && s3[0] == t.data[4 * i + 3]);
        assert(le_value(s3.subrange(1, 1)) == 0);
    } else {
        let s = t.data.subrange(2 * i, 2 * i + 2);
        let s1 = s.subrange(1, 2);
        assert(s[0] == t.data[2 * i] && s1[0] == t.data[2 * i + 1]);
        assert(le_value(s1.subrange(1, 1)) == 0);
        assert(le_value(s) == t.data[2 * i] + 0x100 * t.data[2 * i + 1]);
    }
}

} // verus!
