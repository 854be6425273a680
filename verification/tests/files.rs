use std::collections::HashMap;

use hypno::archive::read_archive;
use hypno::bytes::{push_le, read_le};
use hypno::convert::{convert, effective_dtype, ConvertError};
use hypno::dtype::{blocks_for, DType};
use hypno::float::FloatUnit;
use hypno::format::{read_manifest, read_u32, read_u64, FormatError, HypnoHeader, MetaKV, TensorMeta, ALIGNMENT, MAGIC_BYTES};
use hypno::ggml::dequantize_ggml_generic;
use hypno::gguf::{
    convert_gguf_to_hypno, dequantize_bf16, dequantize_ggml_q4_1, ggml_to_hypno_dtype, map_key, parse_gguf, read_gguf_string, read_gguf_value,
    value_text, GgufConvertError, GgufError,
};
use hypno::loader::{HypnoModel, ValidateError};
use hypno::lora::{convert_lora_standalone, convert_with_adapter, load_lora_adapter, AdaptError, LoraError};
use hypno::quant::{quantize_f32_to_q4_0, Q4_0Block};
use hypno::writer::{assemble, encode_manifest, plan_file, TensorItem};

/// 32-bit arithmetic of the machine.
struct Singles;

impl FloatUnit for Singles {
    fn plus(&self, a: u32, b: u32) -> u32 {
        (f32::from_bits(a) + f32::from_bits(b)).to_bits()
    }
    fn minus(&self, a: u32, b: u32) -> u32 {
        (f32::from_bits(a) - f32::from_bits(b)).to_bits()
    }
    fn times(&self, a: u32, b: u32) -> u32 {
        (f32::from_bits(a) * f32::from_bits(b)).to_bits()
    }
    fn divide(&self, a: u32, b: u32) -> u32 {
        (f32::from_bits(a) / f32::from_bits(b)).to_bits()
    }
    fn root(&self, a: u32) -> u32 {
        f32::from_bits(a).sqrt().to_bits()
    }
    fn exponential(&self, a: u32) -> u32 {
        f32::from_bits(a).exp().to_bits()
    }
    fn power(&self, a: u32, b: u32) -> u32 {
        f32::from_bits(a).powf(f32::from_bits(b)).to_bits()
    }
    fn cosine(&self, a: u32) -> u32 {
        f32::from_bits(a).cos().to_bits()
    }
    fn sine(&self, a: u32) -> u32 {
        f32::from_bits(a).sin().to_bits()
    }
    fn larger(&self, a: u32, b: u32) -> u32 {
        f32::from_bits(a).max(f32::from_bits(b)).to_bits()
    }
    fn number(&self, n: usize) -> u32 {
        (n as f32).to_bits()
    }
    fn round_quotient(&self, a: u32, b: u32) -> i32 {
        (f32::from_bits(a) / f32::from_bits(b)).round() as i32
    }
    fn scale(&self, step: i32, by: u32) -> u32 {
        (step as f32 * f32::from_bits(by)).to_bits()
    }
    fn narrow(&self, single: u32) -> u16 {
        half::f16::from_f32(f32::from_bits(single)).to_bits()
    }
    fn widen(&self, half: u16) -> u32 {
        half::f16::from_bits(half).to_f32().to_bits()
    }
    fn double(&self, single: u32) -> u64 {
        (f32::from_bits(single) as f64).to_bits()
    }
    fn single(&self, double: u64) -> u32 {
        (f64::from_bits(double) as f32).to_bits()
    }
    fn double_number(&self, n: usize) -> u64 {
        (n as f64).to_bits()
    }
    fn double_plus(&self, a: u64, b: u64) -> u64 {
        (f64::from_bits(a) + f64::from_bits(b)).to_bits()
    }
    fn double_times(&self, a: u64, b: u64) -> u64 {
        (f64::from_bits(a) * f64::from_bits(b)).to_bits()
    }
    fn double_divide(&self, a: u64, b: u64) -> u64 {
        (f64::from_bits(a) / f64::from_bits(b)).to_bits()
    }
    fn double_root(&self, a: u64) -> u64 {
        f64::from_bits(a).sqrt().to_bits()
    }
    fn single_text(&self, bits: u32) -> String {
        f32::from_bits(bits).to_string()
    }
    fn double_text(&self, bits: u64) -> String {
        f64::from_bits(bits).to_string()
    }
    fn read_single(&self, text: &str) -> Option<u32> {
        text.parse::<f32>().ok().map(|v| v.to_bits())
    }
    fn whole_part(&self, text: &str) -> Option<u64> {
        text.parse::<f32>().ok().map(|v| v as u64)
    }
}

fn bits(values: &[f32]) -> Vec<u32> {
    values.iter().map(|v| v.to_bits()).collect()
}

fn singles(values: &[u32]) -> Vec<f32> {
    values.iter().map(|v| f32::from_bits(*v)).collect()
}

const CONFIG: &str = r#"{"architectures":["LlamaForCausalLM"],"hidden_size":64,"intermediate_size":172,
    "num_attention_heads":4,"num_key_value_heads":2,"num_hidden_layers":2,"vocab_size":1000,
    "max_position_embeddings":512,"rms_norm_eps":1e-5,"rope_theta":10000.0}"#;

fn plain(w: &[f32]) -> Vec<u8> {
    w.iter().flat_map(|v| v.to_le_bytes()).collect()
}

fn read_plain(data: &[u8]) -> Vec<f32> {
    data.chunks(4).map(|c| f32::from_le_bytes([c[0], c[1], c[2], c[3]])).collect()
}

fn archive(tensors: &[(&str, safetensors::Dtype, Vec<usize>, Vec<u8>)]) -> Vec<u8> {
    let mut map: HashMap<String, safetensors::tensor::TensorView> = HashMap::new();
    for (name, dtype, shape, data) in tensors {
        map.insert(name.to_string(), safetensors::tensor::TensorView::new(*dtype, shape.clone(), data).unwrap());
    }
    safetensors::serialize(&map, &None).unwrap()
}

fn test_safetensor() -> Vec<u8> {
    let data: Vec<f32> = (0..64).map(|i| i as f32 * 0.1).collect();
    archive(&[("weight", safetensors::Dtype::F32, vec![64], plain(&data))])
}

fn large_test_safetensor() -> Vec<u8> {
    let data: Vec<f32> = (0..128 * 64).map(|i| (i as f32) * 0.1).collect();
    archive(&[("weight", safetensors::Dtype::F32, vec![128, 64], plain(&data))])
}

fn meta(key: &str, value: &str) -> MetaKV {
    MetaKV { key: key.to_string(), value: value.to_string() }
}

#[test]
fn test_convert_and_validate() {
    let file = convert(CONFIG, None, &vec![test_safetensor()], DType::FP32, false, &Singles).unwrap();
    let model = HypnoModel::open(&file).unwrap();
    model.validate().unwrap();
    assert_eq!(model.get_metadata("architecture"), Some("LlamaForCausalLM"));
    assert_eq!(model.get_metadata("hidden_size"), Some("64"));
    let (data, dtype) = model.get_tensor_data("weight").unwrap();
    assert_eq!(dtype, DType::FP32);
    let floats = read_plain(data);
    assert!((floats[0] - 0.0).abs() < 0.001);
    assert_eq!(floats.len(), 64);
    assert_eq!(floats[63], 63f32 * 0.1);
}

#[test]
fn test_convert_q4_0() {
    let config = r#"{"architectures":["LlamaForCausalLM"],"hidden_size":64,"intermediate_size":172,
        "num_attention_heads":4,"num_hidden_layers":2,"vocab_size":1000,"max_position_embeddings":512,
        "rms_norm_eps":1e-5}"#;
    let file = convert(config, None, &vec![large_test_safetensor()], DType::Q4_0, false, &Singles).unwrap();
    let model = HypnoModel::open(&file).unwrap();
    model.validate().unwrap();
    let (data, dtype) = model.get_tensor_data("weight").unwrap();
    assert_eq!(dtype, DType::Q4_0);
    assert_eq!(data.len(), 4608);
    assert_eq!(model.get_metadata("num_key_value_heads"), Some("4"));
}

#[test]
fn matrices_are_stored_by_columns() {
    let w = archive(&[("w", safetensors::Dtype::F32, vec![2, 3], plain(&[1.0, 2.0, 3.0, 4.0, 5.0, 6.0]))]);
    let file = convert("{}", None, &vec![w], DType::FP32, true, &Singles).unwrap();
    let model = HypnoModel::open(&file).unwrap();
    assert_eq!(model.get_metadata("weight_layout"), Some("col_major"));
    assert_eq!(read_plain(model.get_tensor_data("w").unwrap().0), vec![1.0, 4.0, 2.0, 5.0, 3.0, 6.0]);
    assert_eq!(model.find_tensor("w").unwrap().shape, vec![2, 3]);
}

#[test]
fn small_tensors_are_not_quantized() {
    assert_eq!(effective_dtype(DType::Q4_0, 4096), DType::FP32);
    assert_eq!(effective_dtype(DType::Q4_0, 4097), DType::Q4_0);
    assert_eq!(effective_dtype(DType::Q8_0, 100), DType::FP32);
    assert_eq!(effective_dtype(DType::FP16, 100), DType::FP16);
}

#[test]
fn all_source_types_are_converted() {
    let halves: Vec<u8> = [1.5f32, -2.0].iter().flat_map(|v| half::f16::from_f32(*v).to_le_bytes()).collect();
    let brains: Vec<u8> = [1.5f32, -2.0].iter().flat_map(|v| half::bf16::from_f32(*v).to_le_bytes()).collect();
    let file = archive(&[
        ("a", safetensors::Dtype::F16, vec![2], halves),
        ("b", safetensors::Dtype::BF16, vec![2], brains),
        ("c", safetensors::Dtype::I64, vec![1], vec![0; 8]),
        ("d", safetensors::Dtype::F32, vec![2, 1], plain(&[1.5, -2.0])),
    ]);
    let out = convert(CONFIG, Some("{}"), &vec![file], DType::FP16, false, &Singles).unwrap();
    let model = HypnoModel::open(&out).unwrap();
    for name in ["a", "b", "d"] {
        let (data, dtype) = model.get_tensor_data(name).unwrap();
        assert_eq!(dtype, DType::FP16);
        assert_eq!(half::f16::from_le_bytes([data[0], data[1]]).to_f32(), 1.5);
        assert_eq!(half::f16::from_le_bytes([data[2], data[3]]).to_f32(), -2.0);
    }
    assert_eq!(model.find_tensor("d").unwrap().shape, vec![2, 1]);
    assert_eq!(model.get_metadata("tokenizer_json"), Some("{}"));
}

#[test]
fn conversion_fails_without_its_parts() {
    let good = vec![test_safetensor()];
    assert!(matches!(convert("{", None, &good, DType::FP32, false, &Singles), Err(ConvertError::Config(_))));
    assert!(matches!(convert(CONFIG, None, &Vec::new(), DType::FP32, false, &Singles), Err(ConvertError::NoFiles)));
    let bad = vec![test_safetensor(), vec![1, 2, 3]];
    assert!(matches!(convert(CONFIG, None, &bad, DType::FP32, false, &Singles), Err(ConvertError::Archive(1, _))));
}

fn with_header(header: &str) -> Vec<u8> {
    let mut file = (header.len() as u64).to_le_bytes().to_vec();
    file.extend_from_slice(header.as_bytes());
    file
}

#[test]
fn offsets_beyond_any_file_are_refused() {
    let last = u64::MAX;
    let header = format!(r#"{{"x":{{"dtype":"U8","shape":[{last}],"data_offsets":[0,{last}]}}}}"#);
    let file = vec![with_header(&header)];
    assert!(matches!(convert(CONFIG, None, &file, DType::FP32, false, &Singles), Err(ConvertError::Archive(0, _))));
    let header = format!(r#"{{"x":{{"dtype":"F32","shape":[{last},0],"data_offsets":[0,0]}}}}"#);
    assert!(read_archive(&with_header(&header)).is_ok());
    let header = format!(r#"{{"x":["U8",[{last}],[0,{last}]]}}"#);
    assert!(read_archive(&with_header(&header)).is_err());
    let long_name = format!("n\\\"{last}{last}");
    let header = format!(r#"{{"{long_name}":{{"dtype":"F32","shape":[1],"data_offsets":[0,4]}}}}"#);
    let mut file = with_header(&header);
    file.extend_from_slice(&1.5f32.to_le_bytes());
    let out = convert(CONFIG, None, &vec![file], DType::FP32, false, &Singles).unwrap();
    let model = HypnoModel::open(&out).unwrap();
    let name = format!("n\"{last}{last}");
    assert_eq!(read_plain(model.get_tensor_data(&name).unwrap().0), vec![1.5]);
}

#[test]
fn tensors_of_all_archives_are_converted() {
    let one = archive(&[("x", safetensors::Dtype::F32, vec![1], plain(&[1.0])), ("y", safetensors::Dtype::F32, vec![1], plain(&[2.0]))]);
    let two = archive(&[("y", safetensors::Dtype::F32, vec![1], plain(&[3.0])), ("z", safetensors::Dtype::F32, vec![1], plain(&[4.0]))]);
    let file = convert(CONFIG, None, &vec![one, two], DType::FP32, false, &Singles).unwrap();
    let model = HypnoModel::open(&file).unwrap();
    assert_eq!(model.manifest.tensors.len(), 3);
    assert_eq!(read_plain(model.get_tensor_data("x").unwrap().0), vec![1.0]);
    assert_eq!(read_plain(model.get_tensor_data("y").unwrap().0), vec![3.0]);
    assert_eq!(read_plain(model.get_tensor_data("z").unwrap().0), vec![4.0]);
}

fn hand_made_file() -> Vec<u8> {
    let mut buf: Vec<u8> = Vec::new();
    buf.extend_from_slice(&MAGIC_BYTES);
    for n in [1u32, 2, 2] {
        buf.extend_from_slice(&n.to_le_bytes());
    }
    for (k, v) in [("architecture", "llama"), ("hidden_size", "64")] {
        buf.extend_from_slice(&(k.len() as u32).to_le_bytes());
        buf.extend_from_slice(k.as_bytes());
        buf.extend_from_slice(&(v.len() as u32).to_le_bytes());
        buf.extend_from_slice(v.as_bytes());
    }
    let fp32_bytes = plain(&(0..64).map(|i| i as f32).collect::<Vec<f32>>());
    let mut q4_block = Q4_0Block { scale: 0, qs: [0u8; 16] };
    let q4_src: Vec<f32> = (0..32).map(|i| i as f32 * 0.1).collect();
    q4_block.quantize(&bits(&q4_src), &Singles);
    let q4_bytes = q4_block.to_bytes();
    let end = buf.len() + 2 * (4 + 10 + 4 + 8 + 4 + 8 + 8);
    let data_start = (end as u64 + ALIGNMENT - 1) / ALIGNMENT * ALIGNMENT;
    let q4_offset = (data_start + fp32_bytes.len() as u64 + ALIGNMENT - 1) / ALIGNMENT * ALIGNMENT;
    for (name, len, dtype, offset, size) in
        [("weight", 64u64, 0u32, data_start, fp32_bytes.len()), ("qweight", 32, 3, q4_offset, q4_bytes.len())]
    {
        buf.extend_from_slice(&(name.len() as u32).to_le_bytes());
        buf.extend_from_slice(name.as_bytes());
        buf.extend_from_slice(&1u32.to_le_bytes());
        buf.extend_from_slice(&len.to_le_bytes());
        buf.extend_from_slice(&dtype.to_le_bytes());
        buf.extend_from_slice(&offset.to_le_bytes());
        buf.extend_from_slice(&(size as u64).to_le_bytes());
    }
    buf.resize(data_start as usize, 0);
    buf.extend_from_slice(&fp32_bytes);
    buf.resize(q4_offset as usize, 0);
    buf.extend_from_slice(&q4_bytes);
    buf
}

#[test]
fn test_open_and_read() {
    let buf = hand_made_file();
    let model = HypnoModel::open(&buf).unwrap();
    assert_eq!(model.manifest.header.metadata_kv_count, 2);
    assert_eq!(model.manifest.header.tensor_count, 2);
    assert_eq!(model.get_metadata("architecture"), Some("llama"));
    assert_eq!(model.get_metadata("hidden_size"), Some("64"));
    let (data, dtype) = model.get_tensor_data("weight").unwrap();
    assert_eq!(dtype, DType::FP32);
    let floats = read_plain(data);
    assert_eq!(floats.len(), 64);
    assert!((floats[0] - 0.0).abs() < 0.001);
    assert!((floats[63] - 63.0).abs() < 0.001);
    let (data, dtype) = model.get_tensor_data("qweight").unwrap();
    assert_eq!(dtype, DType::Q4_0);
    assert_eq!(data.len(), 18);
    assert_eq!(model.size(), buf.len());
    assert!(model.find_tensor("qweight").is_some());
    assert!(model.find_tensor("none").is_none());
    assert!(model.get_tensor_data("none").is_none());
    assert!(model.get_metadata("none").is_none());
    assert_eq!(model.validate(), Ok(()));
}

fn open_error(data: &[u8]) -> FormatError {
    match HypnoModel::open(data) {
        Ok(_) => panic!("the file was opened"),
        Err(e) => e,
    }
}

#[test]
fn broken_files_are_refused() {
    let good = hand_made_file();
    assert!(matches!(open_error(&good[..10]), FormatError::BufferTooShort { .. }));
    let mut bad = good.clone();
    bad[0] = b'X';
    let e = open_error(&bad);
    assert_eq!(e, FormatError::InvalidMagic([b'X', 0x59, 0x50, 0x4E]));
    assert_eq!(e.message(), "invalid magic bytes: expected '[72, 89, 80, 78]', got '[88, 89, 80, 78]'");
    let mut bad = good.clone();
    bad[4] = 2;
    let e = open_error(&bad);
    assert_eq!(e, FormatError::UnsupportedVersion(2));
    assert_eq!(e.message(), "unsupported format version 2 (expected 1)");
    // The first key begins behind the header and its length.
    let mut bad = good.clone();
    bad[20] = 0xFF;
    assert_eq!(open_error(&bad), FormatError::Utf8 { valid_up_to: 0, error_len: Some(1) });
    let at = good.windows(6).position(|w| w == b"weight").unwrap() + 6 + 4 + 8;
    let mut bad = good.clone();
    bad[at] = 9;
    let e = open_error(&bad);
    assert_eq!(e, FormatError::UnknownDType(9));
    assert_eq!(e.message(), "unknown dtype code: 9");
    let mut bad = good.clone();
    bad[at + 4 + 6] = 1;
    assert!(matches!(open_error(&bad), FormatError::InvalidOffset { .. }));
    let e = FormatError::BufferTooShort { needed: 20, got: 16 };
    assert_eq!(e.message(), "buffer too short: needed 20 bytes, got 16");
    let e = FormatError::InvalidOffset { offset: 5, file_size: 4 };
    assert_eq!(e.message(), "invalid tensor offset 5: out of file bounds (4)");
    let e = FormatError::Utf8 { valid_up_to: 3, error_len: Some(2) };
    assert_eq!(e.message(), "UTF-8 error: invalid utf-8 sequence of 2 bytes from index 3");
    let e = FormatError::Utf8 { valid_up_to: 3, error_len: None };
    assert_eq!(e.message(), "UTF-8 error: incomplete utf-8 byte sequence from index 3");
    for bytes in [&b"ab\xC3"[..], &b"ab\xE2\x28"[..], &b"ab\xF0\x9F\x98("[..]] {
        let std_text = std::str::from_utf8(bytes).unwrap_err().to_string();
        let mut file = b"HYPN".to_vec();
        for n in [1u32, 1, 0, bytes.len() as u32] {
            file.extend_from_slice(&n.to_le_bytes());
        }
        file.extend_from_slice(bytes);
        assert_eq!(open_error(&file).message(), format!("UTF-8 error: {}", std_text));
    }
    assert_eq!(read_u32(&[1, 0, 0, 0], 9), Err(FormatError::BufferTooShort { needed: 13, got: 4 }));
    assert_eq!(read_u64(&[1, 0, 0, 0], 9), Err(FormatError::BufferTooShort { needed: 17, got: 4 }));
    assert_eq!(read_u32(&[9, 1, 2, 0, 0], 1), Ok((0x201, 5)));
}

#[test]
fn tensors_outside_the_file_are_found_out() {
    let buf = hand_made_file();
    let mut model = HypnoModel::open(&buf).unwrap();
    model.manifest.tensors[1].offset = buf.len() as u64;
    assert_eq!(model.validate(), Err(ValidateError::OutOfBounds(1)));
    assert!(model.get_tensor_data("qweight").is_none());
}

#[test]
fn manifests_round_trip() {
    let items = vec![
        TensorItem { name: "a".to_string(), shape: vec![2, 3], dtype: DType::FP32 },
        TensorItem { name: "b".to_string(), shape: vec![40], dtype: DType::Q8_0 },
    ];
    let plan = plan_file(vec![meta("k", "v\u{e9}")], &items).unwrap();
    assert_eq!(plan.header.tensor_count, 2);
    assert_eq!(plan.tensors[0].offset % 64, 0);
    assert_eq!(plan.tensors[0].data_len, 24);
    assert_eq!(plan.tensors[1].data_len, 68);
    assert_eq!(plan.tensors[1].offset, plan.tensors[0].offset + 64);
    let mut bytes = encode_manifest(&plan);
    let end = bytes.len();
    bytes.resize((plan.tensors[1].offset + plan.tensors[1].data_len) as usize, 0);
    let (read, at) = read_manifest(&bytes).unwrap();
    assert_eq!(at, end);
    assert_eq!(read.metadata[0].value, "v\u{e9}");
    assert_eq!(read.tensors[0].shape, vec![2, 3]);
    assert_eq!(read.tensors[1].offset, plan.tensors[1].offset);
    assert_eq!(read.tensors[1].name, "b");
}

#[test]
fn files_are_assembled() {
    let items = vec![
        TensorItem { name: "a".to_string(), shape: vec![2], dtype: DType::FP16 },
        TensorItem { name: "b".to_string(), shape: vec![1], dtype: DType::FP32 },
    ];
    let data = vec![vec![1, 2, 3, 4], vec![5, 6, 7, 8]];
    let file = assemble(vec![meta("x", "y")], &items, &data).unwrap();
    assert_eq!(file.len() % 64, 0);
    let model = HypnoModel::open(&file).unwrap();
    assert_eq!(model.get_tensor_data("a").unwrap(), (&[1u8, 2, 3, 4][..], DType::FP16));
    assert_eq!(model.get_tensor_data("b").unwrap(), (&[5u8, 6, 7, 8][..], DType::FP32));
}

#[test]
fn sizes_are_counted() {
    assert_eq!(meta("ab", "cde").serialized_size(), 13);
    let t = TensorMeta { name: "w".to_string(), ndim: 2, shape: vec![3, 4], dtype: DType::FP32, offset: 0, data_len: 48 };
    assert_eq!(t.num_elements(), 12);
    assert_eq!(t.uncompressed_bytes(), 48);
    assert_eq!(t.serialized_size(), 4 + 1 + 4 + 16 + 4 + 8 + 8);
    assert!(HypnoHeader::new(1, 2).validate().is_ok());
    assert_eq!(DType::from_u32(2), Some(DType::Q8_0));
    assert_eq!(DType::from_u32(4), None);
    assert_eq!(DType::Q4_0.to_u32(), 3);
    assert_eq!(DType::FP16.element_size(), 2);
    assert_eq!(DType::Q4_0.block_size(), 32);
    assert_eq!(DType::Q4_0.block_bytes(), 18);
    assert_eq!(DType::Q8_0.data_bytes(33), 68);
    assert_eq!(DType::FP16.name(), "FP16");
    assert_eq!(blocks_for(33), 2);
    let mut out = Vec::new();
    push_le(&mut out, 0x0102_0304, 4);
    assert_eq!(out, [4, 3, 2, 1]);
    assert_eq!(read_le(&out, 1, 2), 0x0203);
}

fn adapter_archive() -> Vec<u8> {
    archive(&[
        ("base_model.model.proj.lora_A.weight", safetensors::Dtype::F32, vec![1, 2], plain(&[1.0, 2.0])),
        ("base_model.model.proj.lora_B.weight", safetensors::Dtype::F32, vec![2, 1], plain(&[10.0, 20.0])),
    ])
}

#[test]
fn adapters_are_merged() {
    let config = r#"{"r": 1, "lora_alpha": 2, "target_modules": ["proj", "other"], "base_model_name_or_path": "base"}"#;
    let adapter = load_lora_adapter(config, &adapter_archive(), &Singles).unwrap_or_else(|e| panic!("{:?}", e));
    assert_eq!(adapter.r, 1);
    assert_eq!(adapter.lora_alpha.bits.map(f64::from_bits), Some(2.0));
    assert_eq!(adapter.target_modules, vec!["proj", "other"]);
    assert_eq!(adapter.base_model_name.as_deref(), Some("base"));
    let base = archive(&[
        ("model.proj.weight", safetensors::Dtype::F32, vec![2, 2], plain(&[1.0, 1.0, 1.0, 1.0])),
        ("model.norm.weight", safetensors::Dtype::F32, vec![2], plain(&[5.0, 6.0])),
    ]);
    let file = convert_with_adapter(CONFIG, None, &vec![base], &adapter, 2f32.to_bits(), DType::FP32, false, &Singles).unwrap();
    let model = HypnoModel::open(&file).unwrap();
    // base + 2 * B A
    assert_eq!(read_plain(model.get_tensor_data("model.proj.weight").unwrap().0), vec![21.0, 41.0, 41.0, 81.0]);
    assert_eq!(read_plain(model.get_tensor_data("model.norm.weight").unwrap().0), vec![5.0, 6.0]);
    assert_eq!(model.get_metadata("hidden_size"), Some("64"));
}

#[test]
fn adapters_that_do_not_fit_are_refused() {
    let config = r#"{"r": 1}"#;
    assert!(matches!(load_lora_adapter("[", &adapter_archive(), &Singles), Err(LoraError::Config(_))));
    assert!(matches!(load_lora_adapter(config, &vec![0], &Singles), Err(LoraError::Archive(_))));
    let none = archive(&[("x", safetensors::Dtype::F32, vec![1], plain(&[1.0]))]);
    assert!(matches!(load_lora_adapter(config, &none, &Singles), Err(LoraError::NoMatrices)));
    let odd = archive(&[
        ("base_model.model.proj.lora_A.weight", safetensors::Dtype::F32, vec![1, 2], plain(&[1.0, 2.0])),
        ("base_model.model.proj.lora_B.weight", safetensors::Dtype::F32, vec![2, 2], plain(&[1.0, 2.0, 3.0, 4.0])),
    ]);
    let adapter = load_lora_adapter(config, &odd, &Singles).unwrap_or_else(|e| panic!("{:?}", e));
    let base = archive(&[("model.proj.weight", safetensors::Dtype::F32, vec![2, 2], plain(&[1.0; 4]))]);
    let r = convert_with_adapter(CONFIG, None, &vec![base], &adapter, 0, DType::FP32, false, &Singles);
    assert!(matches!(r, Err(AdaptError::Adapter(name)) if name == "model.proj.weight"));
    let r = convert_with_adapter(CONFIG, None, &Vec::new(), &adapter, 0, DType::FP32, false, &Singles);
    assert!(matches!(r, Err(AdaptError::Convert(ConvertError::NoFiles))));
}

#[test]
fn adapters_are_stored_by_themselves() {
    let config = r#"{"r": 1, "lora_alpha": 0.5, "target_modules": ["proj"]}"#;
    let adapter = load_lora_adapter(config, &adapter_archive(), &Singles).unwrap_or_else(|e| panic!("{:?}", e));
    let file = convert_lora_standalone(&adapter, DType::FP32, &Singles).unwrap();
    let model = HypnoModel::open(&file).unwrap();
    assert_eq!(model.get_metadata("lora_rank"), Some("1"));
    assert_eq!(model.get_metadata("lora_alpha"), Some("0.5"));
    assert_eq!(model.get_metadata("target_modules"), Some("proj"));
    assert_eq!(model.manifest.tensors.len(), 2);
    assert!(model.manifest.tensors.iter().all(|t| t.dtype == DType::FP32 && t.data_len == 8));
    let a = model.get_tensor_data("base_model.model.proj.lora_A.weight").unwrap();
    assert_eq!(a, (&plain(&[1.0, 2.0])[..], DType::FP32));
    let b = model.get_tensor_data("base_model.model.proj.lora_B.weight").unwrap();
    assert_eq!(b, (&plain(&[10.0, 20.0])[..], DType::FP32));
}

fn gguf_text(out: &mut Vec<u8>, s: &str) {
    out.extend_from_slice(&(s.len() as u64).to_le_bytes());
    out.extend_from_slice(s.as_bytes());
}

fn gguf_file() -> Vec<u8> {
    let mut out: Vec<u8> = Vec::new();
    out.extend_from_slice(b"GGUF");
    out.extend_from_slice(&3u32.to_le_bytes());
    out.extend_from_slice(&1u64.to_le_bytes());
    out.extend_from_slice(&3u64.to_le_bytes());
    gguf_text(&mut out, "general.architecture");
    out.extend_from_slice(&8u32.to_le_bytes());
    gguf_text(&mut out, "llama");
    gguf_text(&mut out, "llama.embedding_length");
    out.extend_from_slice(&4u32.to_le_bytes());
    out.extend_from_slice(&64u32.to_le_bytes());
    gguf_text(&mut out, "llama.rope.freq_base");
    out.extend_from_slice(&6u32.to_le_bytes());
    out.extend_from_slice(&10000f32.to_le_bytes());
    gguf_text(&mut out, "weight");
    out.extend_from_slice(&1u32.to_le_bytes());
    out.extend_from_slice(&2u64.to_le_bytes());
    out.extend_from_slice(&0u32.to_le_bytes());
    let at = out.len() as u64 + 8;
    out.extend_from_slice(&at.to_le_bytes());
    out.extend_from_slice(&plain(&[1.5, -2.5]));
    out
}

#[test]
fn gguf_files_are_converted() {
    let file = gguf_file();
    let parsed = parse_gguf(&file).unwrap_or_else(|e| panic!("{:?}", e));
    assert_eq!(parsed.version, 3);
    assert_eq!(parsed.tensors[0].name, "weight");
    assert_eq!(parsed.tensors[0].data_len, 8);
    assert_eq!(value_text(&parsed.entries[0].1, &Singles), "llama");
    let out = convert_gguf_to_hypno(&file, &Singles).unwrap_or_else(|e| panic!("{:?}", e)).file;
    let model = HypnoModel::open(&out).unwrap();
    assert_eq!(model.validate(), Ok(()));
    assert_eq!(model.get_metadata("architecture"), Some("llama"));
    assert_eq!(model.get_metadata("hidden_size"), Some("64"));
    assert_eq!(read_plain(model.get_tensor_data("weight").unwrap().0), vec![1.5, -2.5]);
}

/// A GGUF file with one tensor.
fn gguf_tensor(ggml_type: u32, n: u64, data: &[u8]) -> Vec<u8> {
    let mut out: Vec<u8> = b"GGUF".to_vec();
    out.extend_from_slice(&3u32.to_le_bytes());
    out.extend_from_slice(&1u64.to_le_bytes());
    out.extend_from_slice(&0u64.to_le_bytes());
    gguf_text(&mut out, "w");
    out.extend_from_slice(&1u32.to_le_bytes());
    out.extend_from_slice(&n.to_le_bytes());
    out.extend_from_slice(&ggml_type.to_le_bytes());
    let at = out.len() as u64 + 8;
    out.extend_from_slice(&at.to_le_bytes());
    out.extend_from_slice(data);
    out
}

#[test]
fn gguf_tensors_keep_their_values() {
    // Blocks are copied as they are, however few elements there are.
    let blocks = quantize_f32_to_q4_0(&bits(&[0.5f32; 32]), &Singles);
    let out = convert_gguf_to_hypno(&gguf_tensor(2, 32, &blocks), &Singles).unwrap_or_else(|e| panic!("{:?}", e)).file;
    let model = HypnoModel::open(&out).unwrap();
    assert_eq!(model.get_tensor_data("w"), Some((&blocks[..], DType::Q4_0)));
    // Values in 16 bits with the exponents of 32 bits.
    let out = convert_gguf_to_hypno(&gguf_tensor(17, 2, &[0x80, 0x3F, 0x00, 0xC0]), &Singles).unwrap_or_else(|e| panic!("{:?}", e)).file;
    let model = HypnoModel::open(&out).unwrap();
    assert_eq!(model.get_tensor_data("w"), Some((&plain(&[1.0, -2.0])[..], DType::FP32)));
    // Of the last block only the elements that there are.
    let mut block = vec![0u8; 20];
    block[..2].copy_from_slice(&half::f16::from_f32(2.0).to_le_bytes());
    block[2..4].copy_from_slice(&half::f16::from_f32(1.0).to_le_bytes());
    block[4] = 0x31;
    let out = convert_gguf_to_hypno(&gguf_tensor(3, 3, &block), &Singles).unwrap_or_else(|e| panic!("{:?}", e)).file;
    let model = HypnoModel::open(&out).unwrap();
    assert_eq!(model.get_tensor_data("w"), Some((&plain(&[3.0, 7.0, 1.0])[..], DType::FP32)));
    // Zeros stand for tensors of a type that is not known, and they are reported.
    let out = convert_gguf_to_hypno(&gguf_tensor(99, 3, &[1; 12]), &Singles).unwrap_or_else(|e| panic!("{:?}", e));
    assert_eq!(out.zero_filled, vec![("w".to_string(), 99)]);
    let model = HypnoModel::open(&out.file).unwrap();
    assert_eq!(model.get_tensor_data("w"), Some((&[0u8; 12][..], DType::FP32)));
}

fn half_at(b: &[u8], at: usize) -> f32 {
    half::f16::from_le_bytes([b[at], b[at + 1]]).to_f32()
}

/// The scale and the minimum of run `j`, of those that stand in 12 bytes.
fn scale_and_minimum(s: &[u8], j: usize) -> (f32, f32) {
    if j < 4 {
        ((s[j] & 63) as f32, (s[j + 4] & 63) as f32)
    } else {
        (((s[j + 4] & 15) | ((s[j - 4] >> 6) << 4)) as f32, ((s[j + 4] >> 4) | ((s[j] >> 6) << 4)) as f32)
    }
}

/// The values of one block, run by run.
fn block_values(ggml_type: u32, b: &[u8]) -> Vec<f32> {
    let mut y = Vec::new();
    match ggml_type {
        6 | 7 => {
            let at = if ggml_type == 6 { 2 } else { 4 };
            let bits = u32::from_le_bytes([b[at], b[at + 1], b[at + 2], b[at + 3]]);
            for half in 0..2 {
                for j in 0..16 {
                    let q = (b[at + 4 + j] >> (4 * half)) & 15;
                    let q = (q as u32 | (((bits >> (j + 16 * half)) & 1) << 4)) as i32;
                    y.push(if ggml_type == 6 { (q - 16) as f32 * half_at(b, 0) } else { q as f32 * half_at(b, 0) + half_at(b, 2) });
                }
            }
        }
        9 => y.extend(b[4..].iter().map(|q| *q as i8 as f32 * half_at(b, 0))),
        10 => {
            let mut run = 0;
            for n in 0..2 {
                for shift in [0, 2, 4, 6] {
                    for part in 0..2 {
                        let (scale, low) = (half_at(b, 80) * (b[run] & 15) as f32, half_at(b, 82) * (b[run] >> 4) as f32);
                        y.extend((0..16).map(|l| scale * ((b[16 + 32 * n + 16 * part + l] >> shift) & 3) as f32 - low));
                        run += 1;
                    }
                }
            }
        }
        11 => {
            let s = &b[96..108];
            let mut run = 0;
            let mut mask = 1u8;
            for n in 0..2 {
                for shift in [0, 2, 4, 6] {
                    for part in 0..2 {
                        let low = if run < 8 { s[run] & 15 } else { s[run - 8] >> 4 };
                        let scale = (low | (((s[8 + run % 4] >> (2 * (run / 4))) & 3) << 4)) as i32 - 32;
                        for l in 0..16 {
                            let q = ((b[32 + 32 * n + 16 * part + l] >> shift) & 3) as i32;
                            let q = if b[16 * part + l] & mask != 0 { q } else { q - 4 };
                            y.push(half_at(b, 108) * scale as f32 * q as f32);
                        }
                        run += 1;
                    }
                    mask = mask.wrapping_shl(1);
                }
            }
        }
        12 | 13 => {
            let at = if ggml_type == 12 { 16 } else { 48 };
            for j in 0..8 {
                let (scale, low) = scale_and_minimum(&b[4..16], j);
                let (scale, low) = (half_at(b, 0) * scale, half_at(b, 2) * low);
                for l in 0..32 {
                    let q = (b[at + 32 * (j / 2) + l] >> (4 * (j % 2))) & 15;
                    let high = if ggml_type == 13 && (b[16 + l] >> j) & 1 == 1 { 16 } else { 0 };
                    y.push(scale * (q + high) as f32 - low);
                }
            }
        }
        _ => {
            for n in 0..2 {
                let (ql, qh, s) = (&b[64 * n..], &b[128 + 32 * n..], &b[192 + 8 * n..]);
                for g in 0..4 {
                    for l in 0..32 {
                        let q = (ql[32 * (g % 2) + l] >> (4 * (g / 2))) & 15;
                        let q = (q | (((qh[l] >> (2 * g)) & 3) << 4)) as i32 - 32;
                        y.push(half_at(b, 208) * (s[2 * g + l / 16] as i8) as f32 * q as f32);
                    }
                }
            }
        }
    }
    y
}

#[test]
fn gguf_blocks_are_dequantized() {
    let scale = half::f16::from_f32(0.375).to_le_bytes();
    let low = half::f16::from_f32(1.5).to_le_bytes();
    let kinds: [(u32, usize, usize, usize); 8] =
        [(6, 32, 22, 0), (7, 32, 24, 0), (9, 32, 36, 0), (10, 256, 84, 80), (11, 256, 110, 108), (12, 256, 144, 0), (13, 256, 176, 0), (14, 256, 210, 208)];
    for (ggml_type, size, bytes, at) in kinds {
        let mut data: Vec<u8> = (0..3 * bytes).map(|i| ((i * 89 + i / 7 * 31) % 251) as u8).collect();
        for b in 0..3 {
            data[b * bytes + at..b * bytes + at + 2].copy_from_slice(&scale);
            if [7, 9, 10, 12, 13].contains(&ggml_type) {
                data[b * bytes + at + 2..b * bytes + at + 4].copy_from_slice(&low);
            }
        }
        let expected: Vec<f32> = data.chunks(bytes).flat_map(|b| block_values(ggml_type, b)).collect();
        assert_eq!(expected.len(), 3 * size);
        let values: Vec<f32> = dequantize_ggml_generic(&data, ggml_type, &Singles).iter().map(|b| f32::from_bits(*b)).collect();
        assert_eq!(values, expected, "type {}", ggml_type);
        // Of the last block only the elements that there are.
        let n = 3 * size - 5;
        let out = convert_gguf_to_hypno(&gguf_tensor(ggml_type, n as u64, &data), &Singles).unwrap_or_else(|e| panic!("{:?}", e));
        assert!(out.zero_filled.is_empty());
        let model = HypnoModel::open(&out.file).unwrap();
        assert_eq!(model.get_tensor_data("w"), Some((&plain(&expected[..n])[..], DType::FP32)));
        assert_eq!(parse_gguf(&gguf_tensor(ggml_type, n as u64, &data)).unwrap_or_else(|e| panic!("{:?}", e)).tensors[0].data_len, 3 * bytes as u64);
    }
    // A value by hand: the least scale and the largest step.
    let mut block = vec![0u8; 144];
    block[..2].copy_from_slice(&half::f16::from_f32(0.5).to_le_bytes());
    block[2..4].copy_from_slice(&half::f16::from_f32(0.25).to_le_bytes());
    block[4] = 1;
    block[8] = 3;
    block[16] = 0x0F;
    let values = dequantize_ggml_generic(&block, 12, &Singles);
    assert_eq!(f32::from_bits(values[0]), 0.5 * 15.0 - 0.25 * 3.0);
    assert_eq!(f32::from_bits(values[32]), 0.0);
}

#[test]
fn signed_gguf_values_have_their_sign() {
    let text = |bytes: &[u8]| {
        let (v, at) = read_gguf_value(bytes, 0).unwrap_or_else(|e| panic!("{:?}", e));
        assert_eq!(at, bytes.len());
        value_text(&v, &Singles)
    };
    assert_eq!(text(&[1, 0, 0, 0, 0xFF]), "-1");
    assert_eq!(text(&[0, 0, 0, 0, 0xFF]), "255");
    assert_eq!(text(&[1, 0, 0, 0, 0x7F]), "127");
    assert_eq!(text(&[3, 0, 0, 0, 0x00, 0x80]), "-32768");
    assert_eq!(text(&[2, 0, 0, 0, 0x00, 0x80]), "32768");
    assert_eq!(text(&[5, 0, 0, 0, 0xFE, 0xFF, 0xFF, 0xFF]), "-2");
    assert_eq!(text(&[4, 0, 0, 0, 0xFE, 0xFF, 0xFF, 0xFF]), "4294967294");
    assert_eq!(text(&[11, 0, 0, 0, 0, 0, 0, 0, 0, 0, 0, 0x80]), "-9223372036854775808");
    assert_eq!(text(&[10, 0, 0, 0, 0, 0, 0, 0, 0, 0, 0, 0x80]), "9223372036854775808");
}

#[test]
fn broken_gguf_files_are_refused() {
    let file = gguf_file();
    assert!(matches!(parse_gguf(&[0, 0, 0, 0]), Err(GgufError::Magic(0))));
    assert!(matches!(parse_gguf(&file[..20]), Err(GgufError::UnexpectedEnd)));
    assert_eq!(convert_gguf_to_hypno(&file[..20], &Singles), Err(GgufConvertError::Read(GgufError::UnexpectedEnd)));
    let mut far = file.clone();
    let at = far.len() - 14;
    far[at] = 1;
    assert_eq!(convert_gguf_to_hypno(&far, &Singles), Err(GgufConvertError::OutOfFile));
    let mut bad = file.clone();
    bad[32] = 0xFF;
    assert!(matches!(parse_gguf(&bad), Err(GgufError::Utf8)));
}

#[test]
fn gguf_values_are_read() {
    let mut text: Vec<u8> = Vec::new();
    gguf_text(&mut text, "h\u{e9}");
    let (s, at) = read_gguf_string(&text, 0).unwrap_or_else(|e| panic!("{:?}", e));
    assert_eq!(s, "h\u{e9}");
    assert_eq!(at, 11);
    let (v, at) = read_gguf_value(&[7, 0, 0, 0, 1], 0).unwrap_or_else(|e| panic!("{:?}", e));
    assert_eq!(value_text(&v, &Singles), "true");
    assert_eq!(at, 5);
    assert_eq!(map_key("block_count"), "num_hidden_layers");
    assert_eq!(map_key("other"), "other");
    assert_eq!(ggml_to_hypno_dtype(0), Some(DType::FP32));
    assert_eq!(ggml_to_hypno_dtype(1), Some(DType::FP16));
    assert_eq!(ggml_to_hypno_dtype(99), None);
    assert_eq!(singles(&dequantize_bf16(&[0x80, 0x3F, 0x00, 0xC0])), vec![1.0, -2.0]);
    let mut block = vec![0u8; 20];
    block[..2].copy_from_slice(&half::f16::from_f32(2.0).to_le_bytes());
    block[2..4].copy_from_slice(&half::f16::from_f32(1.0).to_le_bytes());
    block[4] = 0x31;
    let v = singles(&dequantize_ggml_q4_1(&block, &Singles));
    assert_eq!(v.len(), 32);
    assert_eq!(v[0], 3.0);
    assert!(v.contains(&7.0));
}
