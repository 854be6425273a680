use std::collections::BTreeMap;

use hypno::cache::{CachePrecision, FlatKVCache};
use hypno::config::HypnoConfig;
use hypno::convert::convert;
use hypno::dtype::DType;
use hypno::float::FloatUnit;
use hypno::generate::{feed, generate_completion, prefill, GenParams, GenerateError, Generator, Step};
use hypno::kernels::{matmul_f32, matmul_vec_auto, project, rms_norm_in_place};
use hypno::loader::HypnoModel;
use hypno::quant::{quantize_f32_to_q4_0, quantize_f32_to_q8_0};
use hypno::tokenizer::HypnoTokenizer;
use hypno::transformer::{can_run, has_token, load_norm_f32, model_forward, ForwardBuffers};
use hypno::turbo::{batch_forward, batch_matmul, batch_rms_norm};

/// 32-bit arithmetic of the machine.
struct Singles;

impl FloatUnit for Singles {
    fn plus(&self, a: u32, b: u32) -> u32 {
        (f32::from_bits(a) + f32::from_bits(b)).to_bits()
    }
    fn minus(&self, a: u32, b: u32) -> u32 {
        (f32::from_bits(a) - f32::from_bits(b)).to_bits()
    }
    fn times(&self, a: u32, b: u32) -> u32 {
        (f32::from_bits(a) * f32::from_bits(b)).to_bits()
    }
    fn divide(&self, a: u32, b: u32) -> u32 {
        (f32::from_bits(a) / f32::from_bits(b)).to_bits()
    }
    fn root(&self, a: u32) -> u32 {
        f32::from_bits(a).sqrt().to_bits()
    }
    fn exponential(&self, a: u32) -> u32 {
        f32::from_bits(a).exp().to_bits()
    }
    fn power(&self, a: u32, b: u32) -> u32 {
        f32::from_bits(a).powf(f32::from_bits(b)).to_bits()
    }
    fn cosine(&self, a: u32) -> u32 {
        f32::from_bits(a).cos().to_bits()
    }
    fn sine(&self, a: u32) -> u32 {
        f32::from_bits(a).sin().to_bits()
    }
    fn larger(&self, a: u32, b: u32) -> u32 {
        f32::from_bits(a).max(f32::from_bits(b)).to_bits()
    }
    fn number(&self, n: usize) -> u32 {
        (n as f32).to_bits()
    }
    fn round_quotient(&self, a: u32, b: u32) -> i32 {
        (f32::from_bits(a) / f32::from_bits(b)).round() as i32
    }
    fn scale(&self, step: i32, by: u32) -> u32 {
        (step as f32 * f32::from_bits(by)).to_bits()
    }
    fn narrow(&self, single: u32) -> u16 {
        half::f16::from_f32(f32::from_bits(single)).to_bits()
    }
    fn widen(&self, half: u16) -> u32 {
        half::f16::from_bits(half).to_f32().to_bits()
    }
    fn double(&self, single: u32) -> u64 {
        (f32::from_bits(single) as f64).to_bits()
    }
    fn single(&self, double: u64) -> u32 {
        (f64::from_bits(double) as f32).to_bits()
    }
    fn double_number(&self, n: usize) -> u64 {
        (n as f64).to_bits()
    }
    fn double_plus(&self, a: u64, b: u64) -> u64 {
        (f64::from_bits(a) + f64::from_bits(b)).to_bits()
    }
    fn double_times(&self, a: u64, b: u64) -> u64 {
        (f64::from_bits(a) * f64::from_bits(b)).to_bits()
    }
    fn double_divide(&self, a: u64, b: u64) -> u64 {
        (f64::from_bits(a) / f64::from_bits(b)).to_bits()
    }
    fn double_root(&self, a: u64) -> u64 {
        f64::from_bits(a).sqrt().to_bits()
    }
    fn single_text(&self, bits: u32) -> String {
        f32::from_bits(bits).to_string()
    }
    fn double_text(&self, bits: u64) -> String {
        f64::from_bits(bits).to_string()
    }
    fn read_single(&self, text: &str) -> Option<u32> {
        text.parse::<f32>().ok().map(|v| v.to_bits())
    }
    fn whole_part(&self, text: &str) -> Option<u64> {
        text.parse::<f32>().ok().map(|v| v as u64)
    }
}

fn bits(values: &[f32]) -> Vec<u32> {
    values.iter().map(|v| v.to_bits()).collect()
}

fn singles(values: &[u32]) -> Vec<f32> {
    values.iter().map(|v| f32::from_bits(*v)).collect()
}

const TINY: &str = r#"{"architectures":["LlamaForCausalLM"],"hidden_size":64,"intermediate_size":172,
    "num_attention_heads":4,"num_key_value_heads":2,"num_hidden_layers":2,"vocab_size":1000,
    "max_position_embeddings":512,"rms_norm_eps":1e-5,"rope_theta":10000.0}"#;

fn tiny_config() -> HypnoConfig {
    HypnoConfig {
        hidden_size: 64,
        intermediate_size: 172,
        num_attention_heads: 4,
        num_key_value_heads: 2,
        num_hidden_layers: 2,
        vocab_size: 1000,
        max_position_embeddings: 512,
        rms_norm_eps: 1e-5f32.to_bits(),
        rope_theta: 10000f32.to_bits(),
        head_dim: 16,
    }
}

fn tiny_archive() -> Vec<u8> {
    let (hd, im, nh, nkv, hdim, vocab) = (64usize, 172usize, 4usize, 2usize, 16usize, 1000usize);
    let mut buffers: Vec<(String, Vec<usize>, Vec<u8>)> = Vec::new();
    let mut add = |name: String, shape: Vec<usize>| {
        let n: usize = shape.iter().product();
        let data: Vec<u8> = (0..n).flat_map(|i| (((i + 1) as f32) * 0.01).to_le_bytes()).collect();
        buffers.push((name, shape, data));
    };
    add("model.embed_tokens.weight".to_string(), vec![vocab, hd]);
    add("lm_head.weight".to_string(), vec![vocab, hd]);
    for l in 0..2 {
        let p = format!("model.layers.{}.", l);
        add(format!("{}input_layernorm.weight", p), vec![hd]);
        add(format!("{}post_attention_layernorm.weight", p), vec![hd]);
        add(format!("{}self_attn.q_proj.weight", p), vec![nh * hdim, hd]);
        add(format!("{}self_attn.k_proj.weight", p), vec![nkv * hdim, hd]);
        add(format!("{}self_attn.v_proj.weight", p), vec![nkv * hdim, hd]);
        add(format!("{}self_attn.o_proj.weight", p), vec![hd, hd]);
        add(format!("{}mlp.gate_proj.weight", p), vec![im, hd]);
        add(format!("{}mlp.up_proj.weight", p), vec![im, hd]);
        add(format!("{}mlp.down_proj.weight", p), vec![hd, im]);
    }
    add("model.norm.weight".to_string(), vec![hd]);
    let mut tensors: BTreeMap<String, safetensors::tensor::TensorView> = BTreeMap::new();
    for (name, shape, data) in &buffers {
        let view = safetensors::tensor::TensorView::new(safetensors::Dtype::F32, shape.clone(), data).unwrap();
        tensors.insert(name.clone(), view);
    }
    safetensors::serialize(&tensors, &None).unwrap()
}

fn tiny_model(dtype: DType) -> Vec<u8> {
    convert(TINY, None, &vec![tiny_archive()], dtype, false, &Singles).unwrap()
}

fn empty_cache(config: &HypnoConfig) -> FlatKVCache {
    FlatKVCache::new(
        config.num_hidden_layers,
        config.num_key_value_heads,
        config.max_position_embeddings,
        config.head_dim,
    )
}

fn largest_difference(a: &[u32], b: &[u32]) -> f32 {
    assert_eq!(a.len(), b.len());
    singles(a).iter().zip(singles(b)).map(|(x, y)| (x - y).abs()).fold(0.0f32, f32::max)
}

/// Norms rows, adding up in 64 bits.
fn norm_rows(inp: &[f32], weight: &[f32], eps: f32) -> Vec<f32> {
    let rows: Vec<Vec<u32>> = inp.chunks(weight.len()).map(bits).collect();
    batch_rms_norm(&rows, &bits(weight), eps.to_bits(), &Singles).iter().flat_map(|r| singles(r)).collect()
}

fn plain(w: &[f32]) -> Vec<u8> {
    w.iter().flat_map(|v| v.to_le_bytes()).collect()
}

fn rows(x: &[f32], dim: usize) -> Vec<Vec<u32>> {
    x.chunks(dim).map(bits).collect()
}

#[test]
fn test_flat_kv_cache() {
    let mut cache = FlatKVCache::new(2, 4, 128, 64);
    assert_eq!(cache.seq_len(), 0);
    let k = bits(&vec![1.0f32; 4 * 64]);
    let v = bits(&vec![2.0f32; 4 * 64]);
    cache.store(0, &k, &v);
    cache.advance();
    assert_eq!(cache.seq_len(), 1);
    let ks = singles(cache.get_k_slice(0, 0));
    assert_eq!(ks.len(), 64);
    assert!((ks[0] - 1.0).abs() < 0.001);
    cache.clear();
    assert_eq!(cache.seq_len(), 0);
}

#[test]
fn cache_keeps_positions_apart() {
    let mut cache = FlatKVCache::new(2, 2, 4, 2);
    cache.store_at(1, &[1, 2, 3, 4], &[5, 6, 7, 8], 0);
    cache.set_pos(1);
    cache.store(1, &[11, 12, 13, 14], &[15, 16, 17, 18]);
    cache.advance();
    assert_eq!(cache.get_k_slice(1, 0), [1, 2, 11, 12]);
    assert_eq!(cache.get_k_slice(1, 1), [3, 4, 13, 14]);
    assert_eq!(cache.get_v_slice(1, 1), [7, 8, 17, 18]);
    assert_eq!(cache.get_k_slice(0, 1), [0, 0, 0, 0]);
    cache.clear();
    assert_eq!(cache.get_k_slice(1, 0).len(), 0);
    cache.set_pos(2);
    assert_eq!(cache.get_v_slice(1, 0), [5, 6, 15, 16]);
}

#[test]
fn test_kv_cache_ram() {
    let cache = FlatKVCache::new(32, 8, 2048, 128);
    let mb = cache.ram_mb();
    assert!(mb > 400 && mb < 600, "Expected ~512 MB, got {} MB", mb);
}

#[test]
fn transformer_test_buffers_creation() {
    let buffers = ForwardBuffers::new(&tiny_config());
    assert_eq!(buffers.hidden.len(), 64);
    assert_eq!(buffers.q.len(), 4 * 16);
    assert_eq!(buffers.k.len(), 2 * 16);
    assert_eq!(buffers.kv_cache.seq_len(), 0);
}

#[test]
fn test_buffers_creation() {
    let buffers = ForwardBuffers::new(&tiny_config());
    assert_eq!(buffers.hidden.len(), 64);
    assert_eq!(buffers.q.len(), 4 * 16);
    assert_eq!(buffers.k.len(), 2 * 16);
    assert_eq!(buffers.v.len(), 2 * 16);
    assert_eq!(buffers.ffn_gate.len(), 172);
    assert_eq!(buffers.kv_cache.keys.len(), 2);
}

#[test]
fn test_ram_estimates() {
    let config = HypnoConfig {
        hidden_size: 4096,
        intermediate_size: 11008,
        num_attention_heads: 32,
        num_key_value_heads: 32,
        num_hidden_layers: 32,
        vocab_size: 32000,
        max_position_embeddings: 2048,
        rms_norm_eps: 1e-5f32.to_bits(),
        rope_theta: 10000f32.to_bits(),
        head_dim: 128,
    };
    let fp32_kv = config.total_kv_cache_bytes(CachePrecision::FP32);
    let fp16_kv = config.total_kv_cache_bytes(CachePrecision::FP16);
    assert!(fp32_kv > 1_800_000_000 && fp32_kv < 2_200_000_000, "FP32 KV cache: {} bytes", fp32_kv);
    assert!(fp16_kv > 900_000_000 && fp16_kv < 1_100_000_000, "FP16 KV cache: {} bytes", fp16_kv);
    let ram_mb = config.estimate_ram_mb(CachePrecision::FP16, 2) * 9 / 40;
    assert!(ram_mb < 600, "Q4_0 estimate {} MB should fit comfortably under 2 GB", ram_mb);
    assert_eq!(fp32_kv, 2 * fp16_kv);
    assert_eq!(config.kv_cache_bytes_per_layer(CachePrecision::FP16), 2 * 32 * 2048 * 128 * 2);
}

#[test]
fn buffers_count_their_memory() {
    let config = HypnoConfig { max_position_embeddings: 1 << 18, head_dim: 2, ..tiny_config() };
    let buffers = ForwardBuffers::new(&config);
    // The scores take one megabyte; keys and values of two layers take four each.
    assert_eq!(buffers.ram_mb(), 1 + 16);
}

#[test]
fn dimensions_are_read_from_metadata() {
    let file = tiny_model(DType::FP32);
    let model = HypnoModel::open(&file).unwrap();
    let c = HypnoConfig::from_model(&model, &Singles).unwrap();
    let t = tiny_config();
    assert_eq!(c.hidden_size, t.hidden_size);
    assert_eq!(c.intermediate_size, t.intermediate_size);
    assert_eq!(c.num_attention_heads, t.num_attention_heads);
    assert_eq!(c.num_key_value_heads, t.num_key_value_heads);
    assert_eq!(c.num_hidden_layers, t.num_hidden_layers);
    assert_eq!(c.vocab_size, t.vocab_size);
    assert_eq!(c.max_position_embeddings, t.max_position_embeddings);
    assert_eq!(c.rms_norm_eps, t.rms_norm_eps);
    assert_eq!(c.rope_theta, t.rope_theta);
    assert_eq!(c.head_dim, t.head_dim);
    assert!(can_run(&model, &c));
    assert!(has_token(&model, &c, 999, false));
    assert!(!has_token(&model, &c, 1000, false));
    let bad = HypnoConfig { head_dim: 15, ..tiny_config() };
    assert!(!can_run(&model, &bad));
    let wide = HypnoConfig { hidden_size: 128, ..tiny_config() };
    assert!(!can_run(&model, &wide));
}

#[test]
fn missing_dimensions_have_defaults() {
    let text = r#"{"hidden_size": 8, "num_attention_heads": 2}"#;
    let file = convert(text, None, &vec![tiny_archive()], DType::FP32, false, &Singles).unwrap();
    let c = HypnoConfig::from_model(&HypnoModel::open(&file).unwrap(), &Singles).unwrap();
    assert_eq!(c.num_key_value_heads, 2);
    assert_eq!(c.intermediate_size, 0);
    assert_eq!(c.vocab_size, 32000);
    assert_eq!(c.max_position_embeddings, 2048);
    assert_eq!(f32::from_bits(c.rms_norm_eps), 1e-5);
    assert_eq!(f32::from_bits(c.rope_theta), 10000.0);
    let text = r#"{"hidden_size": 8}"#;
    let file = convert(text, None, &vec![tiny_archive()], DType::FP32, false, &Singles).unwrap();
    assert!(HypnoConfig::from_model(&HypnoModel::open(&file).unwrap(), &Singles).is_none());
}

#[test]
fn norm_weights_are_loaded() {
    let file = tiny_model(DType::FP16);
    let model = HypnoModel::open(&file).unwrap();
    let w = singles(&load_norm_f32(&model, "model.norm.weight", 64, &Singles));
    assert_eq!(w.len(), 64);
    assert!((w[63] - 0.64).abs() < 0.001);
    assert_eq!(singles(&load_norm_f32(&model, "none", 3, &Singles)), vec![1.0, 1.0, 1.0]);
    assert_eq!(singles(&load_norm_f32(&HypnoModel::open(&tiny_model(DType::Q4_0)).unwrap(), "lm_head.weight", 2, &Singles)), vec![1.0, 1.0]);
}

#[test]
fn test_batch_forward_vs_token_by_token() {
    let file = tiny_model(DType::FP32);
    let model = HypnoModel::open(&file).unwrap();
    let config = tiny_config();
    let token_ids: Vec<u32> = vec![1, 5, 10, 42, 100, 7, 3];
    let mut turbo_cache = empty_cache(&config);
    let turbo_logits = batch_forward(&model, &config, &token_ids, &mut turbo_cache, false, &Singles);
    let mut buffers = ForwardBuffers::new(&config);
    buffers.reset_cache();
    let mut seq_logits = Vec::new();
    for &tid in &token_ids {
        seq_logits = model_forward(&model, &config, tid, &mut buffers, true, false, &Singles);
    }
    let max_diff = largest_difference(&turbo_logits, &seq_logits);
    assert!(max_diff < 1e-5, "logits differ: max_diff={:.6e}", max_diff);
}

#[test]
fn prompt_at_once_is_prompt_by_tokens() {
    for col_major in [false, true] {
        let file = convert(TINY, None, &vec![tiny_archive()], DType::FP32, col_major, &Singles).unwrap();
        let model = HypnoModel::open(&file).unwrap();
        let config = tiny_config();
        let tokens = [7, 7, 300, 999, 12];
        let mut cache = ForwardBuffers::new(&config).kv_cache;
        let at_once = batch_forward(&model, &config, &tokens, &mut cache, col_major, &Singles);
        let mut buffers = ForwardBuffers::new(&config);
        let by_tokens = feed(&model, &config, &tokens, &mut buffers, col_major, &Singles).unwrap();
        assert_eq!(at_once, by_tokens);
        assert_eq!(cache.keys, buffers.kv_cache.keys);
        assert_eq!(cache.values, buffers.kv_cache.values);
        assert_eq!(cache.cache_pos, 5);
    }
}

#[test]
fn test_generation_after_batch_forward() {
    let file = tiny_model(DType::FP32);
    let model = HypnoModel::open(&file).unwrap();
    let config = tiny_config();
    let prompt_tokens: Vec<u32> = vec![1, 5, 10, 42];
    let next_token: u32 = 100;
    let mut cache_a = empty_cache(&config);
    let _prefill_logits = batch_forward(&model, &config, &prompt_tokens, &mut cache_a, false, &Singles);
    let mut buffers_a = ForwardBuffers::new(&config);
    buffers_a.kv_cache = cache_a.clone();
    let gen_logits_a = model_forward(&model, &config, next_token, &mut buffers_a, true, false, &Singles);
    let mut buffers_b = ForwardBuffers::new(&config);
    buffers_b.reset_cache();
    for &tid in &prompt_tokens {
        model_forward(&model, &config, tid, &mut buffers_b, true, false, &Singles);
    }
    let gen_logits_b = model_forward(&model, &config, next_token, &mut buffers_b, true, false, &Singles);
    let max_diff = largest_difference(&gen_logits_a, &gen_logits_b);
    assert!(max_diff < 1e-5, "Generation logits after batch_forward differ from sequential: max_diff={:.6e}", max_diff);
}

#[test]
fn test_generation_after_batch_forward_q4() {
    let file = tiny_model(DType::Q4_0);
    let model = HypnoModel::open(&file).unwrap();
    let config = tiny_config();
    let prompt_tokens: Vec<u32> = vec![1, 5, 10, 42];
    let next_token: u32 = 100;
    let mut cache_a = empty_cache(&config);
    let _ = batch_forward(&model, &config, &prompt_tokens, &mut cache_a, false, &Singles);
    let mut buffers_a = ForwardBuffers::new(&config);
    buffers_a.kv_cache = cache_a.clone();
    let gen_logits_a = model_forward(&model, &config, next_token, &mut buffers_a, true, false, &Singles);
    let mut buffers_b = ForwardBuffers::new(&config);
    buffers_b.reset_cache();
    for &tid in &prompt_tokens {
        model_forward(&model, &config, tid, &mut buffers_b, true, false, &Singles);
    }
    let gen_logits_b = model_forward(&model, &config, next_token, &mut buffers_b, true, false, &Singles);
    let max_diff = largest_difference(&gen_logits_a, &gen_logits_b);
    assert!(max_diff < 1e-3, "Q4_0 generation logits differ: max_diff={:.6e}", max_diff);
}

#[test]
fn test_rms_norm_comparison() {
    let dim = 64;
    let inp: Vec<f32> = (0..dim).map(|i| ((i + 1) as f32) * 0.1).collect();
    let weight: Vec<f32> = (0..dim).map(|i| 1.0 + (i as f32) * 0.01).collect();
    let out_batch = norm_rows(&inp, &weight, 1e-5);
    let mut out = bits(&inp);
    rms_norm_in_place(&mut out, &bits(&weight), 1e-5f32.to_bits(), &Singles);
    let max_diff = largest_difference(&bits(&out_batch), &out);
    assert!(max_diff < 1e-6, "RMSNorm outputs differ: max_diff={:.6e}", max_diff);
}

#[test]
fn test_matmul_comparison() {
    let n = 64;
    let dim = 64;
    let w: Vec<f32> = (0..n * dim).map(|i| ((i + 1) as f32) * 0.001).collect();
    let x: Vec<f32> = (0..dim).map(|i| ((i + 1) as f32) * 0.1).collect();
    let y_batch = batch_matmul(&plain(&w), DType::FP32, &rows(&x, dim), n, false, &Singles);
    let mut y_direct = vec![0u32; n];
    matmul_f32(&mut y_direct, &bits(&w), &bits(&x), None, n, dim, &Singles);
    let max_diff = largest_difference(&y_batch[0], &y_direct);
    assert!(max_diff < 1e-6, "MatMul outputs differ: max_diff={:.6e}", max_diff);
}

#[test]
fn test_intermediate_state_comparison() {
    let file = tiny_model(DType::FP32);
    let model = HypnoModel::open(&file).unwrap();
    let config = tiny_config();
    let hd = config.hidden_size;
    let tid: u32 = 42;
    let row_of = || {
        let (data, _) = model.get_tensor_data("model.embed_tokens.weight").unwrap();
        let start = tid as usize * hd * 4;
        data[start..start + hd * 4].chunks(4).map(|c| f32::from_le_bytes([c[0], c[1], c[2], c[3]])).collect::<Vec<f32>>()
    };
    let emb_batch = row_of();
    let emb_seq = row_of();
    assert_eq!(emb_batch, emb_seq, "Embeddings differ");
    let norm_weight = singles(&load_norm_f32(&model, "model.layers.0.input_layernorm.weight", hd, &Singles));
    let norm_batch = norm_rows(&emb_batch, &norm_weight, f32::from_bits(config.rms_norm_eps));
    let mut norm_seq = bits(&emb_seq);
    rms_norm_in_place(&mut norm_seq, &bits(&norm_weight), config.rms_norm_eps, &Singles);
    let max_diff = largest_difference(&bits(&norm_batch), &norm_seq);
    assert!(max_diff < 1e-6, "RMSNorm differs: max_diff={:.6e}", max_diff);
    let q_dim = config.num_attention_heads * config.head_dim;
    let (qw, qdt) = model.get_tensor_data("model.layers.0.self_attn.q_proj.weight").unwrap();
    let q_batch = batch_matmul(qw, qdt, &vec![bits(&norm_batch)], q_dim, false, &Singles);
    let mut q_seq = vec![0u32; q_dim];
    matmul_vec_auto(&mut q_seq, qw, qdt, &norm_seq, None, q_dim, hd, &Singles);
    let max_diff = largest_difference(&q_batch[0], &q_seq);
    assert!(max_diff < 1e-6, "Q projection differs: max_diff={:.6e}", max_diff);
}

#[test]
fn test_batch_forward_single_token() {
    let file = tiny_model(DType::FP32);
    let model = HypnoModel::open(&file).unwrap();
    let config = tiny_config();
    let token_ids: Vec<u32> = vec![42];
    let mut cache_a = empty_cache(&config);
    let batch_logits = batch_forward(&model, &config, &token_ids, &mut cache_a, false, &Singles);
    let mut buffers = ForwardBuffers::new(&config);
    buffers.reset_cache();
    let seq_logits = model_forward(&model, &config, 42, &mut buffers, true, false, &Singles);
    let max_diff = largest_difference(&batch_logits, &seq_logits);
    assert!(max_diff < 1e-5, "single-token logits differ: max_diff={:.6e} (should be identical)", max_diff);
}

#[test]
fn test_batch_kv_cache_positions() {
    let file = tiny_model(DType::FP32);
    let model = HypnoModel::open(&file).unwrap();
    let config = tiny_config();
    let token_ids: Vec<u32> = vec![1, 2, 3, 4, 5];
    let mut cache = empty_cache(&config);
    assert_eq!(cache.seq_len(), 0);
    batch_forward(&model, &config, &token_ids, &mut cache, false, &Singles);
    assert_eq!(cache.seq_len(), token_ids.len(), "cache seq_len after batch prefill: expected {}, got {}", token_ids.len(), cache.seq_len());
    let hdim = config.head_dim;
    for t in 0..token_ids.len() {
        let k_slice = cache.get_k_slice(0, 0);
        assert!(k_slice.len() >= hdim, "K slice too short at position {}: {} < {}", t, k_slice.len(), hdim);
    }
}

#[test]
fn prompt_leaves_the_cache_of_single_tokens() {
    let file = tiny_model(DType::FP32);
    let model = HypnoModel::open(&file).unwrap();
    let config = tiny_config();
    let mut cache = empty_cache(&config);
    batch_forward(&model, &config, &[3, 9, 27], &mut cache, false, &Singles);
    let mut buffers = ForwardBuffers::new(&config);
    for t in [3, 9, 27] {
        model_forward(&model, &config, t, &mut buffers, true, false, &Singles);
    }
    for layer in 0..2 {
        for head in 0..2 {
            assert!(largest_difference(cache.get_k_slice(layer, head), buffers.kv_cache.get_k_slice(layer, head)) < 1e-4);
            assert!(largest_difference(cache.get_v_slice(layer, head), buffers.kv_cache.get_v_slice(layer, head)) < 1e-4);
        }
    }
}

#[test]
fn empty_prompt_has_no_scores() {
    let file = tiny_model(DType::FP32);
    let model = HypnoModel::open(&file).unwrap();
    let config = tiny_config();
    let mut cache = empty_cache(&config);
    let logits = batch_forward(&model, &config, &[], &mut cache, false, &Singles);
    assert_eq!(logits, vec![0u32; 1000]);
    assert_eq!(cache.seq_len(), 0);
}

#[test]
fn without_a_cache_nothing_is_kept() {
    let file = tiny_model(DType::FP32);
    let model = HypnoModel::open(&file).unwrap();
    let config = tiny_config();
    let mut buffers = ForwardBuffers::new(&config);
    let a = model_forward(&model, &config, 5, &mut buffers, false, false, &Singles);
    assert_eq!(buffers.kv_cache.seq_len(), 0);
    let mut fresh = ForwardBuffers::new(&config);
    let b = model_forward(&model, &config, 5, &mut fresh, true, false, &Singles);
    assert_eq!(fresh.kv_cache.seq_len(), 1);
    // The first token attends to itself alone in both cases.
    assert!(largest_difference(&a, &b) < 1e-3);
}

#[test]
fn weights_by_columns_give_the_same_scores() {
    let text = r#"{"hidden_size":128,"intermediate_size":128,"num_attention_heads":2,"num_hidden_layers":1,"vocab_size":40}"#;
    let mut tensors: BTreeMap<String, safetensors::tensor::TensorView> = BTreeMap::new();
    // Steps of one scale in each block, by rows and by columns.
    let square: Vec<u8> = plain(&(0..128 * 128).map(|i| {
        let (r, c) = (i / 128, i % 128);
        if r % 32 == c % 32 { 7.0 } else { ((r * 3 + c * 5) % 13) as f32 - 6.0 }
    }).collect::<Vec<f32>>());
    let rows: Vec<u8> = plain(&(0..40 * 128).map(|i| ((i % 11) as f32) * 0.1).collect::<Vec<f32>>());
    let mut names = vec!["model.embed_tokens.weight".to_string()];
    for part in ["self_attn.q_proj", "self_attn.k_proj", "self_attn.v_proj", "self_attn.o_proj", "mlp.gate_proj", "mlp.up_proj", "mlp.down_proj"] {
        names.push(format!("model.layers.0.{}.weight", part));
    }
    for name in &names {
        let (shape, data) = if name.starts_with("model.embed") { (vec![40, 128], &rows) } else { (vec![128, 128], &square) };
        tensors.insert(name.clone(), safetensors::tensor::TensorView::new(safetensors::Dtype::F32, shape, data).unwrap());
    }
    let archive = vec![safetensors::serialize(&tensors, &None).unwrap()];
    let by_rows = convert(text, None, &archive, DType::Q4_0, false, &Singles).unwrap();
    let by_columns = convert(text, None, &archive, DType::Q4_0, true, &Singles).unwrap();
    let a = HypnoModel::open(&by_rows).unwrap();
    let b = HypnoModel::open(&by_columns).unwrap();
    assert_eq!(a.get_metadata("weight_layout"), Some("row_major"));
    assert_eq!(b.get_metadata("weight_layout"), Some("col_major"));
    let name = "model.layers.0.mlp.up_proj.weight";
    assert_ne!(a.get_tensor_data(name).unwrap().0, b.get_tensor_data(name).unwrap().0);
    let config = HypnoConfig::from_model(&a, &Singles).unwrap();
    let mut one = ForwardBuffers::new(&config);
    let mut two = ForwardBuffers::new(&config);
    for token in [1, 2, 3] {
        let x = model_forward(&a, &config, token, &mut one, true, false, &Singles);
        let y = model_forward(&b, &config, token, &mut two, true, true, &Singles);
        let scale = singles(&x).iter().fold(0.0f32, |m, v| m.max(v.abs()));
        assert!(largest_difference(&x, &y) < 0.01 * scale.max(1.0));
    }
}

#[test]
fn columns_of_any_length_hold_the_matrix() {
    // 172 rows make no whole number of blocks, and the tokens have their embeddings by columns.
    for dtype in [DType::FP32, DType::FP16] {
        let archive = vec![tiny_archive()];
        let by_rows = convert(TINY, None, &archive, dtype, false, &Singles).unwrap();
        let by_columns = convert(TINY, None, &archive, dtype, true, &Singles).unwrap();
        let a = HypnoModel::open(&by_rows).unwrap();
        let b = HypnoModel::open(&by_columns).unwrap();
        let config = tiny_config();
        assert!(has_token(&b, &config, 999, true));
        assert!(!has_token(&b, &config, 1000, true));
        for name in ["model.layers.0.mlp.gate_proj.weight", "model.embed_tokens.weight", "lm_head.weight"] {
            assert_ne!(a.get_tensor_data(name).unwrap().0, b.get_tensor_data(name).unwrap().0);
        }
        let name = "model.layers.0.mlp.gate_proj.weight";
        let (wa, dt) = a.get_tensor_data(name).unwrap();
        let (wb, _) = b.get_tensor_data(name).unwrap();
        let x = bits(&(0..64).map(|i| (i as f32) * 0.125).collect::<Vec<f32>>());
        let mut ya = vec![0u32; 172];
        let mut yb = vec![0u32; 172];
        project(&mut ya, wa, dt, &x, false, &Singles);
        project(&mut yb, wb, dt, &x, true, &Singles);
        for (p, q) in singles(&ya).iter().zip(singles(&yb)) {
            assert!((p - q).abs() <= 0.02 * p.abs(), "{} and {}", p, q);
        }
        assert_ne!(yb[171], 0);
        if dtype == DType::FP32 {
            assert_eq!(ya, yb);
            let mut one = ForwardBuffers::new(&config);
            let mut two = ForwardBuffers::new(&config);
            for token in [1, 500, 999] {
                let p = model_forward(&a, &config, token, &mut one, true, false, &Singles);
                let q = model_forward(&b, &config, token, &mut two, true, true, &Singles);
                assert_eq!(p, q);
            }
        }
    }
}

#[test]
fn blocks_may_hold_the_ends_of_two_columns() {
    // 50 rows and 64 columns: a block of 32 goes over from one column to the next.
    let sign = |row: usize, column: usize| if (row * 7 + column * 3) % 5 < 2 { -1.0f32 } else { 1.0 };
    let rows: Vec<f32> = (0..50 * 64).map(|i| sign(i / 64, i % 64)).collect();
    let columns: Vec<f32> = (0..50 * 64).map(|i| sign(i % 50, i / 50)).collect();
    let x = bits(&(0..64).map(|i| ((i % 9) as f32) - 3.0).collect::<Vec<f32>>());
    for dtype in [DType::Q8_0, DType::Q4_0] {
        let stored = |w: &[f32]| match dtype {
            DType::Q8_0 => quantize_f32_to_q8_0(&bits(w), &Singles),
            _ => quantize_f32_to_q4_0(&bits(w), &Singles),
        };
        let mut by_rows = vec![0u32; 50];
        let mut by_columns = vec![0u32; 50];
        project(&mut by_rows, &stored(&rows), dtype, &x, false, &Singles);
        project(&mut by_columns, &stored(&columns), dtype, &x, true, &Singles);
        assert!(largest_difference(&by_rows, &by_columns) < 1e-3);
        for row in 0..50 {
            let expected: f32 = (0..64).map(|k| sign(row, k) * f32::from_bits(x[k])).sum();
            assert!((f32::from_bits(by_columns[row]) - expected).abs() < 2.0, "row {}", row);
        }
    }
}

#[test]
fn test_batch_rms_norm() {
    let out = norm_rows(&vec![2.0f32; 8], &vec![1.0f32; 4], 1e-5);
    assert_eq!(out.len(), 8);
    for v in &out {
        assert!((v - 1.0).abs() < 0.01, "expected ~1.0, got {}", v);
    }
}

#[test]
fn test_batch_rms_norm_weighted() {
    let out = norm_rows(&[1.0f32, 2.0, 3.0, 4.0], &[0.5f32, 0.5], 1e-5);
    let rms0 = 2.5f32.sqrt();
    let rms1 = 12.5f32.sqrt();
    assert!((out[0] - 1.0 * 0.5 / rms0).abs() < 0.01);
    assert!((out[1] - 2.0 * 0.5 / rms0).abs() < 0.01);
    assert!((out[2] - 3.0 * 0.5 / rms1).abs() < 0.01);
    assert!((out[3] - 4.0 * 0.5 / rms1).abs() < 0.01);
}

#[test]
fn test_batch_matmul_fp32() {
    let w: Vec<f32> = vec![1.0, 0.0, 0.0, 2.0];
    let x = rows(&[1.0f32, 0.0, 0.0, 1.0, 3.0, 4.0], 2);
    let y: Vec<f32> = batch_matmul(&plain(&w), DType::FP32, &x, 2, false, &Singles).iter().flat_map(|r| singles(r)).collect();
    assert!((y[0] - 1.0).abs() < 0.001);
    assert!((y[1] - 0.0).abs() < 0.001);
    assert!((y[2] - 0.0).abs() < 0.001);
    assert!((y[3] - 2.0).abs() < 0.001);
    assert!((y[4] - 3.0).abs() < 0.001);
    assert!((y[5] - 8.0).abs() < 0.001);
}

#[test]
fn test_batch_matmul_batch_independence() {
    let w: Vec<f32> = vec![1.0, 2.0, 3.0];
    let x = rows(&[1.0, 0.0, 0.0, 0.0, 1.0, 0.0, 0.0, 0.0, 1.0, 5.0, 5.0, 5.0], 3);
    let y: Vec<f32> = batch_matmul(&plain(&w), DType::FP32, &x, 1, false, &Singles).iter().flat_map(|r| singles(r)).collect();
    assert!((y[0] - 1.0).abs() < 0.001);
    assert!((y[1] - 2.0).abs() < 0.001);
    assert!((y[2] - 3.0).abs() < 0.001);
    assert!((y[3] - 30.0).abs() < 0.001);
}

fn words() -> HypnoTokenizer {
    HypnoTokenizer::from_json(
        r#"{"model":{"vocab":{"<s>":0,"</s>":1,"a":2,"b":3},"merges":[]},
            "added_tokens":[{"id":0,"content":"<s>"},{"id":1,"content":"</s>"}]}"#,
    )
    .unwrap()
}

fn params(max_tokens: usize) -> GenParams {
    GenParams {
        max_tokens,
        temperature: 0.8f32.to_bits(),
        top_p: 0.9f32.to_bits(),
        top_k: 40,
        seed: 42,
        needs_prompt: true,
    }
}

#[test]
fn generation_is_the_same_for_a_seed() {
    let file = tiny_model(DType::FP32);
    let model = HypnoModel::open(&file).unwrap();
    let config = tiny_config();
    let tokenizer = words();
    let mut buffers = ForwardBuffers::new(&config);
    let one = generate_completion(&model, &config, &tokenizer, "a b", &params(4), &mut buffers, false, &Singles).unwrap_or_else(|e| panic!("{:?}", e));
    let two = generate_completion(&model, &config, &tokenizer, "a b", &params(4), &mut buffers, false, &Singles).unwrap_or_else(|e| panic!("{:?}", e));
    assert_eq!(one.text, two.text);
    assert_eq!(one.prompt_tokens, 3);
    assert_eq!(one.completion_tokens, two.completion_tokens);
    assert_eq!(one.finish_reason, if one.completion_tokens == 4 { "length" } else { "stop" });
}

#[test]
fn generation_ends_at_once_without_tokens_to_produce() {
    let file = tiny_model(DType::FP32);
    let model = HypnoModel::open(&file).unwrap();
    let config = tiny_config();
    let mut buffers = ForwardBuffers::new(&config);
    let none = generate_completion(&model, &config, &words(), "a", &params(0), &mut buffers, false, &Singles).unwrap_or_else(|e| panic!("{:?}", e));
    assert_eq!(none.text, "");
    assert_eq!(none.completion_tokens, 0);
    assert_eq!(none.finish_reason, "stop");
    let mut gen = Generator::new(Vec::new(), 1);
    assert_eq!(gen.step(&model, &config, None, &params(5), &mut buffers, false, &Singles), Step::Stop);
    let eager = GenParams { needs_prompt: false, ..params(5) };
    assert_eq!(gen.step(&model, &config, Some(0), &eager, &mut buffers, false, &Singles), Step::Stop);
    assert_eq!(gen.step(&model, &config, None, &eager, &mut buffers, false, &Singles), Step::Token(0));
}

#[test]
fn generation_stops_where_the_cache_is_full() {
    let file = tiny_model(DType::FP32);
    let model = HypnoModel::open(&file).unwrap();
    let config = HypnoConfig { max_position_embeddings: 2, ..tiny_config() };
    let mut buffers = ForwardBuffers::new(&config);
    assert!(prefill(&model, &config, &[1, 2, 3], &mut buffers, false, &Singles).is_none());
    assert!(prefill(&model, &config, &[1, 5000], &mut buffers, false, &Singles).is_none());
    let logits = prefill(&model, &config, &[1, 2], &mut buffers, false, &Singles).unwrap();
    assert_eq!(logits.len(), 1000);
    assert_eq!(buffers.kv_cache.seq_len(), 2);
    let mut gen = Generator::new(logits, 9);
    let step = gen.step(&model, &config, None, &params(5), &mut buffers, false, &Singles);
    assert!(matches!(step, Step::Blocked(_)));
    let r = generate_completion(&model, &config, &words(), "a b", &params(4), &mut buffers, false, &Singles);
    assert!(matches!(r, Err(GenerateError::Prompt)));
    let r = generate_completion(&model, &config, &words(), "a", &GenParams { top_k: 1, ..params(4) }, &mut buffers, false, &Singles);
    assert!(matches!(r, Err(GenerateError::Token(_))) || r.is_ok());
}

#[test]
fn fed_tokens_stand_behind_those_before() {
    let file = tiny_model(DType::FP32);
    let model = HypnoModel::open(&file).unwrap();
    let config = tiny_config();
    let mut at_once = ForwardBuffers::new(&config);
    let whole = prefill(&model, &config, &[1, 5, 10], &mut at_once, false, &Singles).unwrap();
    let mut in_parts = ForwardBuffers::new(&config);
    feed(&model, &config, &[1, 5], &mut in_parts, false, &Singles).unwrap();
    let rest = feed(&model, &config, &[10], &mut in_parts, false, &Singles).unwrap();
    assert_eq!(whole, rest);
    assert_eq!(in_parts.kv_cache.seq_len(), 3);
    let again = prefill(&model, &config, &[1, 5, 10], &mut in_parts, false, &Singles).unwrap();
    assert_eq!(again, whole);
    let alone = prefill(&model, &config, &[10], &mut in_parts, false, &Singles).unwrap();
    assert_ne!(alone, whole);
    assert!(feed(&model, &config, &[u32::MAX], &mut in_parts, false, &Singles).is_none());
}
