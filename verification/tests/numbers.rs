use hypno::dtype::DType;
use hypno::float::{bf16_to_f32, is_at_most, is_below, largest_magnitude, negate, FloatUnit};
use hypno::kernels::{
    dot, dot_product_q4_0, dot_product_q4_0_scalar, dot_product_q8_0, matmul_f16, matmul_f32, matmul_q4_0_col, matmul_vec,
    matmul_vec_auto, matmul_vec_f16, matmul_vec_q4_0, rms_norm, rms_norm_fused, rope, rope_batched, silu, silu_in_place, silu_value, softmax,
    softmax_fast, CpuFeatures,
};
use hypno::lora::{extract_module_name, merge_lora_weights};
use hypno::quant::{
    dequantize_q4_0, dequantize_q8_0, q4_0_extract_row, q8_0_extract_row, quantize_f32_to_q4_0, quantize_f32_to_q8_0,
    Q4_0Block, Q8_0Block,
};
use hypno::quantize;
use hypno::sampling::{sample_token, sort_falling, XorShift64};

/// 32-bit arithmetic of the machine.
struct Singles;

impl FloatUnit for Singles {
    fn plus(&self, a: u32, b: u32) -> u32 {
        (f32::from_bits(a) + f32::from_bits(b)).to_bits()
    }
    fn minus(&self, a: u32, b: u32) -> u32 {
        (f32::from_bits(a) - f32::from_bits(b)).to_bits()
    }
    fn times(&self, a: u32, b: u32) -> u32 {
        (f32::from_bits(a) * f32::from_bits(b)).to_bits()
    }
    fn divide(&self, a: u32, b: u32) -> u32 {
        (f32::from_bits(a) / f32::from_bits(b)).to_bits()
    }
    fn root(&self, a: u32) -> u32 {
        f32::from_bits(a).sqrt().to_bits()
    }
    fn exponential(&self, a: u32) -> u32 {
        f32::from_bits(a).exp().to_bits()
    }
    fn power(&self, a: u32, b: u32) -> u32 {
        f32::from_bits(a).powf(f32::from_bits(b)).to_bits()
    }
    fn cosine(&self, a: u32) -> u32 {
        f32::from_bits(a).cos().to_bits()
    }
    fn sine(&self, a: u32) -> u32 {
        f32::from_bits(a).sin().to_bits()
    }
    fn larger(&self, a: u32, b: u32) -> u32 {
        f32::from_bits(a).max(f32::from_bits(b)).to_bits()
    }
    fn number(&self, n: usize) -> u32 {
        (n as f32).to_bits()
    }
    fn round_quotient(&self, a: u32, b: u32) -> i32 {
        (f32::from_bits(a) / f32::from_bits(b)).round() as i32
    }
    fn scale(&self, step: i32, by: u32) -> u32 {
        (step as f32 * f32::from_bits(by)).to_bits()
    }
    fn narrow(&self, single: u32) -> u16 {
        half::f16::from_f32(f32::from_bits(single)).to_bits()
    }
    fn widen(&self, half: u16) -> u32 {
        half::f16::from_bits(half).to_f32().to_bits()
    }
    fn double(&self, single: u32) -> u64 {
        (f32::from_bits(single) as f64).to_bits()
    }
    fn single(&self, double: u64) -> u32 {
        (f64::from_bits(double) as f32).to_bits()
    }
    fn double_number(&self, n: usize) -> u64 {
        (n as f64).to_bits()
    }
    fn double_plus(&self, a: u64, b: u64) -> u64 {
        (f64::from_bits(a) + f64::from_bits(b)).to_bits()
    }
    fn double_times(&self, a: u64, b: u64) -> u64 {
        (f64::from_bits(a) * f64::from_bits(b)).to_bits()
    }
    fn double_divide(&self, a: u64, b: u64) -> u64 {
        (f64::from_bits(a) / f64::from_bits(b)).to_bits()
    }
    fn double_root(&self, a: u64) -> u64 {
        f64::from_bits(a).sqrt().to_bits()
    }
    fn single_text(&self, bits: u32) -> String {
        f32::from_bits(bits).to_string()
    }
    fn double_text(&self, bits: u64) -> String {
        f64::from_bits(bits).to_string()
    }
    fn read_single(&self, text: &str) -> Option<u32> {
        text.parse::<f32>().ok().map(|v| v.to_bits())
    }
    fn whole_part(&self, text: &str) -> Option<u64> {
        text.parse::<f32>().ok().map(|v| v as u64)
    }
}

fn bits(values: &[f32]) -> Vec<u32> {
    values.iter().map(|v| v.to_bits()).collect()
}

fn singles(values: &[u32]) -> Vec<f32> {
    values.iter().map(|v| f32::from_bits(*v)).collect()
}

fn block_of(src: &[f32]) -> Q4_0Block {
    let mut block = Q4_0Block { scale: 0, qs: [0u8; 16] };
    block.quantize(&bits(src), &Singles);
    block
}

fn unpacked(block: &Q4_0Block) -> Vec<f32> {
    let mut dst = [0u32; 32];
    block.dequantize(&mut dst, &Singles);
    singles(&dst)
}

#[test]
fn quant_test_q4_0_roundtrip() {
    let src: Vec<f32> = (0..32).map(|i| (i as f32 - 15.5) * 0.1).collect();
    let dst = unpacked(&block_of(&src));
    for i in 0..32 {
        let diff = (src[i] - dst[i]).abs();
        assert!(diff < 0.5, "element {} diff {} too large", i, diff);
    }
}

#[test]
fn quant_test_q4_0_zero() {
    let dst = unpacked(&block_of(&[0f32; 32]));
    for i in 0..32 {
        assert!((dst[i]).abs() < 1e-6, "expected 0, got {}", dst[i]);
    }
}

#[test]
fn quantization_test_q4_0_roundtrip() {
    let src: Vec<f32> = (0..32).map(|i| (i as f32 - 15.5) * 0.1).collect();
    let block = block_of(&src);
    let mut dst = vec![0u32; 40];
    block.dequantize_into(&mut dst, 8, &Singles);
    assert_eq!(dst[..8], [0u32; 8]);
    let dst = singles(&dst[8..]);
    for i in 0..32 {
        let diff = (src[i] - dst[i]).abs();
        assert!(diff < 0.5, "element {} diff {} too large", i, diff);
    }
}

#[test]
fn quantization_test_q4_0_zero() {
    let block = block_of(&[0f32; 32]);
    let mut dst = vec![1u32; 32];
    block.dequantize_into(&mut dst, 0, &Singles);
    for v in singles(&dst) {
        assert!(v.abs() < 1e-6, "expected 0, got {}", v);
    }
}

#[test]
fn four_bit_blocks_hold_their_steps() {
    // The largest magnitude is 7, so the scale is 1 and the steps are the rounded values.
    let mut src = vec![0f32; 32];
    src[0] = 7.0;
    src[1] = -7.0;
    src[2] = 3.4;
    src[31] = -2.6;
    let block = block_of(&src);
    assert_eq!(block.scale, half::f16::from_f32(1.0).to_bits());
    assert_eq!(block.step(0), 7);
    assert_eq!(block.step(1), -7);
    assert_eq!(block.step(2), 3);
    assert_eq!(block.step(31), -3);
    assert_eq!(block.qs[0], 0x1F);
    let bytes = block.to_bytes();
    assert_eq!(bytes.len(), 18);
    let again = Q4_0Block::from_bytes(&bytes, 0);
    assert_eq!(again.qs, block.qs);
    assert_eq!(again.scale, block.scale);
}

#[test]
fn eight_bit_blocks_round_trip() {
    let src: Vec<f32> = (0..64).map(|i| (i as f32 - 31.5) * 0.25).collect();
    let data = quantize_f32_to_q8_0(&bits(&src), &Singles);
    assert_eq!(data.len(), 68);
    let back = singles(&dequantize_q8_0(&data, &Singles));
    for i in 0..64 {
        assert!((src[i] - back[i]).abs() < 0.1);
    }
    let row = singles(&q8_0_extract_row(&data, 1, 32, &Singles));
    assert_eq!(row, back[32..].to_vec());
    let block = Q8_0Block::quantize(&bits(&src[..32]), &Singles);
    assert_eq!(block.to_bytes(), data[..34].to_vec());
    assert_eq!(Q8_0Block::from_bytes(&data, 0).step(0), -127);
}

#[test]
fn last_block_is_filled_up() {
    let src: Vec<f32> = (0..40).map(|i| i as f32).collect();
    let data = quantize_f32_to_q4_0(&bits(&src), &Singles);
    assert_eq!(data.len(), 36);
    let back = singles(&dequantize_q4_0(&data, &Singles));
    assert_eq!(back.len(), 64);
    assert!((back[39] - 39.0).abs() < 3.0);
    assert!(back[40..].iter().all(|v| *v == 0.0));
}

#[test]
fn rows_of_four_bit_matrices() {
    let src: Vec<f32> = (0..128).map(|i| ((i * 7) % 13) as f32 - 6.0).collect();
    let data = quantize_f32_to_q4_0(&bits(&src), &Singles);
    let all = singles(&dequantize_q4_0(&data, &Singles));
    let row = singles(&q4_0_extract_row(&data, 1, 64, &Singles));
    assert_eq!(row, all[64..].to_vec());
}

#[test]
fn test_matmul_vec() {
    let w = bits(&[1.0f32, 2.0, 3.0, 4.0]);
    let x = bits(&[5.0f32, 6.0]);
    let mut y = vec![0u32; 2];
    matmul_vec(&mut y, &w, &x, None, 2, 2, &Singles);
    let y = singles(&y);
    assert!((y[0] - 17.0).abs() < 0.001);
    assert!((y[1] - 39.0).abs() < 0.001);
}

#[test]
fn test_softmax() {
    let y = singles(&softmax(&bits(&[1.0f32, 2.0, 3.0]), &Singles));
    assert!(((y.iter().sum::<f32>()) - 1.0).abs() < 0.001);
}

#[test]
fn ops_test_rms_norm() {
    let y = singles(&rms_norm(&bits(&[2.0f32; 4]), &bits(&[1.0f32; 4]), 1e-5f32.to_bits(), &Singles));
    for yi in &y {
        assert!((yi - 1.0).abs() < 0.001);
    }
}

#[test]
fn test_matmul_f32_correctness() {
    let n = 128;
    let m = 256;
    let w: Vec<f32> = (0..n * m).map(|i| ((i as f32) * 1.234).sin()).collect();
    let x: Vec<f32> = (0..m).map(|i| ((i as f32) * 0.789).cos()).collect();
    let mut y = vec![0u32; n];
    matmul_f32(&mut y, &bits(&w), &bits(&x), None, n, m, &Singles);
    let y = singles(&y);
    for i in 0..n {
        let mut reference = 0.0f32;
        for j in 0..m {
            reference += w[i * m + j] * x[j];
        }
        let err = (y[i] - reference).abs();
        assert!(err < 1e-3, "row {}: kernel={} ref={}", i, y[i], reference);
    }
}

#[test]
fn kernels_test_rms_norm() {
    let mut x = bits(&[2.0f32; 64]);
    rms_norm_fused(&mut x, &bits(&[1.0f32; 64]), 1e-5f32.to_bits(), &Singles);
    for v in singles(&x) {
        assert!((v - 1.0).abs() < 0.001, "got {}", v);
    }
}

#[test]
fn test_softmax_fast() {
    let mut x = bits(&[1.0f32, 2.0, 3.0, 4.0]);
    softmax_fast(&mut x, &Singles);
    let x = singles(&x);
    let s: f32 = x.iter().sum();
    assert!((s - 1.0).abs() < 0.001, "sum={}", s);
    assert!(x[3] > x[2] && x[2] > x[1]);
}

#[test]
fn test_dot_product_q4_0_vs_fp32() {
    let n = 64;
    let x: Vec<f32> = (0..n).map(|i| (i as f32) * 0.1).collect();
    let y: Vec<f32> = (0..n).map(|i| ((i % 7) as f32 - 3.0) * 0.5).collect();
    let n_blocks = n / 32;
    let mut y_q = vec![0u8; n_blocks * 18];
    for b in 0..n_blocks {
        let start = b * 32;
        let max_abs = y[start..start + 32].iter().map(|v| v.abs()).fold(0.0f32, f32::max);
        let scale = if max_abs > 0.0 { max_abs / 7.0 } else { 1.0 };
        y_q[b * 18] = half::f16::from_f32(scale).to_le_bytes()[0];
        y_q[b * 18 + 1] = half::f16::from_f32(scale).to_le_bytes()[1];
        for i in 0..16 {
            let v0 = y[start + i * 2];
            let v1 = y[start + i * 2 + 1];
            let q0 = ((v0 / scale).round() as i32).clamp(-8, 7);
            let q1 = ((v1 / scale).round() as i32).clamp(-8, 7);
            y_q[b * 18 + 2 + i] = ((q0 + 8) as u8 & 0x0F) | (((q1 + 8) as u8 & 0x0F) << 4);
        }
    }
    let scalar_dot = f32::from_bits(dot_product_q4_0_scalar(&bits(&x), &y_q, n, &Singles));
    let simd_dot = f32::from_bits(dot_product_q4_0(&bits(&x), &y_q, n, &Singles));
    assert!((scalar_dot - simd_dot).abs() < 0.01, "scalar={}, simd={}", scalar_dot, simd_dot);
    let fp32_dot: f32 = x.iter().zip(y.iter()).map(|(a, b)| a * b).sum();
    let rel_err = (fp32_dot - simd_dot).abs() / fp32_dot.abs().max(1e-6);
    assert!(rel_err < 0.15, "relative error {} too large (fp32={}, q4={})", rel_err, fp32_dot, simd_dot);
}

#[test]
fn test_dot_product_exact_small() {
    let x: Vec<f32> = (0..32).map(|_i| 1.0f32).collect();
    let mut y_q = vec![0u8; 18];
    let max_abs = 1.0;
    let scale = max_abs / 7.0;
    y_q[0] = half::f16::from_f32(scale).to_le_bytes()[0];
    y_q[1] = half::f16::from_f32(scale).to_le_bytes()[1];
    for i in 0..16 {
        let q = ((1.0 / scale).round() as i32).clamp(-8, 7);
        let nib = (q + 8) as u8 & 0x0F;
        y_q[2 + i] = nib | (nib << 4);
    }
    let result = f32::from_bits(dot_product_q4_0(&bits(&x), &y_q, 32, &Singles));
    assert!(result > 0.0, "Expected positive dot product, got {}", result);
}

#[test]
fn products_stop_where_the_data_end() {
    let x = bits(&[1.0f32; 64]);
    let one = quantize_f32_to_q4_0(&bits(&[7.0f32; 32]), &Singles);
    assert_eq!(f32::from_bits(dot_product_q4_0(&x, &one, 64, &Singles)), 224.0);
    let eight = quantize_f32_to_q8_0(&bits(&[127.0f32; 32]), &Singles);
    assert_eq!(f32::from_bits(dot_product_q8_0(&x, &eight, 32, &Singles)), 32.0 * 127.0);
    assert_eq!(f32::from_bits(dot(&bits(&[2.0, 3.0, 9.0]), &bits(&[4.0, 5.0, 9.0]), 2, &Singles)), 23.0);
}

#[test]
fn products_of_all_element_types_agree() {
    let n = 32;
    let m = 32;
    let w: Vec<f32> = (0..n * m).map(|i| ((i % 15) as f32) - 7.0).collect();
    let x: Vec<f32> = (0..m).map(|i| (i % 5) as f32).collect();
    let bias = bits(&vec![1.0f32; n]);
    let reference: Vec<f32> = (0..n).map(|r| 1.0 + (0..m).map(|c| w[r * m + c] * x[c]).sum::<f32>()).collect();
    let mut y = vec![0u32; n];
    matmul_f32(&mut y, &bits(&w), &bits(&x), Some(&bias), n, m, &Singles);
    assert_eq!(singles(&y), reference);
    let plain: Vec<u8> = w.iter().flat_map(|v| v.to_le_bytes()).collect();
    matmul_vec_auto(&mut y, &plain, DType::FP32, &bits(&x), Some(&bias), n, m, &Singles);
    assert_eq!(singles(&y), reference);
    let halves: Vec<u8> = w.iter().flat_map(|v| half::f16::from_f32(*v).to_le_bytes()).collect();
    matmul_f16(&mut y, &halves, &bits(&x), Some(&bias), n, m, &Singles);
    assert_eq!(singles(&y), reference);
    matmul_vec_f16(&mut y, &halves, &bits(&x), Some(&bias), n, m, &Singles);
    assert_eq!(singles(&y), reference);
    let four = quantize_f32_to_q4_0(&bits(&w), &Singles);
    matmul_vec_q4_0(&mut y, &four, &bits(&x), Some(&bias), n, m, &Singles);
    for (a, b) in singles(&y).iter().zip(&reference) {
        assert!((a - b).abs() < 0.5);
    }
    let eight = quantize_f32_to_q8_0(&bits(&w), &Singles);
    matmul_vec_auto(&mut y, &eight, DType::Q8_0, &bits(&x), Some(&bias), n, m, &Singles);
    for (a, b) in singles(&y).iter().zip(&reference) {
        assert!((a - b).abs() < 2.0);
    }
}

#[test]
fn columns_give_the_same_product() {
    let n = 64;
    let m = 32;
    // All weights are steps of the same scale, so that both orders hold the same values.
    let mut w: Vec<f32> = (0..n * m).map(|i| ((i * 5) % 15) as f32 - 7.0).collect();
    for b in 0..n * m / 32 {
        w[b * 32] = 7.0;
    }
    let mut turned = vec![0f32; n * m];
    for r in 0..n {
        for c in 0..m {
            turned[c * n + r] = w[r * m + c];
        }
    }
    let x = bits(&(0..m).map(|i| (i as f32) * 0.5).collect::<Vec<f32>>());
    let mut rows = vec![0u32; n];
    let mut columns = vec![0u32; n];
    matmul_vec_auto(&mut rows, &quantize_f32_to_q4_0(&bits(&w), &Singles), DType::Q4_0, &x, None, n, m, &Singles);
    matmul_q4_0_col(&mut columns, &quantize_f32_to_q4_0(&bits(&turned), &Singles), &x, None, n, m, &Singles);
    for (a, b) in singles(&rows).iter().zip(singles(&columns)) {
        assert!((a - b).abs() < 20.0, "{} and {}", a, b);
    }
}

#[test]
fn test_silu() {
    let f = |v: f32| f32::from_bits(silu_value(v.to_bits(), &Singles));
    assert!((f(0.0) - 0.0).abs() < 0.001);
    let s = f(-1.0);
    assert!((s + 0.2689).abs() < 0.01);
    let s = f(1.0);
    assert!((s - 0.7311).abs() < 0.01);
    let mut x = bits(&[0.0, 1.0]);
    silu_in_place(&mut x, &Singles);
    assert!((f32::from_bits(x[1]) - 0.7311).abs() < 0.01);
    assert_eq!(silu(&bits(&[0.0, 1.0]), &Singles), x);
}

#[test]
fn rotation_turns_pairs() {
    let mut q = bits(&[1.0, 0.0, 0.0, 1.0]);
    let mut k = bits(&[0.0, 1.0, 1.0, 0.0]);
    rope(&mut q, &mut k, 4, 1, 10000f32.to_bits(), &Singles);
    let q = singles(&q);
    assert!((q[0] - 1f32.cos()).abs() < 1e-6);
    assert!((q[1] - 1f32.sin()).abs() < 1e-6);
    assert!((q[2] + 0.01f32.sin()).abs() < 1e-5);
    assert!((q[3] - 0.01f32.cos()).abs() < 1e-5);
    let k = singles(&k);
    assert!((k[0] + 1f32.sin()).abs() < 1e-6);
    // What lies behind the head stays, and a head of three values takes its partner from there.
    let mut q = bits(&[1.0, 0.0, 9.0]);
    let mut k = bits(&[0.0, 1.0, 8.0, 7.0]);
    rope(&mut q, &mut k, 2, 1, 10000f32.to_bits(), &Singles);
    assert!((f32::from_bits(q[1]) - 1f32.sin()).abs() < 1e-6);
    assert_eq!(singles(&q)[2..], [9.0]);
    assert_eq!(singles(&k)[2..], [8.0, 7.0]);
    let mut q = bits(&[0.0, 0.0, 1.0, 0.0]);
    let mut k = bits(&[0.0; 4]);
    rope(&mut q, &mut k, 3, 1, 1f32.to_bits(), &Singles);
    assert!((f32::from_bits(q[3]) - 1f32.sin()).abs() < 1e-6);
    rope(&mut [], &mut [], 0, 1, 1f32.to_bits(), &Singles);
    let mut a = bits(&[1.0, 0.0, 1.0, 0.0, 5.0]);
    let mut b = bits(&[0.0; 4]);
    rope_batched(&mut a, &mut b, 2, 2, 10000f32.to_bits(), &Singles);
    let a = singles(&a);
    assert_eq!(a[0], 1.0);
    assert_eq!(a[1], 0.0);
    assert!((a[2] - 1f32.cos()).abs() < 1e-6);
    assert!((a[3] - 1f32.sin()).abs() < 1e-6);
    assert_eq!(a[4], 5.0);
}

#[test]
fn best_instruction_set_is_named() {
    let none = CpuFeatures { avx512f: false, avx2: false, fma: false, sse41: false, neon: false };
    assert_eq!(none.best_label(), "Scalar");
    assert_eq!(CpuFeatures { avx512f: true, ..none }.best_label(), "AVX-512");
}

#[test]
fn numbers_are_ordered() {
    let less = |a: f32, b: f32| is_below(a.to_bits(), b.to_bits());
    assert!(less(-2.0, -1.0));
    assert!(less(-1.0, 0.5));
    assert!(!less(0.0, -0.0));
    assert!(!less(f32::NAN, 1.0));
    assert!(!less(1.0, f32::NAN));
    assert!(is_at_most(0f32.to_bits(), (-0f32).to_bits()));
    assert!(!is_at_most(f32::NAN.to_bits(), 0f32.to_bits()));
    assert_eq!(f32::from_bits(negate(2.5f32.to_bits())), -2.5);
    assert_eq!(f32::from_bits(largest_magnitude(&bits(&[1.0, -3.0, f32::NAN, 2.0]))), 3.0);
    assert_eq!(f32::from_bits(bf16_to_f32(0x3F80)), 1.0);
}

#[test]
fn test_extract_module_name() {
    assert_eq!(
        extract_module_name("base_model.model.layers.0.self_attn.q_proj.lora_A.weight"),
        "layers.0.self_attn.q_proj"
    );
    assert_eq!(
        extract_module_name("model.layers.5.mlp.down_proj.lora_B.weight"),
        "model.layers.5.mlp.down_proj"
    );
}

#[test]
fn test_merge_lora_weights_small() {
    let lora_a = bits(&[1.0, 0.0, 0.0, 0.0, 1.0, 0.0]);
    let lora_b = bits(&[1.0, 0.0, 0.0, 1.0]);
    let base = bits(&[1.0, 0.0, 0.0, 0.0, 1.0, 0.0]);
    let merged =
        singles(&merge_lora_weights(&lora_a, &[2, 3], &lora_b, &[2, 2], &base, &[2, 3], 1f32.to_bits(), &Singles));
    assert!((merged[0] - 2.0).abs() < 0.001);
    assert!((merged[3] - 0.0).abs() < 0.001);
    assert!((merged[4] - 2.0).abs() < 0.001);
}

#[test]
fn main_test_rng_determinism() {
    let mut a = XorShift64::new(42);
    let mut b = XorShift64::new(42);
    for _ in 0..100 {
        assert_eq!(a.next(), b.next());
    }
}

#[test]
fn test_rng_determinism() {
    let mut a = XorShift64::new(42);
    let mut b = XorShift64::new(42);
    for _ in 0..100 {
        assert_eq!(a.next(), b.next());
        assert_eq!(a.state, b.state);
    }
}

#[test]
fn generator_draws_below_one() {
    let mut rng = XorShift64::new(0);
    assert_eq!(rng.state, 1);
    // 1 ^ (1 << 13), then ^ (it >> 7), then ^ (it << 17).
    assert_eq!(rng.next(), 0x4082_2041);
    for _ in 0..1000 {
        let v = f32::from_bits(rng.next_f32(&Singles));
        assert!((0.0..1.0).contains(&v));
        assert_ne!(rng.state, 0);
    }
}

#[test]
fn main_test_sampling_greedy() {
    let logits = bits(&[0.1f32, 0.5, 2.0, 0.3]);
    let mut rng = XorShift64::new(42);
    let token = sample_token(&logits, 0.01f32.to_bits(), 1f32.to_bits(), 0, &mut rng, &Singles);
    assert_eq!(token, 2);
}

#[test]
fn test_sampling_greedy() {
    let logits = bits(&[0.1f32, 0.5, 2.0, 0.3]);
    for seed in [42, 1, 7, 1000] {
        let mut rng = XorShift64::new(seed);
        let token = sample_token(&logits, 0.01f32.to_bits(), 1f32.to_bits(), 0, &mut rng, &Singles);
        assert_eq!(token, 2);
    }
}

#[test]
fn sampling_keeps_to_the_most_likely() {
    let logits = bits(&[1.0f32, 3.0, 2.0, 0.0]);
    let mut rng = XorShift64::new(7);
    for _ in 0..200 {
        // Only the greatest is left of the top one.
        assert_eq!(sample_token(&logits, 1f32.to_bits(), 1f32.to_bits(), 1, &mut rng, &Singles), 1);
        // The two greatest are left of the top two.
        let t = sample_token(&logits, 1f32.to_bits(), 1f32.to_bits(), 2, &mut rng, &Singles);
        assert!(t == 1 || t == 2);
        // The greatest alone exceeds half of the whole.
        assert_eq!(sample_token(&logits, 1f32.to_bits(), 0.5f32.to_bits(), 0, &mut rng, &Singles), 1);
    }
}

#[test]
fn sampling_falls_back_to_the_greatest() {
    let mut rng = XorShift64::new(7);
    let logits = bits(&[-3.0f32, -1.0, -1.0, -2.0]);
    // Below 0 the logits are the weights, which do not add up to more than 0.
    assert_eq!(sample_token(&logits, (-1f32).to_bits(), 1f32.to_bits(), 0, &mut rng, &Singles), 2);
    assert_eq!(rng.state, 7);
    assert_eq!(sample_token(&[], (-1f32).to_bits(), 1f32.to_bits(), 0, &mut rng, &Singles), 0);
}

#[test]
fn sampling_without_temperature_is_greedy() {
    let mut rng = XorShift64::new(7);
    let logits = bits(&[1.0f32, 3.0, 2.0, 3.0, 0.5]);
    for temperature in [0f32, -0f32] {
        for top_k in [0, 2, 5] {
            let token = sample_token(&logits, temperature.to_bits(), 0.9f32.to_bits(), top_k, &mut rng, &Singles);
            assert_eq!(token, 3);
        }
    }
    assert_eq!(rng.state, 7);
    assert_eq!(sample_token(&[], 0, 1f32.to_bits(), 0, &mut rng, &Singles), 0);
}

#[test]
fn values_are_sorted_falling() {
    let s = sort_falling(&bits(&[1.0, -2.0, 7.5, 0.0, 7.5, -0.5]));
    assert_eq!(singles(&s), vec![7.5, 7.5, 1.0, 0.0, -0.5, -2.0]);
}

#[test]
fn values_are_measured_by_the_exact_scale() {
    let src: Vec<f32> = (0..40).map(|i| ((i * 37) % 101) as f32 * 0.0173 - 0.9).collect();
    let exact = quantize::quantize_f32_to_q8_0(&bits(&src), &Singles);
    assert_eq!(exact.len(), 68);
    for (b, part) in src.chunks(32).enumerate() {
        let top = part.iter().fold(0f32, |m, v| m.max(v.abs()));
        let scale = top / 127.0;
        assert_eq!(exact[34 * b..34 * b + 2], half::f16::from_f32(scale).to_le_bytes());
        for (j, v) in part.iter().enumerate() {
            assert_eq!(exact[34 * b + 2 + j] as i32, (v / scale).round() as i32 + 128);
        }
    }
    assert_eq!(exact[34 + 2 + 8..], [0u8; 24]);
    // Steps of the stored scale give other bytes where that is rounded up.
    let mut src = vec![0f32; 32];
    src[0] = 1.0 + 1.0 / 1024.0;
    let steps: Vec<f32> = (1..32).map(|j| (j as f32 * 4.0 + 0.49) * src[0] / 127.0).collect();
    src[1..].copy_from_slice(&steps);
    let exact = quantize::quantize_f32_to_q8_0(&bits(&src), &Singles);
    let stored = quantize_f32_to_q8_0(&bits(&src), &Singles);
    assert_eq!(exact[..2], stored[..2]);
    for j in 1..32 {
        assert_eq!(exact[2 + j] as usize, 128 + 4 * j);
    }
    assert!(quantize::quantize_f32_to_q8_0(&[], &Singles).is_empty());
    let zeros = quantize::quantize_f32_to_q8_0(&bits(&[0.0; 32]), &Singles);
    assert_eq!(zeros[2..], [128u8; 32]);
}
