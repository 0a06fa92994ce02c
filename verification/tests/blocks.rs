use metaltile_std::bench_plan::QFormat;
use metaltile_std::flash_block_scaled_sdpa::{
    mt_mxfp4_flash_sdpa_d128, mt_mxfp8_e4m3_flash_sdpa_d128, mt_mxfp8_e5m2_flash_sdpa_d128,
    mt_nvfp4_flash_sdpa_d128, mt_nvfp8_flash_sdpa_d128,
};
use metaltile_std::gated_rms_norm_block_scaled_qgemv::{
    mt_fp4_gated_rms_norm_qgemv, mt_fp8_e5m2_gated_rms_norm_qgemv, mt_int8_gated_rms_norm_qgemv,
    mt_mxfp4_gated_rms_norm_qgemv, mt_mxfp8_e4m3_gated_rms_norm_qgemv,
    mt_mxfp8_e5m2_gated_rms_norm_qgemv, mt_nvfp4_gated_rms_norm_qgemv,
    mt_nvfp8_gated_rms_norm_qgemv,
};
use metaltile_std::patch_embed_block_scaled::{
    mt_fp4_patch_embed, mt_fp8_e5m2_patch_embed, mt_int8_patch_embed, mt_mxfp4_patch_embed,
    mt_mxfp8_e4m3_patch_embed, mt_mxfp8_e5m2_patch_embed, mt_nvfp4_patch_embed,
    mt_nvfp8_patch_embed,
};
use metaltile_std::quant::{
    decode, e2m1_decode, e4m3_decode, e5m2_decode, int8_decode, pack_int4_row, pack_int8_row, Code,
};
use metaltile_std::rms_norm_block_scaled_qgemv::{
    mt_mxfp4_rms_norm_qgemv, mt_mxfp8_e4m3_rms_norm_qgemv, mt_mxfp8_e5m2_rms_norm_qgemv,
    mt_nvfp4_rms_norm_qgemv, mt_nvfp8_rms_norm_qgemv,
};
use metaltile_std::rms_norm_qgemv::{
    ffai_rms_norm_qgemv, ffai_rms_norm_qgemv_fast, ffai_rms_norm_qgemv_int8_fast,
};
use metaltile_std::scalar::{Element, Fun, Op, Rel, Scalar};

// ── the arithmetic of machine floats ─────────────────────────────────────────

#[derive(Clone, Copy, Debug, PartialEq)]
struct F32(f32);

impl Scalar for F32 {
    type Cond = bool;
    type Index = u32;

    fn dup(&self) -> F32 {
        *self
    }
    fn ratio(num: i64, den: u64) -> F32 {
        F32((num as f64 / den as f64) as f32)
    }
    fn from_u32(n: u32) -> F32 {
        F32(n as f32)
    }
    fn neg_infinity() -> F32 {
        F32(f32::NEG_INFINITY)
    }
    fn nan() -> F32 {
        F32(f32::NAN)
    }
    fn apply(f: Fun, a: &F32) -> F32 {
        let x = a.0;
        F32(match f {
            Fun::Neg => -x,
            Fun::Exp => x.exp(),
            Fun::Exp2 => x.exp2(),
            Fun::Log => x.ln(),
            Fun::Log2 => x.log2(),
            Fun::Sqrt => x.sqrt(),
            Fun::Rsqrt => 1.0 / x.sqrt(),
            Fun::Sin => x.sin(),
            Fun::Cos => x.cos(),
            Fun::Floor => x.floor(),
            Fun::Silu => x / (1.0 + (-x).exp()),
            Fun::Gelu => 0.5 * x * (1.0 + (0.797_884_6 * (x + 0.044715 * x * x * x)).tanh()),
            Fun::Sigmoid => 1.0 / (1.0 + (-x).exp()),
        })
    }
    fn combine(op: Op, a: &F32, b: &F32) -> F32 {
        let (x, y) = (a.0, b.0);
        F32(match op {
            Op::Add => x + y,
            Op::Sub => x - y,
            Op::Mul => x * y,
            Op::Div => x / y,
            Op::Max => x.max(y),
            Op::Min => x.min(y),
        })
    }
    fn relate(rel: Rel, a: &F32, b: &F32) -> bool {
        match rel {
            Rel::Less => a.0 < b.0,
            Rel::AtLeast => a.0 >= b.0,
        }
    }
    fn always() -> bool {
        true
    }
    fn both(c: &bool, d: &bool) -> bool {
        *c && *d
    }
    fn not(c: &bool) -> bool {
        !*c
    }
    fn select(c: &bool, a: &F32, b: &F32) -> F32 {
        if *c { *a } else { *b }
    }
    fn index(i: u32) -> u32 {
        i
    }
    fn select_index(c: &bool, i: &u32, j: &u32) -> u32 {
        if *c { *i } else { *j }
    }
    fn index_value(i: &u32) -> F32 {
        F32(*i as f32)
    }
    fn trunc(a: &F32) -> u32 {
        a.0 as u32
    }
    fn resolve(i: &u32) -> Option<u32> {
        Some(*i)
    }

    // What contracts speak of: never run.
    fn rational(_: i64, _: u64) -> F32 {
        unreachable!()
    }
    fn natural(_: u32) -> F32 {
        unreachable!()
    }
    fn lowest() -> F32 {
        unreachable!()
    }
    fn undefined() -> F32 {
        unreachable!()
    }
    fn applied(_: Fun, _: F32) -> F32 {
        unreachable!()
    }
    fn combined(_: Op, _: F32, _: F32) -> F32 {
        unreachable!()
    }
    fn related(_: Rel, _: F32, _: F32) -> bool {
        unreachable!()
    }
    fn certain() -> bool {
        unreachable!()
    }
    fn conjoined(_: bool, _: bool) -> bool {
        unreachable!()
    }
    fn negated(_: bool) -> bool {
        unreachable!()
    }
    fn chosen(_: bool, _: F32, _: F32) -> F32 {
        unreachable!()
    }
    fn position(_: u32) -> u32 {
        unreachable!()
    }
    fn chosen_index(_: bool, _: u32, _: u32) -> u32 {
        unreachable!()
    }
    fn of_index(_: u32) -> F32 {
        unreachable!()
    }
    fn to_index(_: F32) -> u32 {
        unreachable!()
    }
    fn resolved(_: u32) -> Option<u32> {
        unreachable!()
    }
}

fn wrap(v: &[f32]) -> Vec<F32> {
    v.iter().map(|x| F32(*x)).collect()
}

fn unwrap(v: &[F32]) -> Vec<f32> {
    v.iter().map(|x| x.0).collect()
}

fn max_abs_diff(a: &[f32], b: &[f32]) -> f32 {
    assert_eq!(a.len(), b.len());
    a.iter().zip(b).map(|(x, y)| (x - y).abs()).fold(0.0_f32, f32::max)
}

fn round_f16(v: f32) -> f32 {
    half::f16::from_f32(v).to_f32()
}

fn round_bf16(v: f32) -> f32 {
    half::bf16::from_f32(v).to_f32()
}

/// A float in a half-precision buffer.
#[derive(Clone, Copy, Debug, PartialEq)]
struct Half(f32);

impl Element<F32> for Half {
    fn widen(&self) -> F32 {
        F32(self.0)
    }
    fn narrow(a: &F32) -> Half {
        Half(round_f16(a.0))
    }
    fn stage(a: &F32) -> F32 {
        F32(round_f16(a.0))
    }
    fn copied(&self) -> Half {
        *self
    }

    // What contracts speak of: never run.
    fn widened(self) -> F32 {
        unreachable!()
    }
    fn narrowed(_: F32) -> Half {
        unreachable!()
    }
    fn staged(_: F32) -> F32 {
        unreachable!()
    }
}

/// A float in a bfloat buffer; a matrix tile stages it in half precision.
#[derive(Clone, Copy, Debug, PartialEq)]
struct Brain(f32);

impl Element<F32> for Brain {
    fn widen(&self) -> F32 {
        F32(self.0)
    }
    fn narrow(a: &F32) -> Brain {
        Brain(round_bf16(a.0))
    }
    fn stage(a: &F32) -> F32 {
        F32(round_f16(a.0))
    }
    fn copied(&self) -> Brain {
        *self
    }

    // What contracts speak of: never run.
    fn widened(self) -> F32 {
        unreachable!()
    }
    fn narrowed(_: F32) -> Brain {
        unreachable!()
    }
    fn staged(_: F32) -> F32 {
        unreachable!()
    }
}

/// The storage types of a launch.
trait Store: Element<F32> {
    fn of(v: &[f32]) -> Vec<Self> {
        v.iter().map(|x| Self::narrow(&F32(*x))).collect()
    }
    fn floats(v: &[Self]) -> Vec<f32> {
        v.iter().map(|x| x.widen().0).collect()
    }
    fn zeros(n: usize) -> Vec<Self> {
        (0..n).map(|_| Self::narrow(&F32(0.0))).collect()
    }
}

impl Store for F32 {}
impl Store for Half {}
impl Store for Brain {}

// ── quantized weights ────────────────────────────────────────────────────────

fn small_float(bits: u32, man_bits: u32, exp_bits: u32, bias: i32) -> f32 {
    let man = bits & ((1 << man_bits) - 1);
    let exp = (bits >> man_bits) & ((1 << exp_bits) - 1);
    let unit = (0.5_f32).powi(man_bits as i32);
    let magnitude = if exp == 0 {
        man as f32 * unit * (2.0_f32).powi(1 - bias)
    } else {
        (1.0 + man as f32 * unit) * (2.0_f32).powi(exp as i32 - bias)
    };
    if bits >> (man_bits + exp_bits) & 1 == 1 { -magnitude } else { magnitude }
}

/// Rows of weights in some format, and what they stand for.
struct Coded {
    words: Vec<u32>,
    bytes: Vec<u8>,
    scale_bytes: Vec<u8>,
    scales: Vec<F32>,
    global: F32,
    values: Vec<f32>,
    block: u32,
}

/// `rows` rows of `cols` codes that differ from one another, and scales near one.
fn coded(form: QFormat, rows: usize, cols: usize) -> Coded {
    let block = form.block_size() as usize;
    let per_row = cols / block;
    let codes: Vec<u32> = (0..rows * cols)
        .map(|i| {
            let spread = (i as u32).wrapping_mul(2_654_435_761) >> 20;
            match form {
                QFormat::Mxfp4 | QFormat::Nvfp4 | QFormat::Fp4 => spread % 16,
                QFormat::Int8 => spread % 256,
                // Exponents about the middle.
                QFormat::Mxfp8E5 | QFormat::Fp8E5m2 => (spread & 0x83) | ((13 + spread / 8 % 4) << 2),
                _ => (spread & 0x87) | ((5 + spread / 16 % 4) << 3),
            }
        })
        .collect();
    let scale_bytes: Vec<u8> = (0..rows * per_row)
        .map(|i| match form {
            QFormat::Nvfp4 => (0x30 + i % 12) as u8,
            _ => (125 + i % 4) as u8,
        })
        .collect();
    let scales: Vec<F32> =
        (0..rows * per_row).map(|i| F32(0.5 + (i % 7) as f32 * 0.125)).collect();
    let global = F32(0.75);
    let values = (0..rows * cols)
        .map(|i| {
            let c = codes[i];
            let element = match form {
                QFormat::Mxfp4 | QFormat::Nvfp4 | QFormat::Fp4 => small_float(c, 1, 2, 1),
                QFormat::Mxfp8E4 | QFormat::Nvfp8 | QFormat::Fp8E4m3 => small_float(c, 3, 4, 7),
                QFormat::Mxfp8E5 | QFormat::Fp8E5m2 => small_float(c, 2, 5, 15),
                QFormat::Int8 => c as u8 as i8 as f32,
            };
            let s = i / cols * per_row + i % cols / block;
            let scale = match form {
                QFormat::Mxfp4 | QFormat::Mxfp8E4 | QFormat::Mxfp8E5 => {
                    (2.0_f32).powi(scale_bytes[s] as i32 - 127)
                }
                QFormat::Nvfp4 => small_float(scale_bytes[s] as u32, 3, 4, 7) * global.0,
                _ => scales[s].0,
            };
            element * scale
        })
        .collect();
    let words = codes
        .chunks_exact(8)
        .map(|c| c.iter().enumerate().fold(0, |w, (i, q)| w | (q & 15) << (4 * i)))
        .collect();
    let bytes = codes.iter().map(|c| *c as u8).collect();
    Coded { words, bytes, scale_bytes, scales, global, values, block: block as u32 }
}

fn assert_close(got: &[f32], expected: &[f32], tol: f32) {
    assert_eq!(got.len(), expected.len());
    for (i, (a, e)) in got.iter().zip(expected).enumerate() {
        assert!(
            a == e || (a - e).abs() <= tol * (1.0 + e.abs()),
            "element {i}: {a} against {e}"
        );
    }
}

fn stored<T: Store>(v: &[f32]) -> Vec<f32> {
    T::floats(&T::of(v))
}

const EPS: f32 = 1e-5;

// ── codes ────────────────────────────────────────────────────────────────────

#[test]
fn four_bit_floats_by_hand() {
    let table = [0.0, 0.5, 1.0, 1.5, 2.0, 3.0, 4.0, 6.0];
    for (i, v) in table.iter().enumerate() {
        assert_eq!(e2m1_decode::<F32>(i as u32).0, *v);
        assert_eq!(e2m1_decode::<F32>(i as u32 + 8).0, -*v);
        assert_eq!(decode::<F32>(Code::E2m1, i as u32).0, *v);
    }
}

#[test]
fn eight_bit_floats_by_hand() {
    assert_eq!(e4m3_decode::<F32>(0x38).0, 1.0);
    assert_eq!(e4m3_decode::<F32>(0x7e).0, 448.0);
    assert_eq!(e4m3_decode::<F32>(0x01).0, 1.0 / 512.0);
    assert_eq!(e4m3_decode::<F32>(0xb8).0, -1.0);
    assert!(e4m3_decode::<F32>(0x7f).0.is_nan());
    assert!(e4m3_decode::<F32>(0xff).0.is_nan());
    assert_eq!(e5m2_decode::<F32>(0x3c).0, 1.0);
    assert_eq!(e5m2_decode::<F32>(0x7b).0, 57344.0);
    assert_eq!(e5m2_decode::<F32>(0x01).0, 1.0 / 65536.0);
    assert_eq!(e5m2_decode::<F32>(0x7c).0, f32::INFINITY);
    assert_eq!(e5m2_decode::<F32>(0xfc).0, f32::NEG_INFINITY);
    assert!(e5m2_decode::<F32>(0x7d).0.is_nan());
    assert_eq!(int8_decode::<F32>(0x7f).0, 127.0);
    assert_eq!(int8_decode::<F32>(0x80).0, -128.0);
    assert_eq!(int8_decode::<F32>(0xff).0, -1.0);
}

#[test]
fn every_code_decodes_as_its_fields_say() {
    for bits in 0..256u32 {
        if bits % 128 != 127 {
            assert_eq!(decode::<F32>(Code::E4m3, bits).0, small_float(bits, 3, 4, 7));
        }
        if bits / 4 % 32 != 31 {
            assert_eq!(decode::<F32>(Code::E5m2, bits).0, small_float(bits, 2, 5, 15));
        }
        assert_eq!(decode::<F32>(Code::Int8, bits).0, bits as u8 as i8 as f32);
    }
}

#[test]
fn packed_rows_by_hand() {
    assert_eq!(pack_int4_row(&[1, 2, 3, 4, 5, 6, 7, 8]), vec![0x8765_4321]);
    assert_eq!(pack_int8_row(&[1, 2, 3, 0xff]), vec![0xff03_0201]);
    // Only the low bits of a code count.
    assert_eq!(pack_int4_row(&[0x1f, 0, 0, 0, 0, 0, 0, 0x2a]), vec![0xa000_000f]);
    assert_eq!(pack_int8_row(&[0x1ff, 0, 0, 0x300]), vec![0x0000_00ff]);
    assert_eq!(pack_int4_row(&[]), Vec::<u32>::new());
}

// ── attention over a quantized cache ─────────────────────────────────────────

fn source(n: usize, seed: u64, scale: f32) -> Vec<f32> {
    let mut s = seed;
    (0..n)
        .map(|_| {
            s ^= s << 13;
            s ^= s >> 7;
            s ^= s << 17;
            (s % 20_000) as f32 / 20_000.0 * scale - scale * 0.5
        })
        .collect()
}

#[allow(clippy::too_many_arguments)]
fn naive(
    q: &[f32],
    k_deq: &[f32],
    v_deq: &[f32],
    q_heads: usize,
    kv_heads: usize,
    tokens: usize,
    dim: usize,
    scale: f32,
    sinks: &[f32],
    has_sinks: bool,
    window_size: usize,
) -> Vec<f32> {
    let repeat = q_heads / kv_heads;
    let mut out = vec![0.0f32; q_heads * dim];
    for qh in 0..q_heads {
        let kvh = qh / repeat;
        let used = |t: usize| window_size == 0 || t + window_size > tokens - 1;
        let mut scores = vec![0.0f32; tokens];
        for (t, s) in scores.iter_mut().enumerate() {
            let mut dot = 0.0f32;
            for d in 0..dim {
                dot += scale * q[qh * dim + d] * k_deq[(kvh * tokens + t) * dim + d];
            }
            *s = dot;
        }
        let mut m = if has_sinks { sinks[qh] } else { f32::NEG_INFINITY };
        for (t, &s) in scores.iter().enumerate() {
            if used(t) {
                m = m.max(s);
            }
        }
        let mut sum = if has_sinks { (sinks[qh] - m).exp() } else { 0.0f32 };
        let mut w = vec![0.0f32; tokens];
        for (t, &s) in scores.iter().enumerate() {
            if used(t) {
                w[t] = (s - m).exp();
                sum += w[t];
            }
        }
        let inv = if sum > 0.0 { 1.0 / sum } else { 1.0 };
        for d in 0..dim {
            let mut acc = 0.0f32;
            for (t, &wt) in w.iter().enumerate() {
                acc += wt * inv * v_deq[(kvh * tokens + t) * dim + d];
            }
            out[qh * dim + d] = acc;
        }
    }
    out
}

fn check_flash<T: Store>(form: QFormat, has_sinks: bool, window_size: usize, tol: f32) {
    let (q_heads, kv_heads, tokens, dim) = (2usize, 1usize, 8usize, 128usize);
    let repeat = (q_heads / kv_heads) as u32;
    let scale = 1.0f32 / (dim as f32).sqrt();
    let q = stored::<T>(&source(q_heads * dim, 0x51, 2.0));
    let k = coded(form, kv_heads * tokens, dim);
    let v = coded(form, kv_heads * tokens, dim);
    let sinks: Vec<f32> = if has_sinks {
        (0..q_heads).map(|h| 0.5 + 0.25 * h as f32).collect()
    } else {
        vec![0.0f32; q_heads]
    };
    let expected = naive(
        &q, &k.values, &v.values, q_heads, kv_heads, tokens, dim, scale, &sinks, has_sinks,
        window_size,
    );
    let queries = T::of(&q);
    let sinks = wrap(&sinks);
    let mut out = T::zeros(q_heads * dim);
    let (d, t, b, h) = (dim as u32, tokens as u32, k.block, q_heads as u32);
    let (s, w, at, n) = (u32::from(has_sinks), window_size as u32, F32(scale), kv_heads as u32);
    match form {
        QFormat::Mxfp4 => mt_mxfp4_flash_sdpa_d128(
            &queries, &k.words, &k.scale_bytes, &v.words, &v.scale_bytes, &sinks, &mut out, d, t,
            repeat, b, h, s, w, &at, h, n,
        ),
        QFormat::Nvfp4 => mt_nvfp4_flash_sdpa_d128(
            &queries, &k.words, &k.scale_bytes, &v.words, &v.scale_bytes, &sinks, &mut out, d, t,
            repeat, b, h, s, w, &at, &k.global, h, n,
        ),
        QFormat::Mxfp8E4 => mt_mxfp8_e4m3_flash_sdpa_d128(
            &queries, &k.bytes, &k.scale_bytes, &v.bytes, &v.scale_bytes, &sinks, &mut out, d, t,
            repeat, b, h, s, w, &at, h, n,
        ),
        QFormat::Mxfp8E5 => mt_mxfp8_e5m2_flash_sdpa_d128(
            &queries, &k.bytes, &k.scale_bytes, &v.bytes, &v.scale_bytes, &sinks, &mut out, d, t,
            repeat, b, h, s, w, &at, h, n,
        ),
        _ => mt_nvfp8_flash_sdpa_d128(
            &queries, &k.bytes, &k.scales, &v.bytes, &v.scales, &sinks, &mut out, d, t, repeat, b,
            h, s, w, &at, h, n,
        ),
    }
    assert_close(&T::floats(&out), &expected, tol);
}

fn check_flash_types(form: QFormat, has_sinks: bool, window_size: usize) {
    check_flash::<F32>(form, has_sinks, window_size, 1e-4);
    check_flash::<Half>(form, has_sinks, window_size, 2e-3);
    check_flash::<Brain>(form, has_sinks, window_size, 1e-2);
}

#[test]
fn test_mxfp4_flash_sdpa_d128() {
    check_flash_types(QFormat::Mxfp4, false, 0);
}

#[test]
fn test_nvfp4_flash_sdpa_d128() {
    check_flash_types(QFormat::Nvfp4, false, 0);
}

#[test]
fn test_mxfp8_e4m3_flash_sdpa_d128() {
    check_flash_types(QFormat::Mxfp8E4, false, 0);
}

#[test]
fn test_mxfp8_e5m2_flash_sdpa_d128() {
    check_flash_types(QFormat::Mxfp8E5, false, 0);
}

#[test]
fn test_nvfp8_flash_sdpa_d128() {
    check_flash_types(QFormat::Nvfp8, false, 0);
}

#[test]
fn test_mxfp4_flash_sdpa_d128_sinks() {
    check_flash_types(QFormat::Mxfp4, true, 0);
}

#[test]
fn test_mxfp4_flash_sdpa_d128_window() {
    check_flash_types(QFormat::Mxfp4, false, 4);
}

#[test]
fn flash_with_sinks_and_a_window() {
    check_flash_types(QFormat::Nvfp8, true, 3);
}

/// One token takes all the weight, so the output is its value.
#[test]
fn flash_over_one_token_is_its_value() {
    let v = coded(QFormat::Nvfp8, 1, 128);
    let mut out = wrap(&vec![0.0; 128]);
    mt_nvfp8_flash_sdpa_d128(
        &wrap(&source(128, 0x51, 2.0)),
        &v.bytes,
        &v.scales,
        &v.bytes,
        &v.scales,
        &wrap(&[0.0]),
        &mut out,
        128,
        1,
        1,
        16,
        1,
        0,
        0,
        &F32(0.1),
        1,
        1,
    );
    assert_close(&unwrap(&out), &v.values, 1e-6);
}

/// The last `kept` of every `tokens` rows.
fn last_rows<A: Copy>(rows: &[A], tokens: usize, kept: usize, per_row: usize) -> Vec<A> {
    rows.chunks_exact(tokens * per_row)
        .flat_map(|head| head[(tokens - kept) * per_row..].to_vec())
        .collect()
}

fn windowed(k: &Coded, v: &Coded, tokens: u32, window_size: u32) -> Vec<f32> {
    let mut out = wrap(&vec![0.0; 4 * 128]);
    mt_mxfp4_flash_sdpa_d128(
        &wrap(&source(4 * 128, 0x51, 2.0)),
        &k.words,
        &k.scale_bytes,
        &v.words,
        &v.scale_bytes,
        &wrap(&[0.5, 0.25, -0.5, 0.0]),
        &mut out,
        128,
        tokens,
        2,
        k.block,
        4,
        1,
        window_size,
        &F32(0.1),
        4,
        2,
    );
    unwrap(&out)
}

/// A window reads what a cache of its last tokens holds, and a window of all tokens or
/// more reads all of them.
#[test]
fn window_is_the_last_tokens() {
    let (k, v) = (coded(QFormat::Mxfp4, 16, 128), coded(QFormat::Mxfp4, 16, 128));
    for kept in [1usize, 3, 7] {
        let mut cut_k = coded(QFormat::Mxfp4, 16, 128);
        let mut cut_v = coded(QFormat::Mxfp4, 16, 128);
        let scales = k.scale_bytes.len() / 16;
        cut_k.words = last_rows(&k.words, 8, kept, 16);
        cut_k.scale_bytes = last_rows(&k.scale_bytes, 8, kept, scales);
        cut_v.words = last_rows(&v.words, 8, kept, 16);
        cut_v.scale_bytes = last_rows(&v.scale_bytes, 8, kept, scales);
        let through = windowed(&k, &v, 8, kept as u32);
        assert_eq!(through, windowed(&cut_k, &cut_v, kept as u32, 0));
        assert_ne!(through, windowed(&k, &v, 8, 0));
    }
    assert_eq!(windowed(&k, &v, 8, 8), windowed(&k, &v, 8, 0));
    assert_eq!(windowed(&k, &v, 8, 100), windowed(&k, &v, 8, 0));
}

// ── norm and product ─────────────────────────────────────────────────────────

fn rms_qgemv_oracle(
    wdq: &[f32],
    x: &[f32],
    nw: &[f32],
    out_dim: usize,
    in_dim: usize,
) -> Vec<f32> {
    let ssq: f32 = x.iter().map(|&v| v * v).sum();
    let inv_rms = 1.0 / (ssq / in_dim as f32 + EPS).sqrt();
    (0..out_dim)
        .map(|r| (0..in_dim).map(|c| wdq[r * in_dim + c] * (x[c] * nw[c] * inv_rms)).sum())
        .collect()
}

fn check_rms<T: Store>(form: QFormat, tol: f32) {
    let (out_dim, in_dim) = (4usize, 256usize);
    let c = coded(form, out_dim, in_dim);
    let x_f: Vec<f32> = (0..in_dim).map(|i| ((i % 11) as f32 - 5.0) * 0.05 + 0.1).collect();
    let nw_f: Vec<f32> = (0..in_dim).map(|i| 0.5 + (i % 7) as f32 * 0.1).collect();
    let (x, nw) = (stored::<T>(&x_f), stored::<T>(&nw_f));
    let expected = rms_qgemv_oracle(&c.values, &x, &nw, out_dim, in_dim);
    let (x, nw, eps) = (T::of(&x), T::of(&nw), [F32(EPS)]);
    let mut out = T::zeros(out_dim);
    let (d, b) = (in_dim as u32, c.block);
    match form {
        QFormat::Mxfp4 => mt_mxfp4_rms_norm_qgemv(
            &x, &nw, &c.words, &c.scale_bytes, &mut out, &eps, d, b, 64,
        ),
        QFormat::Nvfp4 => mt_nvfp4_rms_norm_qgemv(
            &x, &nw, &c.words, &c.scale_bytes, &mut out, &eps, d, b, &c.global, 64,
        ),
        QFormat::Mxfp8E4 => mt_mxfp8_e4m3_rms_norm_qgemv(
            &x, &nw, &c.bytes, &c.scale_bytes, &mut out, &eps, d, b, 64,
        ),
        QFormat::Mxfp8E5 => mt_mxfp8_e5m2_rms_norm_qgemv(
            &x, &nw, &c.bytes, &c.scale_bytes, &mut out, &eps, d, b, 64,
        ),
        _ => mt_nvfp8_rms_norm_qgemv(&x, &nw, &c.bytes, &c.scales, &mut out, &eps, d, b, 64),
    }
    assert_close(&T::floats(&out), &expected, tol);
}

#[test]
fn test_mxfp4_rms_norm_qgemv() {
    check_rms::<F32>(QFormat::Mxfp4, 1e-4);
    check_rms::<Half>(QFormat::Mxfp4, 2e-3);
    check_rms::<Brain>(QFormat::Mxfp4, 1e-2);
}

#[test]
fn test_nvfp4_rms_norm_qgemv() {
    check_rms::<F32>(QFormat::Nvfp4, 1e-4);
    check_rms::<Half>(QFormat::Nvfp4, 2e-3);
    check_rms::<Brain>(QFormat::Nvfp4, 1e-2);
}

#[test]
fn test_mxfp8_e4m3_rms_norm_qgemv() {
    check_rms::<F32>(QFormat::Mxfp8E4, 1e-4);
    check_rms::<Half>(QFormat::Mxfp8E4, 2e-3);
    check_rms::<Brain>(QFormat::Mxfp8E4, 1e-2);
}

#[test]
fn test_mxfp8_e5m2_rms_norm_qgemv() {
    check_rms::<F32>(QFormat::Mxfp8E5, 1e-4);
    check_rms::<Half>(QFormat::Mxfp8E5, 2e-3);
    check_rms::<Brain>(QFormat::Mxfp8E5, 1e-2);
}

#[test]
fn test_nvfp8_rms_norm_qgemv() {
    check_rms::<F32>(QFormat::Nvfp8, 1e-4);
    check_rms::<Half>(QFormat::Nvfp8, 2e-3);
    check_rms::<Brain>(QFormat::Nvfp8, 1e-2);
}

fn spread(n: usize, seed: u64, scale: f32, off: f32) -> Vec<f32> {
    let mut s = seed;
    (0..n)
        .map(|_| {
            s ^= s << 13;
            s ^= s >> 7;
            s ^= s << 17;
            ((s % 20_000) as f32 / 20_000.0 - 0.5) * scale + off
        })
        .collect()
}

fn stage_inner(y: &[f32], z: &[f32], nw: &[f32], hv: usize, dv: usize) -> Vec<f32> {
    let mut inner = vec![0.0f32; hv * dv];
    for r in 0..hv {
        let base = r * dv;
        let ssq: f32 = y[base..base + dv].iter().map(|v| v * v).sum();
        let inv_rms = 1.0 / (ssq / dv as f32 + EPS).sqrt();
        for d in 0..dv {
            let g = z[base + d] / (1.0 + (-z[base + d]).exp());
            inner[base + d] = y[base + d] * inv_rms * nw[d] * g;
        }
    }
    inner
}

fn check_gated<T: Store>(form: QFormat, tol: f32) {
    let (hv, dv, out_dim) = (4usize, 128usize, 4usize);
    let in_dim = hv * dv;
    let c = coded(form, out_dim, in_dim);
    let y = spread(in_dim, 0xA1, 2.0, 0.1);
    let z = stored::<T>(&spread(in_dim, 0xD4, 1.5, 0.0));
    let nw = stored::<T>(&spread(dv, 0xB2, 0.4, 1.0));
    let inner = stage_inner(&y, &z, &nw, hv, dv);
    let expected: Vec<f32> = (0..out_dim)
        .map(|r| (0..in_dim).map(|k| c.values[r * in_dim + k] * inner[k]).sum())
        .collect();
    let (y, z, nw, eps) = (wrap(&y), T::of(&z), T::of(&nw), [F32(EPS)]);
    let mut out = T::zeros(out_dim);
    let (hv, dv, b) = (hv as u32, dv as u32, c.block);
    match form {
        QFormat::Mxfp4 => mt_mxfp4_gated_rms_norm_qgemv(
            &y, &z, &nw, &eps, &c.words, &c.scale_bytes, &mut out, hv, dv, b,
        ),
        QFormat::Nvfp4 => mt_nvfp4_gated_rms_norm_qgemv(
            &y, &z, &nw, &eps, &c.words, &c.scale_bytes, &mut out, hv, dv, b, &c.global,
        ),
        QFormat::Fp4 => mt_fp4_gated_rms_norm_qgemv(
            &y, &z, &nw, &eps, &c.words, &c.scales, &mut out, hv, dv, b,
        ),
        QFormat::Mxfp8E4 => mt_mxfp8_e4m3_gated_rms_norm_qgemv(
            &y, &z, &nw, &eps, &c.bytes, &c.scale_bytes, &mut out, hv, dv, b,
        ),
        QFormat::Mxfp8E5 => mt_mxfp8_e5m2_gated_rms_norm_qgemv(
            &y, &z, &nw, &eps, &c.bytes, &c.scale_bytes, &mut out, hv, dv, b,
        ),
        QFormat::Fp8E5m2 => mt_fp8_e5m2_gated_rms_norm_qgemv(
            &y, &z, &nw, &eps, &c.bytes, &c.scales, &mut out, hv, dv, b,
        ),
        QFormat::Int8 => mt_int8_gated_rms_norm_qgemv(
            &y, &z, &nw, &eps, &c.bytes, &c.scales, &mut out, hv, dv, b,
        ),
        QFormat::Nvfp8 | QFormat::Fp8E4m3 => mt_nvfp8_gated_rms_norm_qgemv(
            &y, &z, &nw, &eps, &c.bytes, &c.scales, &mut out, hv, dv, b,
        ),
    }
    assert_close(&T::floats(&out), &expected, tol);
}

#[test]
fn test_mxfp4_gated_rms_norm_qgemv() {
    check_gated::<F32>(QFormat::Mxfp4, 1e-3);
    check_gated::<Half>(QFormat::Mxfp4, 2e-3);
    check_gated::<Brain>(QFormat::Mxfp4, 1e-2);
}

#[test]
fn test_nvfp4_gated_rms_norm_qgemv() {
    check_gated::<F32>(QFormat::Nvfp4, 1e-3);
    check_gated::<Half>(QFormat::Nvfp4, 2e-3);
    check_gated::<Brain>(QFormat::Nvfp4, 1e-2);
}

#[test]
fn test_mxfp8_e4m3_gated_rms_norm_qgemv() {
    check_gated::<F32>(QFormat::Mxfp8E4, 1e-3);
    check_gated::<Half>(QFormat::Mxfp8E4, 2e-3);
    check_gated::<Brain>(QFormat::Mxfp8E4, 1e-2);
}

#[test]
fn test_mxfp8_e5m2_gated_rms_norm_qgemv() {
    check_gated::<F32>(QFormat::Mxfp8E5, 1e-3);
    check_gated::<Half>(QFormat::Mxfp8E5, 2e-3);
    check_gated::<Brain>(QFormat::Mxfp8E5, 1e-2);
}

#[test]
fn test_nvfp8_gated_rms_norm_qgemv() {
    check_gated::<F32>(QFormat::Nvfp8, 1e-3);
    check_gated::<Half>(QFormat::Nvfp8, 2e-3);
    check_gated::<Brain>(QFormat::Nvfp8, 1e-2);
}

#[test]
fn test_fp4_gated_rms_norm_qgemv() {
    check_gated::<F32>(QFormat::Fp4, 1e-3);
    check_gated::<Half>(QFormat::Fp4, 2e-3);
    check_gated::<Brain>(QFormat::Fp4, 1e-2);
}

#[test]
fn test_fp8_e4m3_gated_rms_norm_qgemv() {
    check_gated::<F32>(QFormat::Fp8E4m3, 1e-3);
    check_gated::<Half>(QFormat::Fp8E4m3, 2e-3);
    check_gated::<Brain>(QFormat::Fp8E4m3, 1e-2);
}

#[test]
fn test_fp8_e5m2_gated_rms_norm_qgemv() {
    check_gated::<F32>(QFormat::Fp8E5m2, 1e-3);
    check_gated::<Half>(QFormat::Fp8E5m2, 2e-3);
    check_gated::<Brain>(QFormat::Fp8E5m2, 1e-2);
}

#[test]
fn test_int8_gated_rms_norm_qgemv() {
    check_gated::<F32>(QFormat::Int8, 1e-3);
    check_gated::<Half>(QFormat::Int8, 2e-3);
    check_gated::<Brain>(QFormat::Int8, 1e-2);
}

/// Without an `eps` the length of a row does not show.
#[test]
fn gated_row_scale_cancels() {
    let c = coded(QFormat::Nvfp8, 4, 512);
    let y = spread(512, 0xA1, 2.0, 0.1);
    let z = wrap(&spread(512, 0xD4, 1.5, 0.0));
    let nw = wrap(&spread(128, 0xB2, 0.4, 1.0));
    let run = |y: &[f32], eps: f32| {
        let mut out = wrap(&[0.0; 4]);
        mt_nvfp8_gated_rms_norm_qgemv(
            &wrap(y), &z, &nw, &[F32(eps)], &c.bytes, &c.scales, &mut out, 4, 128, c.block,
        );
        unwrap(&out)
    };
    for (scale, tol) in [(4.0f32, 0.0f32), (0.3, 1e-4)] {
        let scaled: Vec<f32> =
            (0..512).map(|i| if i / 128 == 2 { y[i] * scale } else { y[i] }).collect();
        assert!(max_abs_diff(&run(&scaled, 0.0), &run(&y, 0.0)) <= tol);
        assert!(max_abs_diff(&run(&scaled, 0.5), &run(&y, 0.5)) > 1e-3);
    }
}

// ── affine weights ───────────────────────────────────────────────────────────

/// Rows of codes of `bits` bits, with a scale and a bias per group.
struct Affine {
    words: Vec<u32>,
    scales: Vec<f32>,
    biases: Vec<f32>,
    values: Vec<f32>,
}

fn affine<T: Store>(rows: usize, cols: usize, group: usize, bits: u32) -> Affine {
    let codes: Vec<u32> =
        (0..rows * cols).map(|i| ((i as u32).wrapping_mul(2_654_435_761) >> 16) % (1 << bits)).collect();
    let groups = rows * cols / group;
    let scales =
        stored::<T>(&(0..groups).map(|i| 0.02 + 0.003 * (i as f32).sin()).collect::<Vec<f32>>());
    let biases =
        stored::<T>(&(0..groups).map(|i| -0.1 + 0.02 * (i as f32).cos()).collect::<Vec<f32>>());
    let values = (0..rows * cols)
        .map(|i| codes[i] as f32 * scales[i / group] + biases[i / group])
        .collect();
    let words = if bits == 4 { pack_int4_row(&codes) } else { pack_int8_row(&codes) };
    Affine { words, scales, biases, values }
}

fn check_affine<T: Store>(bits: u32, fast: bool, tol: f32) {
    let (out_dim, in_dim, group) = (16usize, 1024usize, 64usize);
    let a = affine::<T>(out_dim, in_dim, group, bits);
    let x = stored::<T>(&(0..in_dim).map(|i| (i as f32 * 0.37).sin()).collect::<Vec<f32>>());
    let nw = stored::<T>(
        &(0..in_dim).map(|i| 0.8 + 0.05 * (i as f32 * 0.11).cos()).collect::<Vec<f32>>(),
    );
    let expected = rms_qgemv_oracle(&a.values, &x, &nw, out_dim, in_dim);
    let (x, nw, eps) = (T::of(&x), T::of(&nw), [F32(EPS)]);
    let (s, b, d, g) = (T::of(&a.scales), T::of(&a.biases), in_dim as u32, group as u32);
    let mut out = T::zeros(out_dim);
    match (bits, fast) {
        (4, false) => ffai_rms_norm_qgemv(&x, &nw, &a.words, &s, &b, &mut out, &eps, d, g, 128),
        (4, true) => ffai_rms_norm_qgemv_fast(&x, &nw, &a.words, &s, &b, &mut out, &eps, d, g),
        _ => ffai_rms_norm_qgemv_int8_fast(&x, &nw, &a.words, &s, &b, &mut out, &eps, d, g),
    }
    assert_close(&T::floats(&out), &expected, tol);
}

#[test]
fn rms_norm_qgemv_of_each_storage_type() {
    check_affine::<F32>(4, false, 1e-4);
    check_affine::<Half>(4, false, 2e-3);
    check_affine::<Brain>(4, false, 1e-2);
}

#[test]
fn rms_norm_qgemv_fast_of_each_storage_type() {
    check_affine::<F32>(4, true, 2e-4);
    check_affine::<Half>(4, true, 2e-3);
    check_affine::<Brain>(4, true, 1e-2);
}

#[test]
fn rms_norm_qgemv_int8_fast_of_each_storage_type() {
    check_affine::<F32>(8, true, 2e-4);
    check_affine::<Half>(8, true, 2e-3);
    check_affine::<Brain>(8, true, 1e-2);
}

#[test]
fn fast_and_plain_agree() {
    let a = affine::<F32>(8, 512, 64, 4);
    let x = wrap(&(0..512).map(|i| (i as f32 * 0.21).cos()).collect::<Vec<f32>>());
    let nw = wrap(&vec![1.0; 512]);
    let (s, b, eps) = (wrap(&a.scales), wrap(&a.biases), [F32(EPS)]);
    let (mut plain, mut fast) = (wrap(&[0.0; 8]), wrap(&[0.0; 8]));
    ffai_rms_norm_qgemv(&x, &nw, &a.words, &s, &b, &mut plain, &eps, 512, 64, 64);
    ffai_rms_norm_qgemv_fast(&x, &nw, &a.words, &s, &b, &mut fast, &eps, 512, 64);
    assert_close(&unwrap(&fast), &unwrap(&plain), 1e-4);
}

// ── patches ──────────────────────────────────────────────────────────────────

fn cycle(n: usize, period: usize, amp: f32) -> Vec<f32> {
    (0..n).map(|i| ((i % period) as f32 / period as f32 - 0.5) * amp).collect()
}

fn check_patch<T: Store>(form: QFormat, tol: f32) {
    let (in_ch, in_h, in_w, patch_h, patch_w, hidden) = (4usize, 16usize, 16usize, 8usize, 8usize, 64usize);
    let patches = (in_h / patch_h) * (in_w / patch_w);
    let patch_dim = in_ch * patch_h * patch_w;
    let n_out = patches * hidden;
    let image = stored::<T>(&cycle(in_ch * in_h * in_w, 13, 6.0));
    let bias = stored::<T>(&cycle(hidden, 5, 2.0));
    let c = coded(form, hidden, patch_dim);
    let patches_w = in_w / patch_w;
    let input_plane = in_h * in_w;
    let mut expected = vec![0.0f32; n_out];
    for patch in 0..patches {
        let py0 = (patch / patches_w) * patch_h;
        let px0 = (patch % patches_w) * patch_w;
        for hh in 0..hidden {
            let mut acc = bias[hh];
            for ic in 0..in_ch {
                for py in 0..patch_h {
                    for px in 0..patch_w {
                        let col = ic * patch_h * patch_w + py * patch_w + px;
                        let pix = image[ic * input_plane + (py0 + py) * in_w + (px0 + px)];
                        acc += pix * c.values[hh * patch_dim + col];
                    }
                }
            }
            expected[patch * hidden + hh] = acc;
        }
    }
    let (image, bias) = (T::of(&image), T::of(&bias));
    let mut out = T::zeros(n_out);
    let b = c.block;
    match form {
        QFormat::Mxfp4 => mt_mxfp4_patch_embed(
            &image, &c.words, &c.scale_bytes, &bias, &mut out, 4, 16, 16, 8, 8, 64, b,
        ),
        QFormat::Nvfp4 => mt_nvfp4_patch_embed(
            &image, &c.words, &c.scale_bytes, &bias, &mut out, 4, 16, 16, 8, 8, 64, b, &c.global,
        ),
        QFormat::Fp4 => mt_fp4_patch_embed(
            &image, &c.words, &c.scales, &bias, &mut out, 4, 16, 16, 8, 8, 64, b,
        ),
        QFormat::Mxfp8E4 => mt_mxfp8_e4m3_patch_embed(
            &image, &c.bytes, &c.scale_bytes, &bias, &mut out, 4, 16, 16, 8, 8, 64, b,
        ),
        QFormat::Mxfp8E5 => mt_mxfp8_e5m2_patch_embed(
            &image, &c.bytes, &c.scale_bytes, &bias, &mut out, 4, 16, 16, 8, 8, 64, b,
        ),
        QFormat::Fp8E5m2 => mt_fp8_e5m2_patch_embed(
            &image, &c.bytes, &c.scales, &bias, &mut out, 4, 16, 16, 8, 8, 64, b,
        ),
        QFormat::Int8 => mt_int8_patch_embed(
            &image, &c.bytes, &c.scales, &bias, &mut out, 4, 16, 16, 8, 8, 64, b,
        ),
        QFormat::Nvfp8 | QFormat::Fp8E4m3 => mt_nvfp8_patch_embed(
            &image, &c.bytes, &c.scales, &bias, &mut out, 4, 16, 16, 8, 8, 64, b,
        ),
    }
    assert_close(&T::floats(&out), &expected, tol);
}

#[test]
fn test_mxfp4_patch_embed() {
    check_patch::<F32>(QFormat::Mxfp4, 1e-3);
    check_patch::<Half>(QFormat::Mxfp4, 2e-3);
    check_patch::<Brain>(QFormat::Mxfp4, 1e-2);
}

#[test]
fn test_nvfp4_patch_embed() {
    check_patch::<F32>(QFormat::Nvfp4, 1e-3);
    check_patch::<Half>(QFormat::Nvfp4, 2e-3);
    check_patch::<Brain>(QFormat::Nvfp4, 1e-2);
}

#[test]
fn test_mxfp8_e4m3_patch_embed() {
    check_patch::<F32>(QFormat::Mxfp8E4, 1e-3);
    check_patch::<Half>(QFormat::Mxfp8E4, 2e-3);
    check_patch::<Brain>(QFormat::Mxfp8E4, 1e-2);
}

#[test]
fn test_mxfp8_e5m2_patch_embed() {
    check_patch::<F32>(QFormat::Mxfp8E5, 1e-3);
    check_patch::<Half>(QFormat::Mxfp8E5, 2e-3);
    check_patch::<Brain>(QFormat::Mxfp8E5, 1e-2);
}

#[test]
fn test_nvfp8_patch_embed() {
    check_patch::<F32>(QFormat::Nvfp8, 1e-3);
    check_patch::<Half>(QFormat::Nvfp8, 2e-3);
    check_patch::<Brain>(QFormat::Nvfp8, 1e-2);
}

#[test]
fn test_fp4_patch_embed() {
    check_patch::<F32>(QFormat::Fp4, 1e-3);
    check_patch::<Half>(QFormat::Fp4, 2e-3);
    check_patch::<Brain>(QFormat::Fp4, 1e-2);
}

#[test]
fn test_fp8_e4m3_patch_embed() {
    check_patch::<F32>(QFormat::Fp8E4m3, 1e-3);
    check_patch::<Half>(QFormat::Fp8E4m3, 2e-3);
    check_patch::<Brain>(QFormat::Fp8E4m3, 1e-2);
}

#[test]
fn test_fp8_e5m2_patch_embed() {
    check_patch::<F32>(QFormat::Fp8E5m2, 1e-3);
    check_patch::<Half>(QFormat::Fp8E5m2, 2e-3);
    check_patch::<Brain>(QFormat::Fp8E5m2, 1e-2);
}

#[test]
fn test_int8_patch_embed() {
    check_patch::<F32>(QFormat::Int8, 1e-3);
    check_patch::<Half>(QFormat::Int8, 2e-3);
    check_patch::<Brain>(QFormat::Int8, 1e-2);
}
