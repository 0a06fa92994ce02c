use metaltile_std::bench_plan::QFormat;
use metaltile_std::dtype::Dt;
use metaltile_std::moe::NO_EXPERT;
use metaltile_std::moe_mpp::mt_moe_gather_qmm_mma_int4_bm16_mpp;
use metaltile_std::moe_mpp_bm64::mt_moe_gather_qmm_mma_int4_bm64_mpp;
use metaltile_std::moe_mpp_bm8_block_scaled::{
    mt_fp4_moe_gather_qmm_bm8_mpp, mt_fp8_e5m2_moe_gather_qmm_bm8_mpp,
    mt_int8_moe_gather_qmm_bm8_mpp, mt_mxfp4_moe_gather_qmm_bm8_mpp,
    mt_mxfp8_e4m3_moe_gather_qmm_bm8_mpp, mt_mxfp8_e5m2_moe_gather_qmm_bm8_mpp,
    mt_nvfp4_moe_gather_qmm_bm8_mpp, mt_nvfp8_moe_gather_qmm_bm8_mpp,
};
use metaltile_std::moe_mpp_bm8_int8::mt_moe_gather_qmm_mma_int8_bm8_mpp;
use metaltile_std::quant::{pack_int4_row, pack_int8_row};
use metaltile_std::scalar::{Element, Fun, Op, Rel, Scalar};

// ── the arithmetic of machine floats ─────────────────────────────────────────

#[derive(Clone, Copy, Debug, PartialEq)]
struct F32(f32);

impl Scalar for F32 {
    type Cond = bool;
    type Index = u32;

    fn dup(&self) -> F32 {
        *self
    }
    fn ratio(num: i64, den: u64) -> F32 {
        F32((num as f64 / den as f64) as f32)
    }
    fn from_u32(n: u32) -> F32 {
        F32(n as f32)
    }
    fn neg_infinity() -> F32 {
        F32(f32::NEG_INFINITY)
    }
    fn nan() -> F32 {
        F32(f32::NAN)
    }
    fn apply(f: Fun, a: &F32) -> F32 {
        let x = a.0;
        F32(match f {
            Fun::Neg => -x,
            Fun::Exp => x.exp(),
            Fun::Exp2 => x.exp2(),
            Fun::Log => x.ln(),
            Fun::Log2 => x.log2(),
            Fun::Sqrt => x.sqrt(),
            Fun::Rsqrt => 1.0 / x.sqrt(),
            Fun::Sin => x.sin(),
            Fun::Cos => x.cos(),
            Fun::Floor => x.floor(),
            Fun::Silu => x / (1.0 + (-x).exp()),
            Fun::Gelu => 0.5 * x * (1.0 + (0.797_884_6 * (x + 0.044715 * x * x * x)).tanh()),
            Fun::Sigmoid => 1.0 / (1.0 + (-x).exp()),
        })
    }
    fn combine(op: Op, a: &F32, b: &F32) -> F32 {
        let (x, y) = (a.0, b.0);
        F32(match op {
            Op::Add => x + y,
            Op::Sub => x - y,
            Op::Mul => x * y,
            Op::Div => x / y,
            Op::Max => x.max(y),
            Op::Min => x.min(y),
        })
    }
    fn relate(rel: Rel, a: &F32, b: &F32) -> bool {
        match rel {
            Rel::Less => a.0 < b.0,
            Rel::AtLeast => a.0 >= b.0,
        }
    }
    fn always() -> bool {
        true
    }
    fn both(c: &bool, d: &bool) -> bool {
        *c && *d
    }
    fn not(c: &bool) -> bool {
        !*c
    }
    fn select(c: &bool, a: &F32, b: &F32) -> F32 {
        if *c { *a } else { *b }
    }
    fn index(i: u32) -> u32 {
        i
    }
    fn select_index(c: &bool, i: &u32, j: &u32) -> u32 {
        if *c { *i } else { *j }
    }
    fn index_value(i: &u32) -> F32 {
        F32(*i as f32)
    }
    fn trunc(a: &F32) -> u32 {
        a.0 as u32
    }
    fn resolve(i: &u32) -> Option<u32> {
        Some(*i)
    }

    // What contracts speak of: never run.
    fn rational(_: i64, _: u64) -> F32 {
        unreachable!()
    }
    fn natural(_: u32) -> F32 {
        unreachable!()
    }
    fn lowest() -> F32 {
        unreachable!()
    }
    fn undefined() -> F32 {
        unreachable!()
    }
    fn applied(_: Fun, _: F32) -> F32 {
        unreachable!()
    }
    fn combined(_: Op, _: F32, _: F32) -> F32 {
        unreachable!()
    }
    fn related(_: Rel, _: F32, _: F32) -> bool {
        unreachable!()
    }
    fn certain() -> bool {
        unreachable!()
    }
    fn conjoined(_: bool, _: bool) -> bool {
        unreachable!()
    }
    fn negated(_: bool) -> bool {
        unreachable!()
    }
    fn chosen(_: bool, _: F32, _: F32) -> F32 {
        unreachable!()
    }
    fn position(_: u32) -> u32 {
        unreachable!()
    }
    fn chosen_index(_: bool, _: u32, _: u32) -> u32 {
        unreachable!()
    }
    fn of_index(_: u32) -> F32 {
        unreachable!()
    }
    fn to_index(_: F32) -> u32 {
        unreachable!()
    }
    fn resolved(_: u32) -> Option<u32> {
        unreachable!()
    }
}

fn wrap(v: &[f32]) -> Vec<F32> {
    v.iter().map(|x| F32(*x)).collect()
}

fn unwrap(v: &[F32]) -> Vec<f32> {
    v.iter().map(|x| x.0).collect()
}

fn max_abs_diff(a: &[f32], b: &[f32]) -> f32 {
    assert_eq!(a.len(), b.len());
    a.iter().zip(b).map(|(x, y)| (x - y).abs()).fold(0.0_f32, f32::max)
}

fn round_f16(v: f32) -> f32 {
    half::f16::from_f32(v).to_f32()
}

fn round_bf16(v: f32) -> f32 {
    half::bf16::from_f32(v).to_f32()
}

/// A float in a half-precision buffer.
#[derive(Clone, Copy, Debug, PartialEq)]
struct Half(f32);

impl Element<F32> for Half {
    fn widen(&self) -> F32 {
        F32(self.0)
    }
    fn narrow(a: &F32) -> Half {
        Half(round_f16(a.0))
    }
    fn stage(a: &F32) -> F32 {
        F32(round_f16(a.0))
    }
    fn copied(&self) -> Half {
        *self
    }

    // What contracts speak of: never run.
    fn widened(self) -> F32 {
        unreachable!()
    }
    fn narrowed(_: F32) -> Half {
        unreachable!()
    }
    fn staged(_: F32) -> F32 {
        unreachable!()
    }
}

/// A float in a bfloat buffer; a matrix tile stages it in half precision.
#[derive(Clone, Copy, Debug, PartialEq)]
struct Brain(f32);

impl Element<F32> for Brain {
    fn widen(&self) -> F32 {
        F32(self.0)
    }
    fn narrow(a: &F32) -> Brain {
        Brain(round_bf16(a.0))
    }
    fn stage(a: &F32) -> F32 {
        F32(round_f16(a.0))
    }
    fn copied(&self) -> Brain {
        *self
    }

    // What contracts speak of: never run.
    fn widened(self) -> F32 {
        unreachable!()
    }
    fn narrowed(_: F32) -> Brain {
        unreachable!()
    }
    fn staged(_: F32) -> F32 {
        unreachable!()
    }
}

/// The storage types of a launch.
trait Store: Element<F32> {
    fn of(v: &[f32]) -> Vec<Self> {
        v.iter().map(|x| Self::narrow(&F32(*x))).collect()
    }
    fn floats(v: &[Self]) -> Vec<f32> {
        v.iter().map(|x| x.widen().0).collect()
    }
    fn zeros(n: usize) -> Vec<Self> {
        (0..n).map(|_| Self::narrow(&F32(0.0))).collect()
    }
}

impl Store for F32 {}
impl Store for Half {}
impl Store for Brain {}

// ── quantized weights ────────────────────────────────────────────────────────

fn small_float(bits: u32, man_bits: u32, exp_bits: u32, bias: i32) -> f32 {
    let man = bits & ((1 << man_bits) - 1);
    let exp = (bits >> man_bits) & ((1 << exp_bits) - 1);
    let unit = (0.5_f32).powi(man_bits as i32);
    let magnitude = if exp == 0 {
        man as f32 * unit * (2.0_f32).powi(1 - bias)
    } else {
        (1.0 + man as f32 * unit) * (2.0_f32).powi(exp as i32 - bias)
    };
    if bits >> (man_bits + exp_bits) & 1 == 1 { -magnitude } else { magnitude }
}

/// Rows of weights in some format, and what they stand for.
struct Coded {
    words: Vec<u32>,
    bytes: Vec<u8>,
    scale_bytes: Vec<u8>,
    scales: Vec<F32>,
    global: F32,
    values: Vec<f32>,
    block: u32,
}

/// `rows` rows of `cols` codes that differ from one another, and scales near one.
fn coded(form: QFormat, rows: usize, cols: usize) -> Coded {
    let block = form.block_size() as usize;
    let per_row = cols / block;
    let codes: Vec<u32> = (0..rows * cols)
        .map(|i| {
            let spread = (i as u32).wrapping_mul(2_654_435_761) >> 20;
            match form {
                QFormat::Mxfp4 | QFormat::Nvfp4 | QFormat::Fp4 => spread % 16,
                QFormat::Int8 => spread % 256,
                // Exponents about the middle.
                QFormat::Mxfp8E5 | QFormat::Fp8E5m2 => (spread & 0x83) | ((13 + spread / 8 % 4) << 2),
                _ => (spread & 0x87) | ((5 + spread / 16 % 4) << 3),
            }
        })
        .collect();
    let scale_bytes: Vec<u8> = (0..rows * per_row)
        .map(|i| match form {
            QFormat::Nvfp4 => (0x30 + i % 12) as u8,
            _ => (125 + i % 4) as u8,
        })
        .collect();
    let scales: Vec<F32> =
        (0..rows * per_row).map(|i| F32(0.5 + (i % 7) as f32 * 0.125)).collect();
    let global = F32(0.75);
    let values = (0..rows * cols)
        .map(|i| {
            let c = codes[i];
            let element = match form {
                QFormat::Mxfp4 | QFormat::Nvfp4 | QFormat::Fp4 => small_float(c, 1, 2, 1),
                QFormat::Mxfp8E4 | QFormat::Nvfp8 | QFormat::Fp8E4m3 => small_float(c, 3, 4, 7),
                QFormat::Mxfp8E5 | QFormat::Fp8E5m2 => small_float(c, 2, 5, 15),
                QFormat::Int8 => c as u8 as i8 as f32,
            };
            let s = i / cols * per_row + i % cols / block;
            let scale = match form {
                QFormat::Mxfp4 | QFormat::Mxfp8E4 | QFormat::Mxfp8E5 => {
                    (2.0_f32).powi(scale_bytes[s] as i32 - 127)
                }
                QFormat::Nvfp4 => small_float(scale_bytes[s] as u32, 3, 4, 7) * global.0,
                _ => scales[s].0,
            };
            element * scale
        })
        .collect();
    let words = codes
        .chunks_exact(8)
        .map(|c| c.iter().enumerate().fold(0, |w, (i, q)| w | (q & 15) << (4 * i)))
        .collect();
    let bytes = codes.iter().map(|c| *c as u8).collect();
    Coded { words, bytes, scale_bytes, scales, global, values, block: block as u32 }
}

// ── oracle ───────────────────────────────────────────────────────────────────

#[derive(Clone, Copy)]
struct Shape {
    n_experts: usize,
    t_rows: usize,
    n_out: usize,
    k_in: usize,
    group_size: usize,
}

/// The product of each row with the weights of its expert, one row at a time:
/// rows `expert_offsets[e]` to `expert_offsets[e + 1]` belong to expert `e`.
fn run_m1<W: Fn(usize, usize) -> f32>(
    weight: W,
    scales: &[f32],
    biases: &[f32],
    x: &[f32],
    expert_offsets: &[u32],
    s: Shape,
) -> Vec<f32> {
    let groups = s.k_in / s.group_size;
    let mut out = vec![0.0_f32; s.t_rows * s.n_out];
    for e in 0..s.n_experts {
        for t in expert_offsets[e] as usize..expert_offsets[e + 1] as usize {
            for n in 0..s.n_out {
                let row = e * s.n_out + n;
                out[t * s.n_out + n] = (0..s.k_in)
                    .map(|k| {
                        let g = row * groups + k / s.group_size;
                        x[t * s.k_in + k] * (weight(row, k) * scales[g] + biases[g])
                    })
                    .sum();
            }
        }
    }
    out
}

fn offsets(indices: &[u32], n_experts: usize) -> Vec<u32> {
    let t_rows = indices.len();
    let mut expert_offsets: Vec<u32> = vec![0; n_experts + 1];
    for (e_idx, off) in expert_offsets.iter_mut().enumerate().take(n_experts + 1) {
        *off = indices
            .iter()
            .position(|&e| e as usize >= e_idx)
            .map(|p| p as u32)
            .unwrap_or(t_rows as u32);
    }
    expert_offsets[n_experts] = t_rows as u32;
    expert_offsets
}

fn cosine_f64(a: &[f32], b: &[f32]) -> (f64, usize) {
    let mut dot = 0.0_f64;
    let mut na = 0.0_f64;
    let mut nb = 0.0_f64;
    let mut nan_count = 0usize;
    for (x, y) in a.iter().zip(b) {
        if !x.is_finite() || !y.is_finite() {
            nan_count += 1;
            continue;
        }
        dot += (*x as f64) * (*y as f64);
        na += (*x as f64) * (*x as f64);
        nb += (*y as f64) * (*y as f64);
    }
    (dot / (na.sqrt() * nb.sqrt() + 1e-12), nan_count)
}

// ── four-bit weights ─────────────────────────────────────────────────────────

/// Inputs of a product with 4-bit weights.
struct Int4 {
    weight_unpacked: Vec<u32>,
    weight_packed: Vec<u32>,
    scales: Vec<f32>,
    biases: Vec<f32>,
    x: Vec<f32>,
    indices: Vec<u32>,
    s: Shape,
}

fn clean_tile() -> Int4 {
    let n_experts = 4usize;
    let k_in = 64usize;
    let n_out = 64usize;
    let group_size = 32usize;
    let t_rows = 64usize;
    let indices: Vec<u32> = (0..t_rows).map(|r| (r / (t_rows / n_experts)) as u32).collect();
    let total_weights = n_experts * n_out * k_in;
    let weight_unpacked: Vec<u32> =
        (0..total_weights).map(|i| ((i as u32) * 7 + 3) & 0xf).collect();
    let weight_packed: Vec<u32> =
        weight_unpacked.chunks_exact(k_in).flat_map(pack_int4_row).collect();
    let groups_total = n_experts * n_out * (k_in / group_size);
    let scales: Vec<f32> =
        (0..groups_total).map(|i| 0.005 + 0.001 * (i as f32 * 0.03).sin()).collect();
    let biases: Vec<f32> =
        (0..groups_total).map(|i| -0.02 + 0.005 * (i as f32 * 0.07).cos()).collect();
    let x: Vec<f32> = (0..t_rows * k_in).map(|i| 0.05 * (i as f32 * 0.013).sin()).collect();
    let s = Shape { n_experts, t_rows, n_out, k_in, group_size };
    Int4 { weight_unpacked, weight_packed, scales, biases, x, indices, s }
}

fn multi_tile() -> Int4 {
    let n_experts = 8usize;
    let k_in = 128usize;
    let n_out = 128usize;
    let group_size = 64usize;
    let t_rows = 128usize;
    let indices: Vec<u32> = (0..t_rows).map(|r| (r / (t_rows / n_experts)) as u32).collect();
    let total_weights = n_experts * n_out * k_in;
    let weight_unpacked: Vec<u32> =
        (0..total_weights).map(|i| ((i as u32) * 11 + 5) & 0xf).collect();
    let weight_packed: Vec<u32> =
        weight_unpacked.chunks_exact(k_in).flat_map(pack_int4_row).collect();
    let groups_total = n_experts * n_out * (k_in / group_size);
    let scales: Vec<f32> =
        (0..groups_total).map(|i| 0.005 + 0.001 * (i as f32 * 0.07).sin()).collect();
    let biases: Vec<f32> =
        (0..groups_total).map(|i| -0.02 + 0.005 * (i as f32 * 0.11).cos()).collect();
    let x: Vec<f32> = (0..t_rows * k_in).map(|i| 0.05 * (i as f32 * 0.017).sin()).collect();
    let s = Shape { n_experts, t_rows, n_out, k_in, group_size };
    Int4 { weight_unpacked, weight_packed, scales, biases, x, indices, s }
}

impl Int4 {
    fn m1(&self) -> Vec<f32> {
        let k_in = self.s.k_in;
        run_m1(
            |row, k| self.weight_unpacked[row * k_in + k] as f32,
            &self.scales,
            &self.biases,
            &self.x,
            &offsets(&self.indices, self.s.n_experts),
            self.s,
        )
    }

    fn bm16<T: Store>(&self) -> Vec<f32> {
        let mut out = T::zeros(self.s.t_rows * self.s.n_out);
        mt_moe_gather_qmm_mma_int4_bm16_mpp::<F32, T>(
            &T::of(&self.x),
            &self.weight_packed,
            &T::of(&self.scales),
            &T::of(&self.biases),
            &self.indices,
            &mut out,
            self.s.t_rows as u32,
            self.s.n_out as u32,
            self.s.k_in as u32,
            self.s.group_size as u32,
            self.s.n_experts as u32,
        );
        T::floats(&out)
    }

    fn bm64<T: Store>(&self) -> Vec<f32> {
        let mut out = T::zeros(self.s.t_rows * self.s.n_out);
        mt_moe_gather_qmm_mma_int4_bm64_mpp::<F32, T>(
            &T::of(&self.x),
            &self.weight_packed,
            &T::of(&self.scales),
            &T::of(&self.biases),
            &self.indices,
            &mut out,
            self.s.t_rows as u32,
            self.s.n_out as u32,
            self.s.k_in as u32,
            self.s.group_size as u32,
            self.s.n_experts as u32,
        );
        T::floats(&out)
    }
}

#[test]
fn moe_gather_qmm_mma_int4_bm16_mpp_matches_m1_clean_tile() {
    let case = clean_tile();
    let (cos, nan_count) = cosine_f64(&case.m1(), &case.bm16::<F32>());
    assert_eq!(nan_count, 0, "MPP kernel produced non-finite values");
    assert!(cos >= 0.999, "MPP MoE vs m1 cosine = {cos:.6} (want ≥ 0.999)");
}

#[test]
fn moe_gather_qmm_mma_int4_bm16_mpp_bf16_matches_m1_clean_tile() {
    let case = clean_tile();
    let (cos, nan_count) = cosine_f64(&case.m1(), &case.bm16::<Brain>());
    assert_eq!(nan_count, 0, "MPP bf16 kernel produced non-finite values");
    assert!(cos >= 0.997, "MPP MoE bf16 vs m1 cosine = {cos:.6} (want ≥ 0.997)");
}

#[test]
fn moe_gather_qmm_mma_int4_bm64_mpp_matches_m1_clean_tile() {
    let case = clean_tile();
    let (cos, nan_count) = cosine_f64(&case.m1(), &case.bm64::<F32>());
    assert_eq!(nan_count, 0, "MPP BM=64 kernel produced non-finite values");
    assert!(cos >= 0.999, "MPP MoE BM=64 vs m1 cosine = {cos:.6} (want ≥ 0.999)");
}

#[test]
fn moe_gather_qmm_mma_int4_bm64_mpp_matches_m1_multi_tile() {
    let case = multi_tile();
    let (cos, nan_count) = cosine_f64(&case.m1(), &case.bm64::<F32>());
    assert_eq!(nan_count, 0, "MPP BM=64 kernel produced non-finite values (multi-tile)");
    assert!(cos >= 0.999, "MPP MoE BM=64 vs m1 cosine = {cos:.6} (want ≥ 0.999) (multi-tile)");
}

#[test]
fn moe_gather_qmm_mma_int4_bm64_mpp_bf16_matches_m1_clean_tile() {
    let case = clean_tile();
    let (cos, nan_count) = cosine_f64(&case.m1(), &case.bm64::<Brain>());
    assert_eq!(nan_count, 0, "MPP BM=64 bf16 kernel produced non-finite values");
    assert!(cos >= 0.997, "MPP MoE BM=64 bf16 vs m1 cosine = {cos:.6} (want ≥ 0.997)");
}

/// Element by element, and not only in direction.
#[test]
fn four_bit_products_are_the_products() {
    let case = multi_tile();
    let expected = case.m1();
    assert!(max_abs_diff(&expected, &case.bm16::<F32>()) < 1e-5);
    assert!(max_abs_diff(&expected, &case.bm64::<F32>()) < 1e-5);
}

/// How rows fall into tiles does not show.
#[test]
fn tile_sizes_do_not_matter() {
    let case = clean_tile();
    assert_eq!(case.bm16::<F32>(), case.bm64::<F32>());
    assert_eq!(case.bm16::<Half>(), case.bm64::<Half>());
}

/// Each weight has the scale of its own block, wherever the block ends.
#[test]
fn weights_have_the_scale_of_their_block() {
    let ones = wrap(&vec![1.0; 8 * 48]);
    let scales = wrap(&[1.0, 100.0].repeat(32));
    let mut out = wrap(&vec![0.0; 8 * 32]);
    mt_int8_moe_gather_qmm_bm8_mpp::<F32, F32>(
        &ones, &[1; 32 * 48], &scales, &[0; 8], &mut out, 8, 32, 48, 24, 1,
    );
    assert_eq!(unwrap(&out), vec![24.0 + 2400.0; 8 * 32]);
    // The code 2 stands for one.
    let scales = wrap(&[1.0, 10.0, 100.0, 1000.0].repeat(32));
    let mut out = wrap(&vec![0.0; 8 * 32]);
    mt_fp4_moe_gather_qmm_bm8_mpp::<F32, F32>(
        &ones, &[0x2222_2222; 32 * 6], &scales, &[0; 8], &mut out, 8, 32, 48, 12, 1,
    );
    assert_eq!(unwrap(&out), vec![12.0 * 1111.0; 8 * 32]);
}

/// Each code has the scale and the bias of its own group, wherever the group ends.
#[test]
fn codes_have_the_scale_of_their_group() {
    let ones = wrap(&vec![1.0; 8 * 48]);
    let scales = wrap(&[1.0, 10.0, 100.0, 1000.0].repeat(32));
    let biases = wrap(&[0.5, 0.0, 0.0, 0.25].repeat(32));
    let expected = vec![12.0 * 1111.75; 8 * 32];
    let mut out = wrap(&vec![0.0; 8 * 32]);
    mt_moe_gather_qmm_mma_int4_bm16_mpp::<F32, F32>(
        &ones, &[0x1111_1111; 32 * 6], &scales, &biases, &[0; 8], &mut out, 8, 32, 48, 12, 1,
    );
    assert_eq!(unwrap(&out), expected);
    let scales = wrap(&[1.0, 10.0, 100.0, 1000.0, 0.0, 0.0, 0.0, 0.0].repeat(32));
    let biases = wrap(&[0.5, 0.0, 0.0, 0.25, 0.0, 0.0, 0.0, 0.0].repeat(32));
    let mut out = wrap(&vec![0.0; 8 * 32]);
    mt_moe_gather_qmm_mma_int8_bm8_mpp::<F32, F32>(
        &ones, &[0x0101_0101; 32 * 12], &scales, &biases, &[0; 8], &mut out, 8, 32, 48, 6, 1,
    );
    assert_eq!(unwrap(&out), vec![6.0 * 1111.75; 8 * 32]);
}

/// A sum over no columns is zero.
#[test]
fn no_columns_add_up_to_zero() {
    let indices = vec![0u32; 64];
    let mut out = wrap(&vec![7.0; 64 * 64]);
    mt_moe_gather_qmm_mma_int4_bm16_mpp::<F32, F32>(
        &[], &[], &[], &[], &indices, &mut out, 64, 64, 0, 32, 1,
    );
    assert_eq!(unwrap(&out), vec![0.0; 64 * 64]);
}

#[test]
fn rows_without_an_expert_stay_as_they_are() {
    let mut case = clean_tile();
    for r in 60..64 {
        case.indices[r] = NO_EXPERT;
    }
    let full = clean_tile().bm16::<F32>();
    for out in [case.bm16::<F32>(), case.bm64::<F32>()] {
        assert_eq!(out[..60 * 64], full[..60 * 64]);
        assert_eq!(out[60 * 64..], vec![0.0; 4 * 64]);
    }
}

/// An activation that half precision cannot hold is lost in the tile, so bfloat
/// inputs went through half.
fn tiny_activation_is_lost<F: Fn(&[Brain]) -> Vec<Brain>>(run: F) {
    assert_eq!(Dt::Bf16.coop_stage(), Dt::F16, "bf16 activation must stage as half");
    let tiny = (2.0_f32).powi(-30);
    let x: Vec<Brain> = (0..8 * 64).map(|i| Brain(if i < 64 { tiny } else { 0.5 })).collect();
    let out = run(&x);
    assert!(out[..32].iter().all(|v| v.0 == 0.0));
    assert!(out[32..].iter().all(|v| v.0 != 0.0));
}

#[test]
fn moe_mpp_bf16_stages_through_half() {
    tiny_activation_is_lost(|x| {
        let mut out = Brain::zeros(8 * 32);
        let (w, one) = (vec![0x1111_1111; 32 * 8], vec![Brain(1.0); 32]);
        let none = Brain::zeros(32);
        mt_moe_gather_qmm_mma_int4_bm16_mpp::<F32, Brain>(
            x, &w, &one, &none, &[0; 8], &mut out, 8, 32, 64, 64, 1,
        );
        out
    });
}

#[test]
fn moe_mpp_bm64_bf16_stages_through_half() {
    tiny_activation_is_lost(|x| {
        let mut wide = Brain::zeros(8 * 64);
        let (w, one) = (vec![0x1111_1111; 64 * 8], vec![Brain(1.0); 64]);
        let none = Brain::zeros(64);
        mt_moe_gather_qmm_mma_int4_bm64_mpp::<F32, Brain>(
            x, &w, &one, &none, &[0; 8], &mut wide, 8, 64, 64, 64, 1,
        );
        wide.chunks_exact(64).flat_map(|row| row[..32].to_vec()).collect()
    });
}

#[test]
fn moe_mpp_bm8_int8_bf16_stages_through_half() {
    tiny_activation_is_lost(|x| {
        let mut out = Brain::zeros(8 * 32);
        let (w, one) = (vec![0x0101_0101; 32 * 16], vec![Brain(1.0); 32]);
        let none = Brain::zeros(32);
        mt_moe_gather_qmm_mma_int8_bm8_mpp::<F32, Brain>(
            x, &w, &one, &none, &[0; 8], &mut out, 8, 32, 64, 64, 1,
        );
        out
    });
}

#[test]
fn moe_mpp_bm8_block_scaled_bf16_stages_through_half() {
    tiny_activation_is_lost(|x| {
        let mut out = Brain::zeros(8 * 32);
        let (w, scales) = (vec![0x2222_2222; 32 * 8], vec![127; 32 * 2]);
        mt_mxfp4_moe_gather_qmm_bm8_mpp::<F32, Brain>(
            x, &w, &scales, &[0; 8], &mut out, 8, 32, 64, 32, 1,
        );
        out
    });
}

// ── eight-bit weights ────────────────────────────────────────────────────────

struct Case {
    n_experts: usize,
    t_rows: usize,
    n_out: usize,
    k_in: usize,
    group_size: usize,
    dt: Dt,
    indices: Option<Vec<u32>>,
    min_cos: f64,
    label: &'static str,
}

impl Case {
    fn new(
        label: &'static str,
        n_experts: usize,
        t_rows: usize,
        n_out: usize,
        k_in: usize,
        group_size: usize,
        dt: Dt,
    ) -> Self {
        let (indices, min_cos) = (None, 0.999);
        Self { n_experts, t_rows, n_out, k_in, group_size, dt, indices, min_cos, label }
    }
}

fn int8_in<T: Store>(
    x: &[f32],
    w: &[u32],
    scales: &[f32],
    biases: &[f32],
    indices: &[u32],
    s: Shape,
) -> Vec<f32> {
    let mut out = T::zeros(s.t_rows * s.n_out);
    mt_moe_gather_qmm_mma_int8_bm8_mpp::<F32, T>(
        &T::of(x),
        w,
        &T::of(scales),
        &T::of(biases),
        indices,
        &mut out,
        s.t_rows as u32,
        s.n_out as u32,
        s.k_in as u32,
        s.group_size as u32,
        s.n_experts as u32,
    );
    T::floats(&out)
}

fn run_case(case: &Case) {
    let Case { n_experts, t_rows, n_out, k_in, group_size, dt, .. } = *case;
    let s = Shape { n_experts, t_rows, n_out, k_in, group_size };
    let indices: Vec<u32> = case
        .indices
        .clone()
        .unwrap_or_else(|| (0..t_rows).map(|r| ((r * n_experts) / t_rows) as u32).collect());
    let code = |i: usize| ((i as u32).wrapping_mul(13).wrapping_add(7)) & 0xff;
    let mut weight_packed: Vec<u32> = Vec::with_capacity(n_experts * n_out * k_in / 4);
    for row in 0..n_experts * n_out {
        let codes: Vec<u32> = (0..k_in).map(|k| code(row * k_in + k)).collect();
        weight_packed.extend(pack_int8_row(&codes));
    }
    let groups_total = n_experts * n_out * (k_in / group_size);
    let scales: Vec<f32> =
        (0..groups_total).map(|i| 0.005 + 0.001 * (i as f32 * 0.041).sin()).collect();
    let biases: Vec<f32> =
        (0..groups_total).map(|i| -0.02 + 0.005 * (i as f32 * 0.083).cos()).collect();
    let x: Vec<f32> = (0..t_rows * k_in).map(|i| 0.05 * (i as f32 * 0.019).sin()).collect();
    let y_ref = run_m1(
        |row, k| code(row * k_in + k) as f32,
        &scales,
        &biases,
        &x,
        &offsets(&indices, n_experts),
        s,
    );
    let y_mpp = match dt {
        Dt::F32 => int8_in::<F32>(&x, &weight_packed, &scales, &biases, &indices, s),
        Dt::F16 => int8_in::<Half>(&x, &weight_packed, &scales, &biases, &indices, s),
        Dt::Bf16 => int8_in::<Brain>(&x, &weight_packed, &scales, &biases, &indices, s),
    };
    let (cos, nan_count) = cosine_f64(&y_ref, &y_mpp);
    assert_eq!(nan_count, 0, "[{}] MPP BM=8 int8 produced non-finite values", case.label);
    assert!(
        cos >= case.min_cos,
        "[{}] MPP MoE BM=8 int8 vs b8 cosine = {:.6} (want ≥ {:.3})",
        case.label,
        cos,
        case.min_cos
    );
}

#[test]
fn bm8_int8_f32_small_t8() {
    run_case(&Case::new("f32_small_t8", 4, 8, 64, 64, 32, Dt::F32));
}

#[test]
fn bm8_int8_f16_small_t8() {
    run_case(&Case::new("f16_small_t8", 4, 8, 64, 64, 32, Dt::F16));
}

#[test]
fn bm8_int8_bf16_small_t8() {
    let mut case = Case::new("bf16_small_t8", 4, 8, 64, 64, 32, Dt::Bf16);
    case.min_cos = 0.997;
    run_case(&case);
}

#[test]
fn bm8_int8_f16_multi_tile() {
    run_case(&Case::new("f16_multi_tile", 8, 16, 128, 128, 64, Dt::F16));
}

#[test]
fn bm8_int8_f16_ragged_t5() {
    let mut case = Case::new("f16_ragged_t5", 3, 5, 64, 64, 32, Dt::F16);
    case.indices = Some(vec![0, 0, 1, 1, 2]);
    run_case(&case);
}

#[test]
fn bm8_int8_f16_production_shape() {
    let mut case = Case::new("f16_production_shape", 128, 8, 512, 2048, 64, Dt::F16);
    case.indices = Some(vec![3, 17, 42, 55, 71, 88, 99, 120]);
    run_case(&case);
}

#[test]
fn bm8_int8_bf16_production_shape() {
    let mut case = Case::new("bf16_production_shape", 128, 8, 512, 2048, 64, Dt::Bf16);
    case.indices = Some(vec![3, 17, 42, 55, 71, 88, 99, 120]);
    case.min_cos = 0.997;
    run_case(&case);
}

// ── block-scaled weights ─────────────────────────────────────────────────────

/// Four experts, 64 rows in eight tiles, 64 columns in two, 64 weights a row.
fn block_out<T: Store>(form: QFormat, c: &Coded, x: &[f32], indices: &[u32]) -> Vec<f32> {
    let (m, n, k, e, b) = (64, 64, 64, 4, c.block);
    let x = T::of(x);
    let mut out = T::zeros(64 * 64);
    let (w, bytes, micro, plain) = (&c.words, &c.bytes, &c.scale_bytes, &c.scales);
    match form {
        QFormat::Mxfp4 => mt_mxfp4_moe_gather_qmm_bm8_mpp::<F32, T>(
            &x, w, micro, indices, &mut out, m, n, k, b, e,
        ),
        QFormat::Nvfp4 => mt_nvfp4_moe_gather_qmm_bm8_mpp::<F32, T>(
            &x, w, micro, indices, &mut out, m, n, k, b, &c.global, e,
        ),
        QFormat::Fp4 => mt_fp4_moe_gather_qmm_bm8_mpp::<F32, T>(
            &x, w, plain, indices, &mut out, m, n, k, b, e,
        ),
        QFormat::Mxfp8E4 => mt_mxfp8_e4m3_moe_gather_qmm_bm8_mpp::<F32, T>(
            &x, bytes, micro, indices, &mut out, m, n, k, b, e,
        ),
        QFormat::Mxfp8E5 => mt_mxfp8_e5m2_moe_gather_qmm_bm8_mpp::<F32, T>(
            &x, bytes, micro, indices, &mut out, m, n, k, b, e,
        ),
        QFormat::Fp8E5m2 => mt_fp8_e5m2_moe_gather_qmm_bm8_mpp::<F32, T>(
            &x, bytes, plain, indices, &mut out, m, n, k, b, e,
        ),
        QFormat::Nvfp8 | QFormat::Fp8E4m3 => mt_nvfp8_moe_gather_qmm_bm8_mpp::<F32, T>(
            &x, bytes, plain, indices, &mut out, m, n, k, b, e,
        ),
        QFormat::Int8 => mt_int8_moe_gather_qmm_bm8_mpp::<F32, T>(
            &x, bytes, plain, indices, &mut out, m, n, k, b, e,
        ),
    }
    T::floats(&out)
}

fn check_block<T: Store>(form: QFormat, tol: f32) {
    let c = coded(form, 4 * 64, 64);
    let indices: Vec<u32> = (0..64).map(|r| r / 16).collect();
    let x: Vec<f32> = (0..64 * 64).map(|i| ((i % 11) as f32 - 5.0) * 0.02).collect();
    let x = T::floats(&T::of(&x));
    let out = block_out::<T>(form, &c, &x, &indices);
    for t in 0..64 {
        for n in 0..64 {
            let row = indices[t] as usize * 64 + n;
            let expected: f32 = (0..64).map(|k| x[t * 64 + k] * c.values[row * 64 + k]).sum();
            let got = out[t * 64 + n];
            assert!(
                (got - expected).abs() <= tol * (1.0 + expected.abs()),
                "{form:?} [{t}, {n}]: {got} against {expected}"
            );
        }
    }
}

fn check_block_formats(form: QFormat) {
    check_block::<F32>(form, 1e-5);
    check_block::<Half>(form, 2e-3);
    check_block::<Brain>(form, 1e-2);
}

#[test]
fn test_mxfp4_moe_gather_qmm_bm8_mpp() {
    check_block_formats(QFormat::Mxfp4);
}

#[test]
fn test_nvfp4_moe_gather_qmm_bm8_mpp() {
    check_block_formats(QFormat::Nvfp4);
}

#[test]
fn test_fp4_moe_gather_qmm_bm8_mpp() {
    check_block_formats(QFormat::Fp4);
}

#[test]
fn test_mxfp8_e4m3_moe_gather_qmm_bm8_mpp() {
    check_block_formats(QFormat::Mxfp8E4);
}

#[test]
fn test_mxfp8_e5m2_moe_gather_qmm_bm8_mpp() {
    check_block_formats(QFormat::Mxfp8E5);
}

#[test]
fn test_fp8_e5m2_moe_gather_qmm_bm8_mpp() {
    check_block_formats(QFormat::Fp8E5m2);
}

#[test]
fn test_nvfp8_moe_gather_qmm_bm8_mpp() {
    check_block_formats(QFormat::Nvfp8);
}

#[test]
fn test_fp8_e4m3_moe_gather_qmm_bm8_mpp() {
    check_block_formats(QFormat::Fp8E4m3);
}

#[test]
fn test_int8_moe_gather_qmm_bm8_mpp() {
    check_block_formats(QFormat::Int8);
}
