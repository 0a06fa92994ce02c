use metaltile_std::gated_delta::mt_gated_delta_step;
use metaltile_std::gated_delta_prep::{mt_gated_delta_prep_chunk, mt_gated_delta_prep_step};
use metaltile_std::scalar::{Element, Fun, Op, Rel, Scalar};

// ── the arithmetic of machine floats ─────────────────────────────────────────

#[derive(Clone, Copy, Debug, PartialEq)]
struct F32(f32);

impl Scalar for F32 {
    type Cond = bool;
    type Index = u32;

    fn dup(&self) -> F32 {
        *self
    }
    fn ratio(num: i64, den: u64) -> F32 {
        F32((num as f64 / den as f64) as f32)
    }
    fn from_u32(n: u32) -> F32 {
        F32(n as f32)
    }
    fn neg_infinity() -> F32 {
        F32(f32::NEG_INFINITY)
    }
    fn nan() -> F32 {
        F32(f32::NAN)
    }
    fn apply(f: Fun, a: &F32) -> F32 {
        let x = a.0;
        F32(match f {
            Fun::Neg => -x,
            Fun::Exp => x.exp(),
            Fun::Exp2 => x.exp2(),
            Fun::Log => x.ln(),
            Fun::Log2 => x.log2(),
            Fun::Sqrt => x.sqrt(),
            Fun::Rsqrt => 1.0 / x.sqrt(),
            Fun::Sin => x.sin(),
            Fun::Cos => x.cos(),
            Fun::Floor => x.floor(),
            Fun::Silu => x / (1.0 + (-x).exp()),
            Fun::Gelu => 0.5 * x * (1.0 + (0.797_884_6 * (x + 0.044715 * x * x * x)).tanh()),
            Fun::Sigmoid => 1.0 / (1.0 + (-x).exp()),
        })
    }
    fn combine(op: Op, a: &F32, b: &F32) -> F32 {
        let (x, y) = (a.0, b.0);
        F32(match op {
            Op::Add => x + y,
            Op::Sub => x - y,
            Op::Mul => x * y,
            Op::Div => x / y,
            Op::Max => x.max(y),
            Op::Min => x.min(y),
        })
    }
    fn relate(rel: Rel, a: &F32, b: &F32) -> bool {
        match rel {
            Rel::Less => a.0 < b.0,
            Rel::AtLeast => a.0 >= b.0,
        }
    }
    fn always() -> bool {
        true
    }
    fn both(c: &bool, d: &bool) -> bool {
        *c && *d
    }
    fn not(c: &bool) -> bool {
        !*c
    }
    fn select(c: &bool, a: &F32, b: &F32) -> F32 {
        if *c { *a } else { *b }
    }
    fn index(i: u32) -> u32 {
        i
    }
    fn select_index(c: &bool, i: &u32, j: &u32) -> u32 {
        if *c { *i } else { *j }
    }
    fn index_value(i: &u32) -> F32 {
        F32(*i as f32)
    }
    fn trunc(a: &F32) -> u32 {
        a.0 as u32
    }
    fn resolve(i: &u32) -> Option<u32> {
        Some(*i)
    }

    // What contracts speak of: never run.
    fn rational(_: i64, _: u64) -> F32 {
        unreachable!()
    }
    fn natural(_: u32) -> F32 {
        unreachable!()
    }
    fn lowest() -> F32 {
        unreachable!()
    }
    fn undefined() -> F32 {
        unreachable!()
    }
    fn applied(_: Fun, _: F32) -> F32 {
        unreachable!()
    }
    fn combined(_: Op, _: F32, _: F32) -> F32 {
        unreachable!()
    }
    fn related(_: Rel, _: F32, _: F32) -> bool {
        unreachable!()
    }
    fn certain() -> bool {
        unreachable!()
    }
    fn conjoined(_: bool, _: bool) -> bool {
        unreachable!()
    }
    fn negated(_: bool) -> bool {
        unreachable!()
    }
    fn chosen(_: bool, _: F32, _: F32) -> F32 {
        unreachable!()
    }
    fn position(_: u32) -> u32 {
        unreachable!()
    }
    fn chosen_index(_: bool, _: u32, _: u32) -> u32 {
        unreachable!()
    }
    fn of_index(_: u32) -> F32 {
        unreachable!()
    }
    fn to_index(_: F32) -> u32 {
        unreachable!()
    }
    fn resolved(_: u32) -> Option<u32> {
        unreachable!()
    }
}

fn wrap(v: &[f32]) -> Vec<F32> {
    v.iter().map(|x| F32(*x)).collect()
}

fn unwrap(v: &[F32]) -> Vec<f32> {
    v.iter().map(|x| x.0).collect()
}

fn max_abs_diff(a: &[f32], b: &[f32]) -> f32 {
    assert_eq!(a.len(), b.len());
    a.iter().zip(b).map(|(x, y)| (x - y).abs()).fold(0.0_f32, f32::max)
}

fn round_f16(v: f32) -> f32 {
    half::f16::from_f32(v).to_f32()
}

fn round_bf16(v: f32) -> f32 {
    half::bf16::from_f32(v).to_f32()
}

/// A float in a half-precision buffer.
#[derive(Clone, Copy, Debug, PartialEq)]
struct Half(f32);

impl Element<F32> for Half {
    fn widen(&self) -> F32 {
        F32(self.0)
    }
    fn narrow(a: &F32) -> Half {
        Half(round_f16(a.0))
    }
    fn stage(a: &F32) -> F32 {
        F32(round_f16(a.0))
    }
    fn copied(&self) -> Half {
        *self
    }

    // What contracts speak of: never run.
    fn widened(self) -> F32 {
        unreachable!()
    }
    fn narrowed(_: F32) -> Half {
        unreachable!()
    }
    fn staged(_: F32) -> F32 {
        unreachable!()
    }
}

/// A float in a bfloat buffer; a matrix tile stages it in half precision.
#[derive(Clone, Copy, Debug, PartialEq)]
struct Brain(f32);

impl Element<F32> for Brain {
    fn widen(&self) -> F32 {
        F32(self.0)
    }
    fn narrow(a: &F32) -> Brain {
        Brain(round_bf16(a.0))
    }
    fn stage(a: &F32) -> F32 {
        F32(round_f16(a.0))
    }
    fn copied(&self) -> Brain {
        *self
    }

    // What contracts speak of: never run.
    fn widened(self) -> F32 {
        unreachable!()
    }
    fn narrowed(_: F32) -> Brain {
        unreachable!()
    }
    fn staged(_: F32) -> F32 {
        unreachable!()
    }
}

/// The storage types of a launch.
trait Store: Element<F32> {
    fn of(v: &[f32]) -> Vec<Self> {
        v.iter().map(|x| Self::narrow(&F32(*x))).collect()
    }
    fn floats(v: &[Self]) -> Vec<f32> {
        v.iter().map(|x| x.widen().0).collect()
    }
    fn zeros(n: usize) -> Vec<Self> {
        (0..n).map(|_| Self::narrow(&F32(0.0))).collect()
    }
}

impl Store for F32 {}
impl Store for Half {}
impl Store for Brain {}

// ── oracles ──────────────────────────────────────────────────────────────────

fn softplus(x: f32) -> f32 {
    (x.exp() + 1.0).ln()
}

fn sigmoid(x: f32) -> f32 {
    1.0 / (1.0 + (-x).exp())
}

/// The inputs of a launch over `b` sequences of `t` tokens.
struct Inputs {
    conv_out: Vec<f32>,
    a_log: Vec<f32>,
    dt_bias: Vec<f32>,
    a_raw: Vec<f32>,
    b_raw: Vec<f32>,
    q_norm_weight: Vec<f32>,
    k_norm_weight: Vec<f32>,
    state_in: Vec<f32>,
}

#[derive(Clone, Copy)]
struct Shape {
    b: usize,
    t: usize,
    hv: usize,
    hk: usize,
    dv: usize,
    dk: usize,
}

fn oracle(x: &Inputs, s: Shape) -> (Vec<f32>, Vec<f32>) {
    let Shape { b, t, hv, hk, dv, dk } = s;
    let eps = 1e-6_f32;
    let stride_b = 2 * hk * dk + hv * dv;
    let hk_per_hv = hv / hk;
    let mut state = x.state_in.clone();
    let mut y_all = vec![0.0_f32; b * t * hv * dv];
    for step in 0..t {
        for batch in 0..b {
            let bt = batch * t + step;
            let base = bt * stride_b;
            for hv_idx in 0..hv {
                let n = batch * hv + hv_idx;
                let hk_idx = hv_idx / hk_per_hv;
                let q = &x.conv_out[base + hk_idx * dk..][..dk];
                let k = &x.conv_out[base + hk * dk + hk_idx * dk..][..dk];
                let v = &x.conv_out[base + 2 * hk * dk + hv_idx * dv..][..dv];
                let q_ssq: f32 = q.iter().map(|e| e * e).sum();
                let k_ssq: f32 = k.iter().map(|e| e * e).sum();
                let q_inv = 1.0 / ((q_ssq / dk as f32) + eps).sqrt();
                let k_inv = 1.0 / ((k_ssq / dk as f32) + eps).sqrt();
                let dt_v = softplus(x.a_raw[bt * hv + hv_idx] + x.dt_bias[hv_idx]);
                let g = (-x.a_log[hv_idx].exp() * dt_v).exp();
                let beta = sigmoid(x.b_raw[bt * hv + hv_idx]);
                let wq = &x.q_norm_weight[hk_idx * dk..][..dk];
                let wk = &x.k_norm_weight[hk_idx * dk..][..dk];
                for (dv_idx, v_val) in v.iter().enumerate() {
                    let row = &mut state[(n * dv + dv_idx) * dk..][..dk];
                    let mut kv_mem = 0.0_f32;
                    for d in 0..dk {
                        row[d] *= g;
                        kv_mem += row[d] * (k[d] * k_inv * wk[d]);
                    }
                    let delta = (v_val - kv_mem) * beta;
                    let mut out = 0.0_f32;
                    for d in 0..dk {
                        row[d] += (k[d] * k_inv * wk[d]) * delta;
                        out += row[d] * (q[d] * q_inv * wq[d]);
                    }
                    y_all[(bt * hv + hv_idx) * dv + dv_idx] = out;
                }
            }
        }
    }
    (y_all, state)
}

fn norm_weights(n: usize, identity: bool, ws: f32, modulus: usize, step: f32) -> Vec<f32> {
    (0..n)
        .map(|i| if identity { ws } else { ws * (1.0 + ((i % modulus) as f32) * step) })
        .collect()
}

fn step_inputs<T: Store>(s: Shape, identity: bool, ws: f32) -> Inputs {
    let Shape { b, hv, hk, dv, dk, .. } = s;
    let stride_b = 2 * hk * dk + hv * dv;
    let round = |v: Vec<f32>| T::floats(&T::of(&v));
    Inputs {
        conv_out: round((0..b * stride_b).map(|i| ((i as f32) * 0.0131).sin() * 0.4).collect()),
        a_log: round((0..hv).map(|i| -1.5 - (i as f32) * 0.1).collect()),
        dt_bias: round((0..hv).map(|i| -0.5 + (i as f32) * 0.05).collect()),
        a_raw: round((0..b * hv).map(|i| -0.3 + (i as f32) * 0.04).collect()),
        b_raw: round((0..b * hv).map(|i| -0.2 + (i as f32) * 0.03).collect()),
        q_norm_weight: round(norm_weights(hk * dk, identity, ws, 11, 0.05)),
        k_norm_weight: round(norm_weights(hk * dk, identity, ws, 13, 0.04)),
        state_in: round(
            (0..b * hv * dv * dk).map(|i| ((i as f32) * 0.0073).cos() * 0.1).collect(),
        ),
    }
}

fn chunk_inputs<T: Store>(s: Shape, identity: bool, ws: f32) -> Inputs {
    let Shape { b, t, hv, hk, dv, dk } = s;
    let stride_b = 2 * hk * dk + hv * dv;
    let round = |v: Vec<f32>| T::floats(&T::of(&v));
    Inputs {
        conv_out: round(
            (0..b * t * stride_b).map(|i| ((i as f32) * 0.0131).sin() * 0.1).collect(),
        ),
        a_log: round((0..hv).map(|i| -2.0 - (i as f32) * 0.05).collect()),
        dt_bias: round((0..hv).map(|i| -0.3 + (i as f32) * 0.02).collect()),
        a_raw: round(
            (0..b * t * hv).map(|i| -0.2 + ((i as f32) * 0.04).sin() * 0.2).collect(),
        ),
        b_raw: round(
            (0..b * t * hv).map(|i| -0.2 + ((i as f32) * 0.03).cos() * 0.2).collect(),
        ),
        q_norm_weight: round(norm_weights(hk * dk, identity, ws, 11, 0.05)),
        k_norm_weight: round(norm_weights(hk * dk, identity, ws, 13, 0.04)),
        state_in: round(
            (0..b * hv * dv * dk).map(|i| ((i as f32) * 0.0073).cos() * 0.02).collect(),
        ),
    }
}

// ── launches ─────────────────────────────────────────────────────────────────

fn run_step<T: Store>(x: &Inputs, s: Shape) -> (Vec<f32>, Vec<f32>) {
    let mut state_out = T::zeros(x.state_in.len());
    let mut y = T::zeros(s.b * s.hv * s.dv);
    mt_gated_delta_prep_step(
        &T::of(&x.conv_out),
        &T::of(&x.a_log),
        &T::of(&x.dt_bias),
        &T::of(&x.a_raw),
        &T::of(&x.b_raw),
        &T::of(&x.q_norm_weight),
        &T::of(&x.k_norm_weight),
        &T::of(&x.state_in),
        &mut state_out,
        &mut y,
        s.dk as u32,
        s.dv as u32,
        s.hv as u32,
        s.hk as u32,
        s.b as u32,
    );
    (T::floats(&y), T::floats(&state_out))
}

fn run_chunk<T: Store>(x: &Inputs, s: Shape) -> (Vec<f32>, Vec<f32>) {
    let mut state_out = T::zeros(x.state_in.len());
    let mut y = T::zeros(s.b * s.t * s.hv * s.dv);
    mt_gated_delta_prep_chunk(
        &T::of(&x.conv_out),
        &T::of(&x.a_log),
        &T::of(&x.dt_bias),
        &T::of(&x.a_raw),
        &T::of(&x.b_raw),
        &T::of(&x.q_norm_weight),
        &T::of(&x.k_norm_weight),
        &T::of(&x.state_in),
        &mut state_out,
        &mut y,
        &[s.t as u32],
        s.dk as u32,
        s.dv as u32,
        s.hv as u32,
        s.hk as u32,
        s.b as u32,
    );
    (T::floats(&y), T::floats(&state_out))
}

fn assert_close(got: &[f32], expected: &[f32], tol: f32) {
    assert_eq!(got.len(), expected.len());
    for (i, (a, e)) in got.iter().zip(expected).enumerate() {
        assert!((a - e).abs() <= tol * (1.0 + e.abs()), "element {i}: {a} against {e}");
    }
}

#[allow(clippy::too_many_arguments)]
fn check_step<T: Store>(
    b: usize,
    hv: usize,
    hk: usize,
    dv: usize,
    dk: usize,
    identity: bool,
    ws: f32,
    tol: f32,
) {
    let s = Shape { b, t: 1, hv, hk, dv, dk };
    let x = step_inputs::<T>(s, identity, ws);
    let (y, state) = run_step::<T>(&x, s);
    let (ey, es) = oracle(&x, s);
    assert_close(&y, &ey, tol);
    assert_close(&state, &es, tol);
}

fn check_chunk<T: Store>(s: Shape, identity: bool, ws: f32, tol: f32) {
    let x = chunk_inputs::<T>(s, identity, ws);
    let (y, state) = run_chunk::<T>(&x, s);
    let (ey, es) = oracle(&x, s);
    assert_close(&y, &ey, tol);
    assert_close(&state, &es, tol);
}

const F32_TOL: f32 = 1e-3;
const F16_TOL: f32 = 2e-3;
const BF16_TOL: f32 = 1e-2;

#[test]
fn prep_step_f32_qwen36_shape_identity_weights() {
    check_step::<F32>(1, 32, 16, 128, 128, true, 1.0, F32_TOL);
}

#[test]
fn prep_step_f32_qwen36_shape_nonidentity_weights() {
    check_step::<F32>(1, 32, 16, 128, 128, false, 0.5, F32_TOL);
}

#[test]
fn prep_step_f32_no_gqa() {
    check_step::<F32>(1, 4, 4, 32, 64, true, 1.0, F32_TOL);
}

#[test]
fn prep_step_f32_dk_256_full_n_per_t_slot_usage() {
    check_step::<F32>(1, 4, 2, 8, 256, true, 1.0, F32_TOL);
}

#[test]
fn prep_step_f32_batch_2() {
    check_step::<F32>(2, 4, 2, 8, 64, false, 0.7, F32_TOL);
}

#[test]
fn prep_step_f16_no_gqa() {
    check_step::<Half>(1, 4, 4, 32, 64, true, 1.0, F16_TOL);
}

#[test]
fn prep_step_f16_qwen36_shape_identity_weights() {
    check_step::<Half>(1, 32, 16, 128, 128, true, 1.0, F16_TOL);
}

#[test]
fn prep_step_f16_qwen36_shape_nonidentity_weights() {
    check_step::<Half>(1, 32, 16, 128, 128, false, 0.5, F16_TOL);
}

#[test]
fn prep_step_bf16_no_gqa() {
    check_step::<Brain>(1, 4, 4, 32, 64, true, 1.0, BF16_TOL);
}

#[test]
fn prep_step_bf16_qwen36_shape_identity_weights() {
    check_step::<Brain>(1, 32, 16, 128, 128, true, 1.0, BF16_TOL);
}

#[test]
fn prep_step_bf16_qwen36_shape_nonidentity_weights() {
    check_step::<Brain>(1, 32, 16, 128, 128, false, 0.5, BF16_TOL);
}

#[test]
fn prep_step_f32_matches_unfused_path_when_weights_identity() {
    check_step::<F32>(1, 8, 4, 16, 64, true, 1.0, F32_TOL);
}

#[test]
fn prep_chunk_f32_qwen36_t1() {
    let s = Shape { b: 1, t: 1, hv: 32, hk: 16, dv: 128, dk: 128 };
    check_chunk::<F32>(s, true, 1.0, F32_TOL);
}

#[test]
fn prep_chunk_f32_qwen36_t8_identity() {
    let s = Shape { b: 1, t: 8, hv: 32, hk: 16, dv: 128, dk: 128 };
    check_chunk::<F32>(s, true, 1.0, F32_TOL);
}

#[test]
fn prep_chunk_f32_qwen36_t8_weighted() {
    let s = Shape { b: 1, t: 8, hv: 32, hk: 16, dv: 128, dk: 128 };
    check_chunk::<F32>(s, false, 0.5, F32_TOL);
}

#[test]
fn prep_chunk_f32_long_t32_small_shape() {
    let s = Shape { b: 1, t: 32, hv: 4, hk: 2, dv: 8, dk: 32 };
    check_chunk::<F32>(s, true, 1.0, F32_TOL);
}

#[test]
fn prep_chunk_f32_dk_256() {
    let s = Shape { b: 1, t: 4, hv: 4, hk: 2, dv: 8, dk: 256 };
    check_chunk::<F32>(s, true, 1.0, F32_TOL);
}

#[test]
fn prep_chunk_f16_t1_smoke() {
    let s = Shape { b: 1, t: 1, hv: 4, hk: 2, dv: 8, dk: 32 };
    check_chunk::<Half>(s, true, 1.0, F16_TOL);
}

#[test]
fn prep_chunk_bf16_qwen36_t8() {
    let s = Shape { b: 1, t: 8, hv: 32, hk: 16, dv: 128, dk: 128 };
    check_chunk::<Brain>(s, true, 1.0, BF16_TOL);
}

#[test]
fn prep_chunk_bf16_small_shape_t32() {
    let s = Shape { b: 1, t: 32, hv: 4, hk: 2, dv: 8, dk: 32 };
    check_chunk::<Brain>(s, true, 1.0, BF16_TOL);
}

#[test]
fn test_gated_delta_prep_step() {
    let s = Shape { b: 1, t: 1, hv: 4, hk: 2, dv: 8, dk: 32 };
    let Shape { b, hv, hk, dv, dk, .. } = s;
    let stride_b = 2 * hk * dk + hv * dv;
    let x = Inputs {
        conv_out: (0..b * stride_b).map(|i| ((i as f32) * 0.0173).sin() * 0.5).collect(),
        a_log: (0..hv).map(|i| -1.0 + (i as f32) * 0.2).collect(),
        dt_bias: (0..hv).map(|i| (i as f32) * 0.05).collect(),
        a_raw: (0..b * hv).map(|i| ((i as f32) * 0.1).sin() * 0.3).collect(),
        b_raw: (0..b * hv).map(|i| ((i as f32) * 0.13).cos() * 0.4).collect(),
        q_norm_weight: vec![1.0_f32; hk * dk],
        k_norm_weight: vec![1.0_f32; hk * dk],
        state_in: (0..b * hv * dv * dk).map(|i| ((i as f32) * 0.011).sin() * 0.05).collect(),
    };
    let (y, state) = run_step::<F32>(&x, s);
    let (ey, es) = oracle(&x, s);
    assert_close(&y, &ey, 1e-3);
    assert_close(&state, &es, 1e-3);
}

/// Eight steps, each from the state that the one before it left.
#[test]
fn prep_step_f32_multi_step_8_consecutive() {
    let s = Shape { b: 1, t: 1, hv: 4, hk: 2, dv: 8, dk: 64 };
    let Shape { b, hv, hk, dv, dk, .. } = s;
    let stride_b = 2 * hk * dk + hv * dv;
    let mut state_cpu = vec![0.0_f32; b * hv * dv * dk];
    let mut state_run = state_cpu.clone();
    for step in 0..8usize {
        let mut x = Inputs {
            conv_out: (0..b * stride_b)
                .map(|i| (((i + step * 17) as f32) * 0.0131).sin() * 0.4)
                .collect(),
            a_log: (0..hv).map(|i| -1.0 - (i as f32) * 0.1).collect(),
            dt_bias: (0..hv).map(|i| -0.3 + (i as f32) * 0.05).collect(),
            a_raw: (0..b * hv).map(|i| -0.3 + ((i + step) as f32) * 0.04).collect(),
            b_raw: (0..b * hv).map(|i| -0.2 + ((i + step) as f32) * 0.03).collect(),
            q_norm_weight: vec![0.7_f32; hk * dk],
            k_norm_weight: vec![0.7_f32; hk * dk],
            state_in: state_cpu,
        };
        let (ey, es) = oracle(&x, s);
        let (y, state) = run_step::<F32>(&x, s);
        assert_close(&y, &ey, 1e-3);
        assert_close(&state, &es, 1e-3);
        x.state_in = state_run;
        let (y, state) = run_step::<F32>(&x, s);
        assert_close(&y, &ey, 1e-3);
        state_cpu = es;
        state_run = state;
    }
    assert_close(&state_run, &state_cpu, 1e-3);
}

#[test]
fn chunk_of_one_is_a_step() {
    let s = Shape { b: 2, t: 1, hv: 4, hk: 2, dv: 8, dk: 64 };
    let x = chunk_inputs::<F32>(s, false, 0.7);
    assert_eq!(run_chunk::<F32>(&x, s), run_step::<F32>(&x, s));
}

/// Eight tokens one by one are a chunk of eight.
#[test]
fn tokens_one_by_one_are_a_chunk() {
    let s = Shape { b: 1, t: 8, hv: 4, hk: 2, dv: 8, dk: 64 };
    let x = chunk_inputs::<F32>(s, false, 0.7);
    let (y, state) = run_chunk::<F32>(&x, s);
    let stride_b = 2 * s.hk * s.dk + s.hv * s.dv;
    let mut at = Vec::new();
    let mut now = x.state_in.clone();
    for step in 0..s.t {
        let one = Inputs {
            conv_out: x.conv_out[step * stride_b..][..stride_b].to_vec(),
            a_log: x.a_log.clone(),
            dt_bias: x.dt_bias.clone(),
            a_raw: x.a_raw[step * s.hv..][..s.hv].to_vec(),
            b_raw: x.b_raw[step * s.hv..][..s.hv].to_vec(),
            q_norm_weight: x.q_norm_weight.clone(),
            k_norm_weight: x.k_norm_weight.clone(),
            state_in: now,
        };
        let (y1, next) = run_step::<F32>(&one, s);
        at.extend(y1);
        now = next;
    }
    assert_eq!(at, y);
    assert_eq!(now, state);
}

/// The fused step is the plain one on the inputs that it prepares.
#[test]
fn fused_step_is_the_plain_step_on_prepared_inputs() {
    let s = Shape { b: 1, t: 1, hv: 2, hk: 1, dv: 4, dk: 32 };
    let x = step_inputs::<F32>(s, false, 0.8);
    let (y, state) = run_step::<F32>(&x, s);
    let normed = |row: &[f32], w: &[f32]| -> Vec<f32> {
        let ssq: f32 = row.iter().map(|e| e * e).sum();
        let inv = 1.0 / (ssq / row.len() as f32 + 1e-6).sqrt();
        row.iter().zip(w).map(|(e, w)| e * inv * w).collect()
    };
    let q = normed(&x.conv_out[..32], &x.q_norm_weight);
    let k = normed(&x.conv_out[32..64], &x.k_norm_weight);
    let v = &x.conv_out[64..];
    let g: Vec<f32> = (0..s.hv)
        .map(|h| (-x.a_log[h].exp() * softplus(x.a_raw[h] + x.dt_bias[h])).exp())
        .collect();
    let beta: Vec<f32> = x.b_raw.iter().map(|b| sigmoid(*b)).collect();
    let mut plain_state = wrap(&vec![0.0; x.state_in.len()]);
    let mut plain_y = wrap(&vec![0.0; v.len()]);
    mt_gated_delta_step(
        &wrap(&q),
        &wrap(&k),
        &wrap(v),
        &wrap(&g),
        &wrap(&beta),
        &wrap(&x.state_in),
        &mut plain_state,
        &mut plain_y,
        32,
        4,
        2,
        1,
        1,
    );
    assert!(max_abs_diff(&unwrap(&plain_y), &y) < 1e-5);
    assert!(max_abs_diff(&unwrap(&plain_state), &state) < 1e-5);
}
