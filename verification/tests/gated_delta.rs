use metaltile_std::gated_delta::{mt_gated_delta_chunk, mt_gated_delta_step};
use metaltile_std::scalar::{Element, Fun, Op, Rel, Scalar};

// ── the arithmetic of machine floats ─────────────────────────────────────────

#[derive(Clone, Copy, Debug, PartialEq)]
struct F32(f32);

impl Scalar for F32 {
    type Cond = bool;
    type Index = u32;

    fn dup(&self) -> F32 {
        *self
    }
    fn ratio(num: i64, den: u64) -> F32 {
        F32((num as f64 / den as f64) as f32)
    }
    fn from_u32(n: u32) -> F32 {
        F32(n as f32)
    }
    fn neg_infinity() -> F32 {
        F32(f32::NEG_INFINITY)
    }
    fn nan() -> F32 {
        F32(f32::NAN)
    }
    fn apply(f: Fun, a: &F32) -> F32 {
        let x = a.0;
        F32(match f {
            Fun::Neg => -x,
            Fun::Exp => x.exp(),
            Fun::Exp2 => x.exp2(),
            Fun::Log => x.ln(),
            Fun::Log2 => x.log2(),
            Fun::Sqrt => x.sqrt(),
            Fun::Rsqrt => 1.0 / x.sqrt(),
            Fun::Sin => x.sin(),
            Fun::Cos => x.cos(),
            Fun::Floor => x.floor(),
            Fun::Silu => x / (1.0 + (-x).exp()),
            Fun::Gelu => 0.5 * x * (1.0 + (0.797_884_6 * (x + 0.044715 * x * x * x)).tanh()),
            Fun::Sigmoid => 1.0 / (1.0 + (-x).exp()),
        })
    }
    fn combine(op: Op, a: &F32, b: &F32) -> F32 {
        let (x, y) = (a.0, b.0);
        F32(match op {
            Op::Add => x + y,
            Op::Sub => x - y,
            Op::Mul => x * y,
            Op::Div => x / y,
            Op::Max => x.max(y),
            Op::Min => x.min(y),
        })
    }
    fn relate(rel: Rel, a: &F32, b: &F32) -> bool {
        match rel {
            Rel::Less => a.0 < b.0,
            Rel::AtLeast => a.0 >= b.0,
        }
    }
    fn always() -> bool {
        true
    }
    fn both(c: &bool, d: &bool) -> bool {
        *c && *d
    }
    fn not(c: &bool) -> bool {
        !*c
    }
    fn select(c: &bool, a: &F32, b: &F32) -> F32 {
        if *c { *a } else { *b }
    }
    fn index(i: u32) -> u32 {
        i
    }
    fn select_index(c: &bool, i: &u32, j: &u32) -> u32 {
        if *c { *i } else { *j }
    }
    fn index_value(i: &u32) -> F32 {
        F32(*i as f32)
    }
    fn trunc(a: &F32) -> u32 {
        a.0 as u32
    }
    fn resolve(i: &u32) -> Option<u32> {
        Some(*i)
    }

    // What contracts speak of: never run.
    fn rational(_: i64, _: u64) -> F32 {
        unreachable!()
    }
    fn natural(_: u32) -> F32 {
        unreachable!()
    }
    fn lowest() -> F32 {
        unreachable!()
    }
    fn undefined() -> F32 {
        unreachable!()
    }
    fn applied(_: Fun, _: F32) -> F32 {
        unreachable!()
    }
    fn combined(_: Op, _: F32, _: F32) -> F32 {
        unreachable!()
    }
    fn related(_: Rel, _: F32, _: F32) -> bool {
        unreachable!()
    }
    fn certain() -> bool {
        unreachable!()
    }
    fn conjoined(_: bool, _: bool) -> bool {
        unreachable!()
    }
    fn negated(_: bool) -> bool {
        unreachable!()
    }
    fn chosen(_: bool, _: F32, _: F32) -> F32 {
        unreachable!()
    }
    fn position(_: u32) -> u32 {
        unreachable!()
    }
    fn chosen_index(_: bool, _: u32, _: u32) -> u32 {
        unreachable!()
    }
    fn of_index(_: u32) -> F32 {
        unreachable!()
    }
    fn to_index(_: F32) -> u32 {
        unreachable!()
    }
    fn resolved(_: u32) -> Option<u32> {
        unreachable!()
    }
}

fn wrap(v: &[f32]) -> Vec<F32> {
    v.iter().map(|x| F32(*x)).collect()
}

fn unwrap(v: &[F32]) -> Vec<f32> {
    v.iter().map(|x| x.0).collect()
}

fn max_abs_diff(a: &[f32], b: &[f32]) -> f32 {
    assert_eq!(a.len(), b.len());
    a.iter().zip(b).map(|(x, y)| (x - y).abs()).fold(0.0_f32, f32::max)
}

fn round_f16(v: f32) -> f32 {
    half::f16::from_f32(v).to_f32()
}

fn round_bf16(v: f32) -> f32 {
    half::bf16::from_f32(v).to_f32()
}

/// A float in a half-precision buffer.
#[derive(Clone, Copy, Debug, PartialEq)]
struct Half(f32);

impl Element<F32> for Half {
    fn widen(&self) -> F32 {
        F32(self.0)
    }
    fn narrow(a: &F32) -> Half {
        Half(round_f16(a.0))
    }
    fn stage(a: &F32) -> F32 {
        F32(round_f16(a.0))
    }
    fn copied(&self) -> Half {
        *self
    }

    // What contracts speak of: never run.
    fn widened(self) -> F32 {
        unreachable!()
    }
    fn narrowed(_: F32) -> Half {
        unreachable!()
    }
    fn staged(_: F32) -> F32 {
        unreachable!()
    }
}

/// A float in a bfloat buffer; a matrix tile stages it in half precision.
#[derive(Clone, Copy, Debug, PartialEq)]
struct Brain(f32);

impl Element<F32> for Brain {
    fn widen(&self) -> F32 {
        F32(self.0)
    }
    fn narrow(a: &F32) -> Brain {
        Brain(round_bf16(a.0))
    }
    fn stage(a: &F32) -> F32 {
        F32(round_f16(a.0))
    }
    fn copied(&self) -> Brain {
        *self
    }

    // What contracts speak of: never run.
    fn widened(self) -> F32 {
        unreachable!()
    }
    fn narrowed(_: F32) -> Brain {
        unreachable!()
    }
    fn staged(_: F32) -> F32 {
        unreachable!()
    }
}

/// The storage types of a launch.
trait Store: Element<F32> {
    fn of(v: &[f32]) -> Vec<Self> {
        v.iter().map(|x| Self::narrow(&F32(*x))).collect()
    }
    fn floats(v: &[Self]) -> Vec<f32> {
        v.iter().map(|x| x.widen().0).collect()
    }
    fn zeros(n: usize) -> Vec<Self> {
        (0..n).map(|_| Self::narrow(&F32(0.0))).collect()
    }
}

impl Store for F32 {}
impl Store for Half {}
impl Store for Brain {}

#[derive(Clone, Copy)]
enum Dt {
    F32,
    F16,
    Bf16,
}

impl Dt {
    fn round(self, v: f32) -> f32 {
        match self {
            Dt::F32 => v,
            Dt::F16 => round_f16(v),
            Dt::Bf16 => round_bf16(v),
        }
    }
}

// ── oracles ──────────────────────────────────────────────────────────────────

#[allow(clippy::too_many_arguments)]
fn naive_gated_delta_step(
    q: &[f32],
    k: &[f32],
    v: &[f32],
    g: &[f32],
    beta: &[f32],
    state_in: &[f32],
    b: usize,
    hv: usize,
    hk: usize,
    dv: usize,
    dk: usize,
) -> (Vec<f32>, Vec<f32>) {
    let mut y = vec![0.0_f32; b * hv * dv];
    let mut state_out = vec![0.0_f32; b * hv * dv * dk];
    let hk_per_hv = hv / hk;
    for batch in 0..b {
        for hv_idx in 0..hv {
            let n = batch * hv + hv_idx;
            let hk_idx = hv_idx / hk_per_hv;
            let g_val = g[n];
            let beta_val = beta[n];
            let qk_base = (batch * hk + hk_idx) * dk;
            for dv_idx in 0..dv {
                let v_val = v[n * dv + dv_idx];
                let s_base = n * dv * dk + dv_idx * dk;
                let mut kv_mem = 0.0_f32;
                let mut decayed = vec![0.0_f32; dk];
                for s_idx in 0..dk {
                    let s = state_in[s_base + s_idx] * g_val;
                    decayed[s_idx] = s;
                    kv_mem += s * k[qk_base + s_idx];
                }
                let delta = (v_val - kv_mem) * beta_val;
                let mut out = 0.0_f32;
                for s_idx in 0..dk {
                    let s_new = decayed[s_idx] + k[qk_base + s_idx] * delta;
                    state_out[s_base + s_idx] = s_new;
                    out += s_new * q[qk_base + s_idx];
                }
                y[n * dv + dv_idx] = out;
            }
        }
    }
    (y, state_out)
}

#[allow(clippy::too_many_arguments)]
fn naive_gated_delta_chunk(
    q: &[f32],
    k: &[f32],
    v: &[f32],
    g: &[f32],
    beta: &[f32],
    state_in: &[f32],
    b: usize,
    t: usize,
    hv: usize,
    hk: usize,
    dv: usize,
    dk: usize,
) -> (Vec<f32>, Vec<f32>) {
    let mut state = state_in.to_vec();
    let mut y_all = vec![0.0_f32; b * t * hv * dv];
    let hk_per_hv = hv / hk;
    for step in 0..t {
        let q_s = &q[step * b * hk * dk..(step + 1) * b * hk * dk];
        let k_s = &k[step * b * hk * dk..(step + 1) * b * hk * dk];
        let v_s = &v[step * b * hv * dv..(step + 1) * b * hv * dv];
        let g_s = &g[step * b * hv..(step + 1) * b * hv];
        let beta_s = &beta[step * b * hv..(step + 1) * b * hv];
        for batch in 0..b {
            for hv_idx in 0..hv {
                let n = batch * hv + hv_idx;
                let hk_idx = hv_idx / hk_per_hv;
                let g_val = g_s[batch * hv + hv_idx];
                let beta_val = beta_s[batch * hv + hv_idx];
                let qk_base = (batch * hk + hk_idx) * dk;
                for dv_idx in 0..dv {
                    let v_val = v_s[(batch * hv + hv_idx) * dv + dv_idx];
                    let s_base = n * dv * dk + dv_idx * dk;
                    let mut kv_mem = 0.0_f32;
                    let mut decayed = vec![0.0_f32; dk];
                    for s_idx in 0..dk {
                        let s = state[s_base + s_idx] * g_val;
                        decayed[s_idx] = s;
                        kv_mem += s * k_s[qk_base + s_idx];
                    }
                    let delta = (v_val - kv_mem) * beta_val;
                    let mut out = 0.0_f32;
                    for s_idx in 0..dk {
                        let s_new = decayed[s_idx] + k_s[qk_base + s_idx] * delta;
                        state[s_base + s_idx] = s_new;
                        out += s_new * q_s[qk_base + s_idx];
                    }
                    y_all[(step * b * hv + batch * hv + hv_idx) * dv + dv_idx] = out;
                }
            }
        }
    }
    (y_all, state)
}

// ── launches ─────────────────────────────────────────────────────────────────

#[allow(clippy::too_many_arguments)]
fn step_in<T: Store>(
    q: &[f32],
    k: &[f32],
    v: &[f32],
    g: &[f32],
    beta: &[f32],
    state_in: &[f32],
    b: usize,
    hv: usize,
    hk: usize,
    dv: usize,
    dk: usize,
) -> (Vec<f32>, Vec<f32>) {
    let mut state_out = T::zeros(state_in.len());
    let mut y = T::zeros(b * hv * dv);
    mt_gated_delta_step(
        &T::of(q),
        &T::of(k),
        &T::of(v),
        &T::of(g),
        &T::of(beta),
        &T::of(state_in),
        &mut state_out,
        &mut y,
        dk as u32,
        dv as u32,
        hv as u32,
        hk as u32,
        b as u32,
    );
    (T::floats(&y), T::floats(&state_out))
}

#[allow(clippy::too_many_arguments)]
fn run_gated_delta_step(
    q: &[f32],
    k: &[f32],
    v: &[f32],
    g: &[f32],
    beta: &[f32],
    state_in: &[f32],
    dt: Dt,
    b: usize,
    hv: usize,
    hk: usize,
    dv: usize,
    dk: usize,
) -> (Vec<f32>, Vec<f32>) {
    match dt {
        Dt::F32 => step_in::<F32>(q, k, v, g, beta, state_in, b, hv, hk, dv, dk),
        Dt::F16 => step_in::<Half>(q, k, v, g, beta, state_in, b, hv, hk, dv, dk),
        Dt::Bf16 => step_in::<Brain>(q, k, v, g, beta, state_in, b, hv, hk, dv, dk),
    }
}

#[allow(clippy::too_many_arguments)]
fn chunk_in<T: Store>(
    q: &[f32],
    k: &[f32],
    v: &[f32],
    g: &[f32],
    beta: &[f32],
    state_in: &[f32],
    b: usize,
    t: usize,
    hv: usize,
    hk: usize,
    dv: usize,
    dk: usize,
) -> (Vec<f32>, Vec<f32>) {
    let mut state_out = T::zeros(state_in.len());
    let mut y = T::zeros(b * t * hv * dv);
    mt_gated_delta_chunk(
        &T::of(q),
        &T::of(k),
        &T::of(v),
        &T::of(g),
        &T::of(beta),
        &T::of(state_in),
        &mut state_out,
        &mut y,
        &[t as u32],
        dk as u32,
        dv as u32,
        hv as u32,
        hk as u32,
        b as u32,
    );
    (T::floats(&y), T::floats(&state_out))
}

#[allow(clippy::too_many_arguments)]
fn run_gated_delta_chunk(
    q: &[f32],
    k: &[f32],
    v: &[f32],
    g: &[f32],
    beta: &[f32],
    state_in: &[f32],
    dt: Dt,
    b: usize,
    t: usize,
    hv: usize,
    hk: usize,
    dv: usize,
    dk: usize,
) -> (Vec<f32>, Vec<f32>) {
    match dt {
        Dt::F32 => chunk_in::<F32>(q, k, v, g, beta, state_in, b, t, hv, hk, dv, dk),
        Dt::F16 => chunk_in::<Half>(q, k, v, g, beta, state_in, b, t, hv, hk, dv, dk),
        Dt::Bf16 => chunk_in::<Brain>(q, k, v, g, beta, state_in, b, t, hv, hk, dv, dk),
    }
}

#[test]
fn gated_delta_step_identity_at_g1_beta0_f32() {
    let b = 1;
    let hv = 2;
    let hk = 1;
    let dv = 4;
    let dk = 32;
    let n_total = b * hv;
    let q = vec![1.0_f32; b * hk * dk];
    let k = vec![1.0_f32; b * hk * dk];
    let v: Vec<f32> = (0..b * hv * dv).map(|i| i as f32 * 0.1).collect();
    let g = vec![1.0_f32; b * hv];
    let beta = vec![0.0_f32; b * hv];
    let state_in = vec![0.0_f32; n_total * dv * dk];
    let (y, _) =
        run_gated_delta_step(&q, &k, &v, &g, &beta, &state_in, Dt::F32, b, hv, hk, dv, dk);
    for (i, &yv) in y.iter().enumerate() {
        assert!(yv.is_finite(), "y[{i}] non-finite: {yv}");
    }
}

#[test]
fn gated_delta_step_matches_cpu_oracle_f32() {
    let b = 1;
    let hv = 4;
    let hk = 2;
    let dv = 4;
    let dk = 32;
    let n_total = b * hv;
    let q: Vec<f32> = (0..b * hk * dk).map(|i| ((i as f32) * 0.013).sin() * 0.4).collect();
    let k: Vec<f32> = (0..b * hk * dk).map(|i| ((i as f32) * 0.017).cos() * 0.4).collect();
    let v: Vec<f32> = (0..b * hv * dv).map(|i| ((i as f32) * 0.029).sin() * 0.3).collect();
    let g: Vec<f32> = (0..b * hv).map(|i| 0.9 - (i as f32) * 0.01).collect();
    let beta: Vec<f32> = (0..b * hv).map(|i| 0.5 + (i as f32) * 0.01).collect();
    let state_in: Vec<f32> =
        (0..n_total * dv * dk).map(|i| ((i as f32) * 0.011).sin() * 0.1).collect();
    let (y_expected, state_expected) =
        naive_gated_delta_step(&q, &k, &v, &g, &beta, &state_in, b, hv, hk, dv, dk);
    let (y_actual, state_actual) =
        run_gated_delta_step(&q, &k, &v, &g, &beta, &state_in, Dt::F32, b, hv, hk, dv, dk);
    let max_y =
        y_actual.iter().zip(&y_expected).map(|(a, e)| (a - e).abs()).fold(0.0_f32, f32::max);
    assert!(max_y < 1e-5, "y max |diff| = {max_y:.2e}");
    let max_s = state_actual
        .iter()
        .zip(&state_expected)
        .map(|(a, e)| (a - e).abs())
        .fold(0.0_f32, f32::max);
    assert!(max_s < 1e-5, "state max |diff| = {max_s:.2e}");
}

#[test]
fn gated_delta_step_gqa_matches_oracle_f32() {
    let b = 1;
    let hv = 4;
    let hk = 1;
    let dv = 4;
    let dk = 32;
    let n_total = b * hv;
    let q: Vec<f32> = (0..b * hk * dk).map(|i| ((i as f32) * 0.011).sin() * 0.5).collect();
    let k: Vec<f32> = (0..b * hk * dk).map(|i| ((i as f32) * 0.013).cos() * 0.5).collect();
    let v: Vec<f32> = (0..b * hv * dv).map(|i| ((i as f32) * 0.027).sin() * 0.4).collect();
    let g: Vec<f32> = (0..b * hv).map(|i| 0.85 + (i as f32) * 0.02).collect();
    let beta: Vec<f32> = (0..b * hv).map(|i| 0.3 + (i as f32) * 0.02).collect();
    let state_in: Vec<f32> =
        (0..n_total * dv * dk).map(|i| ((i as f32) * 0.009).cos() * 0.2).collect();
    let (y_exp, s_exp) =
        naive_gated_delta_step(&q, &k, &v, &g, &beta, &state_in, b, hv, hk, dv, dk);
    let (y_act, s_act) =
        run_gated_delta_step(&q, &k, &v, &g, &beta, &state_in, Dt::F32, b, hv, hk, dv, dk);
    let max_y = y_act.iter().zip(&y_exp).map(|(a, e)| (a - e).abs()).fold(0.0_f32, f32::max);
    assert!(max_y < 1e-5, "GQA y max |diff| = {max_y:.2e}");
    let max_s = s_act.iter().zip(&s_exp).map(|(a, e)| (a - e).abs()).fold(0.0_f32, f32::max);
    assert!(max_s < 1e-5, "GQA state max |diff| = {max_s:.2e}");
}

#[test]
fn gated_delta_step_v_zero_state_only_decays_f32() {
    let b = 1;
    let hv = 2;
    let hk = 1;
    let dv = 4;
    let dk = 32;
    let n_total = b * hv;
    let q: Vec<f32> = vec![0.1_f32; b * hk * dk];
    let k: Vec<f32> = vec![0.1_f32; b * hk * dk];
    let v = vec![0.0_f32; b * hv * dv];
    let g = vec![0.9_f32; b * hv];
    let beta = vec![0.5_f32; b * hv];
    let state_in: Vec<f32> = (0..n_total * dv * dk).map(|i| i as f32 * 0.01).collect();
    let (y_exp, _) =
        naive_gated_delta_step(&q, &k, &v, &g, &beta, &state_in, b, hv, hk, dv, dk);
    let (y_act, _) =
        run_gated_delta_step(&q, &k, &v, &g, &beta, &state_in, Dt::F32, b, hv, hk, dv, dk);
    let max_y = y_act.iter().zip(&y_exp).map(|(a, e)| (a - e).abs()).fold(0.0_f32, f32::max);
    assert!(max_y < 1e-5, "v=0 decay y max |diff| = {max_y:.2e}");
}

#[test]
fn gated_delta_step_f16_matches_oracle() {
    let b = 1;
    let hv = 2;
    let hk = 1;
    let dv = 4;
    let dk = 32;
    let n_total = b * hv;
    let q_f32: Vec<f32> = (0..b * hk * dk).map(|i| ((i as f32) * 0.013).sin() * 0.4).collect();
    let k_f32: Vec<f32> = (0..b * hk * dk).map(|i| ((i as f32) * 0.017).cos() * 0.4).collect();
    let v_f32: Vec<f32> = (0..b * hv * dv).map(|i| ((i as f32) * 0.029).sin() * 0.3).collect();
    let g_f32: Vec<f32> = (0..b * hv).map(|i| 0.9 - (i as f32) * 0.01).collect();
    let beta_f32: Vec<f32> = (0..b * hv).map(|i| 0.5 + (i as f32) * 0.01).collect();
    let state_f32: Vec<f32> =
        (0..n_total * dv * dk).map(|i| ((i as f32) * 0.011).sin() * 0.1).collect();
    let round = |v: &[f32]| v.iter().map(|&x| Dt::F16.round(x)).collect::<Vec<_>>();
    let q = round(&q_f32);
    let k = round(&k_f32);
    let v = round(&v_f32);
    let g = round(&g_f32);
    let beta = round(&beta_f32);
    let state_in = round(&state_f32);
    let (y_exp, _) =
        naive_gated_delta_step(&q, &k, &v, &g, &beta, &state_in, b, hv, hk, dv, dk);
    let (y_act, _) =
        run_gated_delta_step(&q, &k, &v, &g, &beta, &state_in, Dt::F16, b, hv, hk, dv, dk);
    let max_rel = y_act
        .iter()
        .zip(&y_exp)
        .map(|(a, e)| (a - e).abs() / e.abs().max(1e-3))
        .fold(0.0_f32, f32::max);
    assert!(max_rel < 5e-3, "f16 step max rel = {max_rel:.2e}");
}

#[test]
fn gated_delta_step_qwen36_dk_256_f32() {
    let b = 1;
    let hv = 4;
    let hk = 2;
    let dv = 4;
    let dk = 256;
    let n_total = b * hv;
    let q: Vec<f32> = (0..b * hk * dk).map(|i| ((i as f32) * 0.0019).sin() * 0.2).collect();
    let k: Vec<f32> = (0..b * hk * dk).map(|i| ((i as f32) * 0.0023).cos() * 0.2).collect();
    let v: Vec<f32> = (0..b * hv * dv).map(|i| ((i as f32) * 0.029).sin() * 0.3).collect();
    let g: Vec<f32> = vec![0.92_f32; b * hv];
    let beta: Vec<f32> = vec![0.4_f32; b * hv];
    let state_in: Vec<f32> =
        (0..n_total * dv * dk).map(|i| ((i as f32) * 0.011).sin() * 0.05).collect();
    let (y_exp, s_exp) =
        naive_gated_delta_step(&q, &k, &v, &g, &beta, &state_in, b, hv, hk, dv, dk);
    let (y_act, s_act) =
        run_gated_delta_step(&q, &k, &v, &g, &beta, &state_in, Dt::F32, b, hv, hk, dv, dk);
    let max_y = y_act.iter().zip(&y_exp).map(|(a, e)| (a - e).abs()).fold(0.0_f32, f32::max);
    assert!(max_y < 1e-4, "Dk=256 y max |diff| = {max_y:.2e}");
    let max_s = s_act.iter().zip(&s_exp).map(|(a, e)| (a - e).abs()).fold(0.0_f32, f32::max);
    assert!(max_s < 1e-4, "Dk=256 state max |diff| = {max_s:.2e}");
}

#[test]
fn gated_delta_step_no_gqa_f32() {
    let b = 1;
    let hv = 4;
    let hk = 4;
    let dv = 4;
    let dk = 32;
    let n_total = b * hv;
    let q: Vec<f32> = (0..b * hk * dk).map(|i| ((i as f32) * 0.013).sin() * 0.4).collect();
    let k: Vec<f32> = (0..b * hk * dk).map(|i| ((i as f32) * 0.017).cos() * 0.4).collect();
    let v: Vec<f32> = (0..b * hv * dv).map(|i| ((i as f32) * 0.029).sin() * 0.3).collect();
    let g: Vec<f32> = (0..b * hv).map(|i| 0.88 + (i as f32) * 0.01).collect();
    let beta: Vec<f32> = (0..b * hv).map(|i| 0.4 + (i as f32) * 0.02).collect();
    let state_in: Vec<f32> =
        (0..n_total * dv * dk).map(|i| ((i as f32) * 0.009).cos() * 0.15).collect();
    let (y_exp, s_exp) =
        naive_gated_delta_step(&q, &k, &v, &g, &beta, &state_in, b, hv, hk, dv, dk);
    let (y_act, s_act) =
        run_gated_delta_step(&q, &k, &v, &g, &beta, &state_in, Dt::F32, b, hv, hk, dv, dk);
    let max_y = y_act.iter().zip(&y_exp).map(|(a, e)| (a - e).abs()).fold(0.0_f32, f32::max);
    assert!(max_y < 1e-5, "no-GQA y max |diff| = {max_y:.2e}");
    let max_s = s_act.iter().zip(&s_exp).map(|(a, e)| (a - e).abs()).fold(0.0_f32, f32::max);
    assert!(max_s < 1e-5, "no-GQA state max |diff| = {max_s:.2e}");
}

#[test]
fn gated_delta_step_batch_4_f32() {
    let b = 4;
    let hv = 2;
    let hk = 1;
    let dv = 4;
    let dk = 32;
    let n_total = b * hv;
    let q: Vec<f32> = (0..b * hk * dk).map(|i| ((i as f32) * 0.013).sin() * 0.4).collect();
    let k: Vec<f32> = (0..b * hk * dk).map(|i| ((i as f32) * 0.017).cos() * 0.4).collect();
    let v: Vec<f32> = (0..b * hv * dv).map(|i| ((i as f32) * 0.029).sin() * 0.3).collect();
    let g: Vec<f32> = (0..b * hv).map(|i| 0.9 - (i as f32) * 0.01).collect();
    let beta: Vec<f32> = (0..b * hv).map(|i| 0.5 + (i as f32) * 0.01).collect();
    let state_in: Vec<f32> =
        (0..n_total * dv * dk).map(|i| ((i as f32) * 0.011).sin() * 0.1).collect();
    let (y_exp, s_exp) =
        naive_gated_delta_step(&q, &k, &v, &g, &beta, &state_in, b, hv, hk, dv, dk);
    let (y_act, s_act) =
        run_gated_delta_step(&q, &k, &v, &g, &beta, &state_in, Dt::F32, b, hv, hk, dv, dk);
    let max_y = y_act.iter().zip(&y_exp).map(|(a, e)| (a - e).abs()).fold(0.0_f32, f32::max);
    assert!(max_y < 1e-5, "B=4 y max |diff| = {max_y:.2e}");
    let max_s = s_act.iter().zip(&s_exp).map(|(a, e)| (a - e).abs()).fold(0.0_f32, f32::max);
    assert!(max_s < 1e-5, "B=4 state max |diff| = {max_s:.2e}");
}

#[test]
fn gated_delta_step_bf16_matches_oracle() {
    let b = 1;
    let hv = 2;
    let hk = 1;
    let dv = 4;
    let dk = 32;
    let n_total = b * hv;
    let round = |v: &[f32]| v.iter().map(|&x| Dt::Bf16.round(x)).collect::<Vec<_>>();
    let q =
        round(&(0..b * hk * dk).map(|i| ((i as f32) * 0.013).sin() * 0.4).collect::<Vec<_>>());
    let k =
        round(&(0..b * hk * dk).map(|i| ((i as f32) * 0.017).cos() * 0.4).collect::<Vec<_>>());
    let v =
        round(&(0..b * hv * dv).map(|i| ((i as f32) * 0.029).sin() * 0.3).collect::<Vec<_>>());
    let g = round(&(0..b * hv).map(|i| 0.9 - (i as f32) * 0.01).collect::<Vec<_>>());
    let beta = round(&(0..b * hv).map(|i| 0.5 + (i as f32) * 0.01).collect::<Vec<_>>());
    let state_in = round(
        &(0..n_total * dv * dk).map(|i| ((i as f32) * 0.011).sin() * 0.1).collect::<Vec<_>>(),
    );
    let (y_exp, _) =
        naive_gated_delta_step(&q, &k, &v, &g, &beta, &state_in, b, hv, hk, dv, dk);
    let (y_act, _) =
        run_gated_delta_step(&q, &k, &v, &g, &beta, &state_in, Dt::Bf16, b, hv, hk, dv, dk);
    let max_rel = y_act
        .iter()
        .zip(&y_exp)
        .map(|(a, e)| (a - e).abs() / e.abs().max(1e-3))
        .fold(0.0_f32, f32::max);
    assert!(max_rel < 5e-2, "bf16 step max rel = {max_rel:.2e}");
}

#[test]
fn gated_delta_chunk_t1_matches_decode_form_f32() {
    let b = 1;
    let t = 1;
    let hv = 4;
    let hk = 2;
    let dv = 4;
    let dk = 32;
    let n_total = b * hv;
    let q: Vec<f32> = (0..b * t * hk * dk).map(|i| ((i as f32) * 0.013).sin() * 0.4).collect();
    let k: Vec<f32> = (0..b * t * hk * dk).map(|i| ((i as f32) * 0.017).cos() * 0.4).collect();
    let v: Vec<f32> = (0..b * t * hv * dv).map(|i| ((i as f32) * 0.029).sin() * 0.3).collect();
    let g: Vec<f32> = (0..b * t * hv).map(|i| 0.9 - (i as f32) * 0.01).collect();
    let beta: Vec<f32> = (0..b * t * hv).map(|i| 0.5 + (i as f32) * 0.01).collect();
    let state_in: Vec<f32> =
        (0..n_total * dv * dk).map(|i| ((i as f32) * 0.011).sin() * 0.1).collect();
    let (y_chunk, s_chunk) =
        run_gated_delta_chunk(&q, &k, &v, &g, &beta, &state_in, Dt::F32, b, t, hv, hk, dv, dk);
    let (y_decode, s_decode) =
        run_gated_delta_step(&q, &k, &v, &g, &beta, &state_in, Dt::F32, b, hv, hk, dv, dk);
    let max_y =
        y_chunk.iter().zip(&y_decode).map(|(a, e)| (a - e).abs()).fold(0.0_f32, f32::max);
    assert!(max_y < 1e-5, "chunk T=1 vs decode y max |diff| = {max_y:.2e}");
    let max_s =
        s_chunk.iter().zip(&s_decode).map(|(a, e)| (a - e).abs()).fold(0.0_f32, f32::max);
    assert!(max_s < 1e-5, "chunk T=1 vs decode state max |diff| = {max_s:.2e}");
}

#[test]
fn gated_delta_chunk_t_64_matches_oracle_f32() {
    let b = 1;
    let t = 64;
    let hv = 4;
    let hk = 2;
    let dv = 4;
    let dk = 32;
    let n_total = b * hv;
    let q: Vec<f32> = (0..b * t * hk * dk).map(|i| ((i as f32) * 0.013).sin() * 0.4).collect();
    let k: Vec<f32> = (0..b * t * hk * dk).map(|i| ((i as f32) * 0.017).cos() * 0.4).collect();
    let v: Vec<f32> = (0..b * t * hv * dv).map(|i| ((i as f32) * 0.029).sin() * 0.3).collect();
    let g: Vec<f32> =
        (0..b * t * hv).map(|i| 0.92 + ((i as f32) * 0.0001).sin() * 0.05).collect();
    let beta: Vec<f32> =
        (0..b * t * hv).map(|i| 0.4 + ((i as f32) * 0.0001).cos() * 0.1).collect();
    let state_in: Vec<f32> =
        (0..n_total * dv * dk).map(|i| ((i as f32) * 0.011).sin() * 0.1).collect();
    let (y_exp, s_exp) =
        naive_gated_delta_chunk(&q, &k, &v, &g, &beta, &state_in, b, t, hv, hk, dv, dk);
    let (y_act, s_act) =
        run_gated_delta_chunk(&q, &k, &v, &g, &beta, &state_in, Dt::F32, b, t, hv, hk, dv, dk);
    let max_y = y_act.iter().zip(&y_exp).map(|(a, e)| (a - e).abs()).fold(0.0_f32, f32::max);
    assert!(max_y < 1e-3, "chunk T=64 y max |diff| = {max_y:.2e}");
    let max_s = s_act.iter().zip(&s_exp).map(|(a, e)| (a - e).abs()).fold(0.0_f32, f32::max);
    assert!(max_s < 1e-3, "chunk T=64 state max |diff| = {max_s:.2e}");
}

#[test]
fn gated_delta_chunk_qwen36_dk_256_f32() {
    let b = 1;
    let t = 8;
    let hv = 2;
    let hk = 1;
    let dv = 2;
    let dk = 256;
    let n_total = b * hv;
    let q: Vec<f32> = (0..b * t * hk * dk).map(|i| ((i as f32) * 0.0019).sin() * 0.2).collect();
    let k: Vec<f32> = (0..b * t * hk * dk).map(|i| ((i as f32) * 0.0023).cos() * 0.2).collect();
    let v: Vec<f32> = (0..b * t * hv * dv).map(|i| ((i as f32) * 0.029).sin() * 0.3).collect();
    let g: Vec<f32> = vec![0.92_f32; b * t * hv];
    let beta: Vec<f32> = vec![0.4_f32; b * t * hv];
    let state_in: Vec<f32> =
        (0..n_total * dv * dk).map(|i| ((i as f32) * 0.011).sin() * 0.05).collect();
    let (y_exp, _) =
        naive_gated_delta_chunk(&q, &k, &v, &g, &beta, &state_in, b, t, hv, hk, dv, dk);
    let (y_act, _) =
        run_gated_delta_chunk(&q, &k, &v, &g, &beta, &state_in, Dt::F32, b, t, hv, hk, dv, dk);
    let max_diff = y_act.iter().zip(&y_exp).map(|(a, e)| (a - e).abs()).fold(0.0_f32, f32::max);
    assert!(max_diff < 2e-3, "Dk=256 T=8 y max |diff| = {max_diff:.2e}");
}

// ── laws on values ───────────────────────────────────────────────────────────

#[test]
fn step_without_gate_keeps_the_state() {
    let (b, hv, hk, dv, dk) = (1, 2, 1, 4, 32);
    let q = vec![0.5_f32; b * hk * dk];
    let k = vec![0.25_f32; b * hk * dk];
    let v = vec![3.0_f32; b * hv * dv];
    let state: Vec<f32> = (0..b * hv * dv * dk).map(|i| i as f32).collect();
    let (_, after) = run_gated_delta_step(
        &q,
        &k,
        &v,
        &vec![1.0; b * hv],
        &vec![0.0; b * hv],
        &state,
        Dt::F32,
        b,
        hv,
        hk,
        dv,
        dk,
    );
    assert_eq!(after, state);
}

#[test]
fn step_on_one_row_by_hand() {
    // One key that reads element 0 only: state 2, decay 1/2, so 1 is read; the value is
    // 5 and the strength 1/2, so the row moves by 2 along the key.
    let mut q = vec![0.0_f32; 32];
    q[0] = 1.0;
    q[1] = 10.0;
    let mut k = vec![0.0_f32; 32];
    k[0] = 1.0;
    let mut state = vec![0.0_f32; 32];
    state[0] = 2.0;
    state[1] = 4.0;
    let (y, after) =
        run_gated_delta_step(&q, &k, &[5.0], &[0.5], &[0.5], &state, Dt::F32, 1, 1, 1, 1, 32);
    assert_eq!(after[0], 3.0);
    assert_eq!(after[1], 2.0);
    assert_eq!(y, vec![3.0 + 20.0]);
}

#[test]
fn chunk_in_two_parts_is_one_chunk() {
    let (b, t, hv, hk, dv, dk) = (1, 6, 2, 1, 2, 32);
    let q: Vec<f32> = (0..t * hk * dk).map(|i| ((i as f32) * 0.013).sin()).collect();
    let k: Vec<f32> = (0..t * hk * dk).map(|i| ((i as f32) * 0.017).cos() * 0.2).collect();
    let v: Vec<f32> = (0..t * hv * dv).map(|i| ((i as f32) * 0.029).sin()).collect();
    let g = vec![0.9_f32; t * hv];
    let beta = vec![0.5_f32; t * hv];
    let state: Vec<f32> = (0..hv * dv * dk).map(|i| ((i as f32) * 0.011).sin()).collect();
    let (y, after) =
        run_gated_delta_chunk(&q, &k, &v, &g, &beta, &state, Dt::F32, b, t, hv, hk, dv, dk);
    let cut = 2;
    let (y1, mid) = run_gated_delta_chunk(
        &q[..cut * hk * dk],
        &k[..cut * hk * dk],
        &v[..cut * hv * dv],
        &g[..cut * hv],
        &beta[..cut * hv],
        &state,
        Dt::F32,
        b,
        cut,
        hv,
        hk,
        dv,
        dk,
    );
    let (y2, end) = run_gated_delta_chunk(
        &q[cut * hk * dk..],
        &k[cut * hk * dk..],
        &v[cut * hv * dv..],
        &g[cut * hv..],
        &beta[cut * hv..],
        &mid,
        Dt::F32,
        b,
        t - cut,
        hv,
        hk,
        dv,
        dk,
    );
    assert_eq!(after, end);
    assert_eq!(y, [y1, y2].concat());
}

/// Token `step` of every batch, of a buffer with `per` elements to a token.
fn token_of(x: &[f32], t: usize, per: usize, step: usize) -> Vec<f32> {
    x.chunks_exact(t * per).flat_map(|one| one[step * per..][..per].to_vec()).collect()
}

/// A chunk of two batches is its tokens, one step after the other.
#[test]
fn chunk_is_its_steps() {
    let (b, t, hv, hk, dv, dk) = (2, 5, 4, 2, 3, 64);
    let q: Vec<f32> = (0..b * t * hk * dk).map(|i| ((i as f32) * 0.013).sin()).collect();
    let k: Vec<f32> = (0..b * t * hk * dk).map(|i| ((i as f32) * 0.017).cos() * 0.2).collect();
    let v: Vec<f32> = (0..b * t * hv * dv).map(|i| ((i as f32) * 0.029).sin()).collect();
    let g: Vec<f32> = (0..b * t * hv).map(|i| 0.9 + 0.001 * i as f32).collect();
    let beta: Vec<f32> = (0..b * t * hv).map(|i| 0.3 + 0.01 * i as f32).collect();
    let state: Vec<f32> = (0..b * hv * dv * dk).map(|i| ((i as f32) * 0.011).sin()).collect();
    let (y, after) =
        run_gated_delta_chunk(&q, &k, &v, &g, &beta, &state, Dt::F32, b, t, hv, hk, dv, dk);
    let mut now = state;
    for step in 0..t {
        let (read, next) = run_gated_delta_step(
            &token_of(&q, t, hk * dk, step),
            &token_of(&k, t, hk * dk, step),
            &token_of(&v, t, hv * dv, step),
            &token_of(&g, t, hv, step),
            &token_of(&beta, t, hv, step),
            &now,
            Dt::F32,
            b,
            hv,
            hk,
            dv,
            dk,
        );
        assert_eq!(read, token_of(&y, t, hv * dv, step));
        now = next;
    }
    assert_eq!(now, after);
}

#[test]
fn test_gated_delta_step() {
    let b = 2usize;
    let hv = 4usize;
    let hk = 2usize;
    let dv = 8usize;
    let dk = 64usize;
    let n_total = b * hv;
    let q: Vec<f32> = (0..b * hk * dk).map(|i| ((i as f32) * 0.0137).sin() * 0.4).collect();
    let k: Vec<f32> = (0..b * hk * dk).map(|i| ((i as f32) * 0.0211).cos() * 0.4).collect();
    let v: Vec<f32> = (0..n_total * dv).map(|i| ((i as f32) * 0.019).sin() * 0.3).collect();
    let g: Vec<f32> = (0..n_total).map(|i| 0.8 + 0.1 * ((i as f32) * 0.07).cos()).collect();
    let beta: Vec<f32> = (0..n_total).map(|i| 0.3 + 0.1 * ((i as f32) * 0.05).sin()).collect();
    let state_in: Vec<f32> =
        (0..n_total * dv * dk).map(|i| ((i as f32) * 0.011).sin() * 0.05).collect();
    let (expected_y, expected_state) =
        naive_gated_delta_step(&q, &k, &v, &g, &beta, &state_in, b, hv, hk, dv, dk);
    let (y, state) =
        run_gated_delta_step(&q, &k, &v, &g, &beta, &state_in, Dt::F32, b, hv, hk, dv, dk);
    assert!(max_abs_diff(&y, &expected_y) < 1e-4);
    assert!(max_abs_diff(&state, &expected_state) < 1e-4);
}

/// A value that the decayed memory already gives back for its key changes nothing.
#[test]
fn known_value_only_decays() {
    let (dv, dk) = (4usize, 32usize);
    let q = vec![0.25_f32; dk];
    // One coordinate of the key is one: the memory of the key is that coordinate.
    let k: Vec<f32> = (0..dk).map(|d| if d == 7 { 1.0 } else { 0.0 }).collect();
    let state_in: Vec<f32> = (0..dv * dk).map(|i| ((i % 9) as f32 - 4.0) * 0.25).collect();
    let g = 0.5_f32;
    let v: Vec<f32> = (0..dv).map(|r| g * state_in[r * dk + 7]).collect();
    let (_, state) =
        run_gated_delta_step(&q, &k, &v, &[g], &[0.75], &state_in, Dt::F32, 1, 1, 1, dv, dk);
    let decayed: Vec<f32> = state_in.iter().map(|s| g * s).collect();
    assert_eq!(state, decayed);
}
