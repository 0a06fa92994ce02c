use metaltile_std::dtype::Dt;
use metaltile_std::scalar::{Element, Fun, Op, Rel, Scalar};
use metaltile_std::ssm::{conv1d_causal_step, mt_ssm_step, ssm_step, ssm_step_a2d};

// ── the arithmetic of machine floats ─────────────────────────────────────────

#[derive(Clone, Copy, Debug, PartialEq)]
struct F32(f32);

impl Scalar for F32 {
    type Cond = bool;
    type Index = u32;

    fn dup(&self) -> F32 {
        *self
    }
    fn ratio(num: i64, den: u64) -> F32 {
        F32((num as f64 / den as f64) as f32)
    }
    fn from_u32(n: u32) -> F32 {
        F32(n as f32)
    }
    fn neg_infinity() -> F32 {
        F32(f32::NEG_INFINITY)
    }
    fn nan() -> F32 {
        F32(f32::NAN)
    }
    fn apply(f: Fun, a: &F32) -> F32 {
        let x = a.0;
        F32(match f {
            Fun::Neg => -x,
            Fun::Exp => x.exp(),
            Fun::Exp2 => x.exp2(),
            Fun::Log => x.ln(),
            Fun::Log2 => x.log2(),
            Fun::Sqrt => x.sqrt(),
            Fun::Rsqrt => 1.0 / x.sqrt(),
            Fun::Sin => x.sin(),
            Fun::Cos => x.cos(),
            Fun::Floor => x.floor(),
            Fun::Silu => x / (1.0 + (-x).exp()),
            Fun::Gelu => 0.5 * x * (1.0 + (0.797_884_6 * (x + 0.044715 * x * x * x)).tanh()),
            Fun::Sigmoid => 1.0 / (1.0 + (-x).exp()),
        })
    }
    fn combine(op: Op, a: &F32, b: &F32) -> F32 {
        let (x, y) = (a.0, b.0);
        F32(match op {
            Op::Add => x + y,
            Op::Sub => x - y,
            Op::Mul => x * y,
            Op::Div => x / y,
            Op::Max => x.max(y),
            Op::Min => x.min(y),
        })
    }
    fn relate(rel: Rel, a: &F32, b: &F32) -> bool {
        match rel {
            Rel::Less => a.0 < b.0,
            Rel::AtLeast => a.0 >= b.0,
        }
    }
    fn always() -> bool {
        true
    }
    fn both(c: &bool, d: &bool) -> bool {
        *c && *d
    }
    fn not(c: &bool) -> bool {
        !*c
    }
    fn select(c: &bool, a: &F32, b: &F32) -> F32 {
        if *c { *a } else { *b }
    }
    fn index(i: u32) -> u32 {
        i
    }
    fn select_index(c: &bool, i: &u32, j: &u32) -> u32 {
        if *c { *i } else { *j }
    }
    fn index_value(i: &u32) -> F32 {
        F32(*i as f32)
    }
    fn trunc(a: &F32) -> u32 {
        a.0 as u32
    }
    fn resolve(i: &u32) -> Option<u32> {
        Some(*i)
    }

    // What contracts speak of: never run.
    fn rational(_: i64, _: u64) -> F32 {
        unreachable!()
    }
    fn natural(_: u32) -> F32 {
        unreachable!()
    }
    fn lowest() -> F32 {
        unreachable!()
    }
    fn undefined() -> F32 {
        unreachable!()
    }
    fn applied(_: Fun, _: F32) -> F32 {
        unreachable!()
    }
    fn combined(_: Op, _: F32, _: F32) -> F32 {
        unreachable!()
    }
    fn related(_: Rel, _: F32, _: F32) -> bool {
        unreachable!()
    }
    fn certain() -> bool {
        unreachable!()
    }
    fn conjoined(_: bool, _: bool) -> bool {
        unreachable!()
    }
    fn negated(_: bool) -> bool {
        unreachable!()
    }
    fn chosen(_: bool, _: F32, _: F32) -> F32 {
        unreachable!()
    }
    fn position(_: u32) -> u32 {
        unreachable!()
    }
    fn chosen_index(_: bool, _: u32, _: u32) -> u32 {
        unreachable!()
    }
    fn of_index(_: u32) -> F32 {
        unreachable!()
    }
    fn to_index(_: F32) -> u32 {
        unreachable!()
    }
    fn resolved(_: u32) -> Option<u32> {
        unreachable!()
    }
}

fn wrap(v: &[f32]) -> Vec<F32> {
    v.iter().map(|x| F32(*x)).collect()
}

fn unwrap(v: &[F32]) -> Vec<f32> {
    v.iter().map(|x| x.0).collect()
}

fn max_abs_diff(a: &[f32], b: &[f32]) -> f32 {
    assert_eq!(a.len(), b.len());
    a.iter().zip(b).map(|(x, y)| (x - y).abs()).fold(0.0_f32, f32::max)
}

fn round_f16(v: f32) -> f32 {
    half::f16::from_f32(v).to_f32()
}

fn round_bf16(v: f32) -> f32 {
    half::bf16::from_f32(v).to_f32()
}

/// A float in a half-precision buffer.
#[derive(Clone, Copy, Debug, PartialEq)]
struct Half(f32);

impl Element<F32> for Half {
    fn widen(&self) -> F32 {
        F32(self.0)
    }
    fn narrow(a: &F32) -> Half {
        Half(round_f16(a.0))
    }
    fn stage(a: &F32) -> F32 {
        F32(round_f16(a.0))
    }
    fn copied(&self) -> Half {
        *self
    }

    // What contracts speak of: never run.
    fn widened(self) -> F32 {
        unreachable!()
    }
    fn narrowed(_: F32) -> Half {
        unreachable!()
    }
    fn staged(_: F32) -> F32 {
        unreachable!()
    }
}

/// A float in a bfloat buffer; a matrix tile stages it in half precision.
#[derive(Clone, Copy, Debug, PartialEq)]
struct Brain(f32);

impl Element<F32> for Brain {
    fn widen(&self) -> F32 {
        F32(self.0)
    }
    fn narrow(a: &F32) -> Brain {
        Brain(round_bf16(a.0))
    }
    fn stage(a: &F32) -> F32 {
        F32(round_f16(a.0))
    }
    fn copied(&self) -> Brain {
        *self
    }

    // What contracts speak of: never run.
    fn widened(self) -> F32 {
        unreachable!()
    }
    fn narrowed(_: F32) -> Brain {
        unreachable!()
    }
    fn staged(_: F32) -> F32 {
        unreachable!()
    }
}

/// The storage types of a launch.
trait Store: Element<F32> {
    fn of(v: &[f32]) -> Vec<Self> {
        v.iter().map(|x| Self::narrow(&F32(*x))).collect()
    }
    fn floats(v: &[Self]) -> Vec<f32> {
        v.iter().map(|x| x.widen().0).collect()
    }
    fn zeros(n: usize) -> Vec<Self> {
        (0..n).map(|_| Self::narrow(&F32(0.0))).collect()
    }
}

impl Store for F32 {}
impl Store for Half {}
impl Store for Brain {}

/// What storage makes of a float.
trait RoundFloat {
    fn round_to(self, dt: Dt) -> f32;
}

impl RoundFloat for f32 {
    fn round_to(self, dt: Dt) -> f32 {
        match dt {
            Dt::F16 => round_f16(self),
            _ => f32::from_bits(dt.round(self.to_bits())),
        }
    }
}

// ── oracles ──────────────────────────────────────────────────────────────────

fn naive_conv1d_causal_step(
    x: &[f32],
    w: &[f32],
    b: &[f32],
    state: &mut [f32],
    n_channels: usize,
    kernel_size: usize,
) -> Vec<f32> {
    let mut y = vec![0.0_f32; n_channels];
    let k_last = kernel_size - 1;
    for d in 0..n_channels {
        let mut acc = b[d] + w[k_last * n_channels + d] * x[d];
        for k in 0..k_last {
            acc += w[k * n_channels + d] * state[k * n_channels + d];
        }
        y[d] = acc;
    }
    for d in 0..n_channels {
        for k in 0..kernel_size.saturating_sub(2) {
            state[k * n_channels + d] = state[(k + 1) * n_channels + d];
        }
        if kernel_size >= 2 {
            state[(kernel_size - 2) * n_channels + d] = x[d];
        }
    }
    y
}

#[allow(clippy::too_many_arguments)]
fn naive_ssm_step(
    x: &[f32],
    a: &[f32],
    b_vec: &[f32],
    c_vec: &[f32],
    dt: &[f32],
    h_state: &mut [f32],
    n_heads: usize,
    head_dim: usize,
    state_dim: usize,
) -> Vec<f32> {
    let mut y = vec![0.0_f32; n_heads * head_dim];
    for h in 0..n_heads {
        let decay = (a[h] * dt[h]).exp();
        let h_base = h * state_dim * head_dim;
        for d in 0..head_dim {
            let x_d = x[h * head_dim + d];
            let mut y_d = 0.0_f32;
            for n in 0..state_dim {
                let h_idx = h_base + n * head_dim + d;
                let h_old = h_state[h_idx];
                let new_h = decay * h_old + dt[h] * b_vec[n] * x_d;
                h_state[h_idx] = new_h;
                y_d += c_vec[n] * new_h;
            }
            y[h * head_dim + d] = y_d;
        }
    }
    y
}

#[allow(clippy::too_many_arguments)]
fn naive_ssm_step_a2d(
    x: &[f32],
    a_log: &[f32],
    b: &[f32],
    c: &[f32],
    dt: &[f32],
    h: &mut [f32],
    n_heads: usize,
    head_dim: usize,
    state_dim: usize,
) -> Vec<f32> {
    let mut y = vec![0.0_f32; n_heads * head_dim];
    for hi in 0..n_heads {
        let dt_val = dt[hi];
        let h_base = hi * state_dim * head_dim;
        for d in 0..head_dim {
            let x_d = x[hi * head_dim + d];
            let channel = hi * head_dim + d;
            let a_log_base = channel * state_dim;
            let mut y_d = 0.0_f32;
            for n in 0..state_dim {
                let a_val = -a_log[a_log_base + n].exp();
                let decay = (a_val * dt_val).exp();
                let h_idx = h_base + n * head_dim + d;
                let h_old = h[h_idx];
                let new_h = decay * h_old + dt_val * b[n] * x_d;
                h[h_idx] = new_h;
                y_d += c[n] * new_h;
            }
            y[hi * head_dim + d] = y_d;
        }
    }
    y
}

#[allow(clippy::too_many_arguments)]
fn naive_mt_ssm_step(
    x: &[f32],
    a_log: &[f32],
    b_mat: &[f32],
    c_mat: &[f32],
    d_skip: &[f32],
    dt_in: &[f32],
    state_in: &[f32],
    n_total: usize,
    dh: usize,
    ds: usize,
    n_heads: usize,
    heads_per_group: usize,
) -> (Vec<f32>, Vec<f32>) {
    let mut state_out = vec![0.0_f32; state_in.len()];
    let mut out = vec![0.0_f32; n_total * dh];
    for n in 0..n_total {
        let h_idx = n % n_heads;
        let g_idx = n / heads_per_group;
        let dt_val = dt_in[n];
        let a_val = -(a_log[h_idx].exp());
        let da = (a_val * dt_val).exp();
        for d_idx in 0..dh {
            let x_val = x[n * dh + d_idx];
            let mut acc = 0.0_f32;
            for s_idx in 0..ds {
                let idx = n * dh * ds + d_idx * ds + s_idx;
                let bc_idx = g_idx * ds + s_idx;
                let db_by_x = x_val * dt_val * b_mat[bc_idx];
                let new_state = da * state_in[idx] + db_by_x;
                state_out[idx] = new_state;
                acc += new_state * c_mat[bc_idx];
            }
            out[n * dh + d_idx] = acc + x_val * d_skip[h_idx];
        }
    }
    (state_out, out)
}

// ── launches ─────────────────────────────────────────────────────────────────

fn conv_in<T: Store>(
    x: &[f32],
    w: &[f32],
    b: &[f32],
    state: &[f32],
    n_channels: usize,
    kernel_size: usize,
) -> (Vec<f32>, Vec<f32>) {
    let mut state = T::of(state);
    let mut y = T::zeros(n_channels);
    conv1d_causal_step(
        &T::of(x),
        &T::of(w),
        &T::of(b),
        &mut state,
        &mut y,
        n_channels as u32,
        kernel_size as u32,
    );
    (T::floats(&y), T::floats(&state))
}

fn run_conv1d_causal_step(
    x: &[f32],
    w: &[f32],
    b: &[f32],
    state: &[f32],
    dt: Dt,
    n_channels: usize,
    kernel_size: usize,
) -> (Vec<f32>, Vec<f32>) {
    match dt {
        Dt::F32 => conv_in::<F32>(x, w, b, state, n_channels, kernel_size),
        Dt::F16 => conv_in::<Half>(x, w, b, state, n_channels, kernel_size),
        Dt::Bf16 => conv_in::<Brain>(x, w, b, state, n_channels, kernel_size),
    }
}

#[allow(clippy::too_many_arguments)]
fn run_ssm_step(
    x: &[f32],
    a: &[f32],
    b_vec: &[f32],
    c_vec: &[f32],
    dt_in: &[f32],
    h_state: &[f32],
    dt: Dt,
    n_heads: usize,
    head_dim: usize,
    state_dim: usize,
) -> (Vec<f32>, Vec<f32>) {
    assert_eq!(dt, Dt::F32);
    assert_eq!(dt_in.len(), n_heads);
    let mut h = wrap(h_state);
    let mut y = wrap(&vec![0.0; n_heads * head_dim]);
    ssm_step(
        &wrap(x),
        &wrap(a),
        &wrap(b_vec),
        &wrap(c_vec),
        &wrap(dt_in),
        &mut h,
        &mut y,
        head_dim as u32,
        state_dim as u32,
    );
    (unwrap(&y), unwrap(&h))
}

#[allow(clippy::too_many_arguments)]
fn grouped_in<T: Store>(
    x: &[f32],
    a_log: &[f32],
    b_mat: &[f32],
    c_mat: &[f32],
    d_skip: &[f32],
    dt_in: &[f32],
    state_in: &[f32],
    n_total: usize,
    dh: usize,
    ds: usize,
    n_heads: usize,
    heads_per_group: usize,
) -> (Vec<f32>, Vec<f32>) {
    let mut state_out = T::zeros(state_in.len());
    let mut out = T::zeros(n_total * dh);
    mt_ssm_step(
        &T::of(x),
        &T::of(a_log),
        &T::of(b_mat),
        &T::of(c_mat),
        &T::of(d_skip),
        &T::of(dt_in),
        &T::of(state_in),
        &mut state_out,
        &mut out,
        dh as u32,
        ds as u32,
        n_heads as u32,
        heads_per_group as u32,
    );
    (T::floats(&state_out), T::floats(&out))
}

#[allow(clippy::too_many_arguments)]
fn run_mt_ssm_step(
    x: &[f32],
    a_log: &[f32],
    b_mat: &[f32],
    c_mat: &[f32],
    d_skip: &[f32],
    dt_in: &[f32],
    state_in: &[f32],
    dt: Dt,
    n_total: usize,
    dh: usize,
    ds: usize,
    n_heads: usize,
    heads_per_group: usize,
) -> (Vec<f32>, Vec<f32>) {
    match dt {
        Dt::F32 => grouped_in::<F32>(
            x, a_log, b_mat, c_mat, d_skip, dt_in, state_in, n_total, dh, ds, n_heads,
            heads_per_group,
        ),
        Dt::F16 => grouped_in::<Half>(
            x, a_log, b_mat, c_mat, d_skip, dt_in, state_in, n_total, dh, ds, n_heads,
            heads_per_group,
        ),
        Dt::Bf16 => grouped_in::<Brain>(
            x, a_log, b_mat, c_mat, d_skip, dt_in, state_in, n_total, dh, ds, n_heads,
            heads_per_group,
        ),
    }
}

#[test]
fn conv1d_causal_step_matches_oracle_f32() {
    let n_channels = 128usize;
    let kernel_size = 4usize;
    let x: Vec<f32> = (0..n_channels).map(|i| ((i as f32) * 0.013).sin()).collect();
    let w: Vec<f32> =
        (0..kernel_size * n_channels).map(|i| 0.1 + ((i as f32) * 0.019).cos() * 0.2).collect();
    let b: Vec<f32> = (0..n_channels).map(|i| (i as f32) * 0.001 - 0.05).collect();
    let mut state_oracle: Vec<f32> =
        (0..(kernel_size - 1) * n_channels).map(|i| ((i as f32) * 0.007).sin() * 0.5).collect();
    let state_initial = state_oracle.clone();
    let y_expected =
        naive_conv1d_causal_step(&x, &w, &b, &mut state_oracle, n_channels, kernel_size);
    let (y_actual, state_actual) =
        run_conv1d_causal_step(&x, &w, &b, &state_initial, Dt::F32, n_channels, kernel_size);
    let mut max_diff = 0.0_f32;
    for (a, e) in y_actual.iter().zip(y_expected.iter()) {
        max_diff = max_diff.max((a - e).abs());
    }
    assert!(max_diff < 1e-5, "conv1d y max |diff| = {max_diff:.2e}");
    let mut max_state_diff = 0.0_f32;
    for (a, e) in state_actual.iter().zip(state_oracle.iter()) {
        max_state_diff = max_state_diff.max((a - e).abs());
    }
    assert!(max_state_diff < 1e-6, "conv1d state shift max |diff| = {max_state_diff:.2e}");
}

#[test]
fn conv1d_causal_step_matches_oracle_f16() {
    let n_channels = 64usize;
    let kernel_size = 4usize;
    let x_f32: Vec<f32> = (0..n_channels).map(|i| ((i as f32) * 0.013).sin()).collect();
    let w_f32: Vec<f32> =
        (0..kernel_size * n_channels).map(|i| 0.1 + ((i as f32) * 0.019).cos() * 0.2).collect();
    let b_f32: Vec<f32> = (0..n_channels).map(|i| (i as f32) * 0.001 - 0.05).collect();
    let state_f32: Vec<f32> =
        (0..(kernel_size - 1) * n_channels).map(|i| ((i as f32) * 0.007).sin() * 0.5).collect();
    let round = |v: &[f32]| v.iter().map(|&x| x.round_to(Dt::F16)).collect::<Vec<f32>>();
    let x = round(&x_f32);
    let w = round(&w_f32);
    let b = round(&b_f32);
    let mut state_oracle = round(&state_f32);
    let y_expected =
        naive_conv1d_causal_step(&x, &w, &b, &mut state_oracle, n_channels, kernel_size);
    let (y_actual, _state_actual) = run_conv1d_causal_step(
        &x,
        &w,
        &b,
        &round(&state_f32),
        Dt::F16,
        n_channels,
        kernel_size,
    );
    let mut max_rel = 0.0_f32;
    for (a, e) in y_actual.iter().zip(y_expected.iter()) {
        let rel = (a - e).abs() / e.abs().max(1e-3);
        max_rel = max_rel.max(rel);
    }
    assert!(max_rel < 5e-3, "conv1d f16 max rel = {max_rel:.2e}");
}

#[test]
fn conv1d_causal_step_matches_oracle_bf16() {
    let n_channels = 64usize;
    let kernel_size = 4usize;
    let round = |v: &[f32]| v.iter().map(|&x| x.round_to(Dt::Bf16)).collect::<Vec<f32>>();
    let x_f32: Vec<f32> = (0..n_channels).map(|i| ((i as f32) * 0.013).sin()).collect();
    let w_f32: Vec<f32> =
        (0..kernel_size * n_channels).map(|i| 0.1 + ((i as f32) * 0.019).cos() * 0.2).collect();
    let b_f32: Vec<f32> = (0..n_channels).map(|i| (i as f32) * 0.001 - 0.05).collect();
    let state_f32: Vec<f32> =
        (0..(kernel_size - 1) * n_channels).map(|i| ((i as f32) * 0.007).sin() * 0.5).collect();
    let x = round(&x_f32);
    let w = round(&w_f32);
    let b = round(&b_f32);
    let mut state_oracle = round(&state_f32);
    let y_expected =
        naive_conv1d_causal_step(&x, &w, &b, &mut state_oracle, n_channels, kernel_size);
    let (y_actual, _state_actual) = run_conv1d_causal_step(
        &x,
        &w,
        &b,
        &round(&state_f32),
        Dt::Bf16,
        n_channels,
        kernel_size,
    );
    let mut max_rel = 0.0_f32;
    for (a, e) in y_actual.iter().zip(y_expected.iter()) {
        let rel = (a - e).abs() / e.abs().max(1e-3);
        max_rel = max_rel.max(rel);
    }
    assert!(max_rel < 5e-2, "conv1d bf16 max rel = {max_rel:.2e}");
}

#[test]
fn ssm_step_matches_oracle_f32() {
    let n_heads = 4usize;
    let head_dim = 16usize;
    let state_dim = 8usize;
    let x: Vec<f32> =
        (0..n_heads * head_dim).map(|i| ((i as f32) * 0.013).sin() * 0.3).collect();
    let a: Vec<f32> = (0..n_heads).map(|i| -0.5 - (i as f32) * 0.1).collect();
    let b_vec: Vec<f32> = (0..state_dim).map(|i| 0.1 + (i as f32) * 0.05).collect();
    let c_vec: Vec<f32> = (0..state_dim).map(|i| 0.2 - (i as f32) * 0.02).collect();
    let dt_in: Vec<f32> = (0..n_heads).map(|i| 0.01 + (i as f32) * 0.003).collect();
    let mut h_state_oracle: Vec<f32> =
        (0..n_heads * state_dim * head_dim).map(|i| ((i as f32) * 0.011).cos() * 0.1).collect();
    let h_state_initial = h_state_oracle.clone();
    let y_expected = naive_ssm_step(
        &x,
        &a,
        &b_vec,
        &c_vec,
        &dt_in,
        &mut h_state_oracle,
        n_heads,
        head_dim,
        state_dim,
    );
    let (y_actual, h_actual) = run_ssm_step(
        &x,
        &a,
        &b_vec,
        &c_vec,
        &dt_in,
        &h_state_initial,
        Dt::F32,
        n_heads,
        head_dim,
        state_dim,
    );
    let mut max_y_diff = 0.0_f32;
    for (a, e) in y_actual.iter().zip(y_expected.iter()) {
        max_y_diff = max_y_diff.max((a - e).abs());
    }
    assert!(max_y_diff < 1e-5, "ssm_step y max |diff| = {max_y_diff:.2e}");
    let mut max_h_diff = 0.0_f32;
    for (a, e) in h_actual.iter().zip(h_state_oracle.iter()) {
        max_h_diff = max_h_diff.max((a - e).abs());
    }
    assert!(max_h_diff < 1e-5, "ssm_step h update max |diff| = {max_h_diff:.2e}");
}

#[test]
fn ssm_step_state_decays_when_x_is_zero_f32() {
    let n_heads = 2usize;
    let head_dim = 8usize;
    let state_dim = 4usize;
    let x = vec![0.0_f32; n_heads * head_dim];
    let a: Vec<f32> = vec![-1.0, -2.0];
    let b_vec: Vec<f32> = vec![0.5, 0.6, 0.7, 0.8];
    let c_vec: Vec<f32> = vec![0.1, 0.2, 0.3, 0.4];
    let dt_in: Vec<f32> = vec![0.05, 0.05];
    let h_state_initial: Vec<f32> =
        (0..n_heads * state_dim * head_dim).map(|i| 0.5 + (i as f32) * 0.01).collect();
    let mut h_state_oracle = h_state_initial.clone();
    let y_expected = naive_ssm_step(
        &x,
        &a,
        &b_vec,
        &c_vec,
        &dt_in,
        &mut h_state_oracle,
        n_heads,
        head_dim,
        state_dim,
    );
    let (y_actual, _h_actual) = run_ssm_step(
        &x,
        &a,
        &b_vec,
        &c_vec,
        &dt_in,
        &h_state_initial,
        Dt::F32,
        n_heads,
        head_dim,
        state_dim,
    );
    let mut max_diff = 0.0_f32;
    for (a, e) in y_actual.iter().zip(y_expected.iter()) {
        max_diff = max_diff.max((a - e).abs());
    }
    assert!(max_diff < 1e-5, "x=0 decay invariant max |diff| = {max_diff:.2e}");
}

#[test]
fn mt_ssm_step_matches_oracle_f32() {
    let n_heads = 4usize;
    let heads_per_group = 2usize;
    let batch = 2usize;
    let n_total = n_heads * batch;
    let dh = 8usize;
    let ds = 32usize;
    let groups = n_total / heads_per_group;
    let x: Vec<f32> = (0..n_total * dh).map(|i| ((i as f32) * 0.017).sin() * 0.3).collect();
    let a_log: Vec<f32> = (0..n_heads).map(|i| -1.0 + (i as f32) * 0.2).collect();
    let b_mat: Vec<f32> = (0..groups * ds).map(|i| 0.05 + (i as f32) * 0.003).collect();
    let c_mat: Vec<f32> = (0..groups * ds).map(|i| 0.1 - (i as f32) * 0.001).collect();
    let d_skip: Vec<f32> = (0..n_heads).map(|i| 0.05 + (i as f32) * 0.01).collect();
    let dt_in: Vec<f32> = (0..n_total).map(|i| 0.02 + (i as f32) * 0.005).collect();
    let state_in: Vec<f32> =
        (0..n_total * dh * ds).map(|i| ((i as f32) * 0.009).cos() * 0.2).collect();
    let (state_expected, out_expected) = naive_mt_ssm_step(
        &x,
        &a_log,
        &b_mat,
        &c_mat,
        &d_skip,
        &dt_in,
        &state_in,
        n_total,
        dh,
        ds,
        n_heads,
        heads_per_group,
    );
    let (state_actual, out_actual) = run_mt_ssm_step(
        &x,
        &a_log,
        &b_mat,
        &c_mat,
        &d_skip,
        &dt_in,
        &state_in,
        Dt::F32,
        n_total,
        dh,
        ds,
        n_heads,
        heads_per_group,
    );
    let mut max_state_diff = 0.0_f32;
    for (a, e) in state_actual.iter().zip(state_expected.iter()) {
        max_state_diff = max_state_diff.max((a - e).abs());
    }
    assert!(max_state_diff < 1e-5, "mt_ssm_step state max |diff| = {max_state_diff:.2e}");
    let mut max_out_diff = 0.0_f32;
    for (a, e) in out_actual.iter().zip(out_expected.iter()) {
        max_out_diff = max_out_diff.max((a - e).abs());
    }
    assert!(max_out_diff < 5e-5, "mt_ssm_step out max |diff| = {max_out_diff:.2e}");
}

#[test]
fn mt_ssm_step_matches_oracle_ds_128_f32() {
    let n_heads = 4usize;
    let heads_per_group = 2usize;
    let batch = 1usize;
    let n_total = n_heads * batch;
    let dh = 4usize;
    let ds = 128usize;
    let groups = n_total / heads_per_group;
    let x: Vec<f32> = (0..n_total * dh).map(|i| ((i as f32) * 0.017).sin() * 0.3).collect();
    let a_log: Vec<f32> = (0..n_heads).map(|i| -1.0 + (i as f32) * 0.2).collect();
    let b_mat: Vec<f32> = (0..groups * ds).map(|i| 0.05 + (i as f32) * 0.003).collect();
    let c_mat: Vec<f32> = (0..groups * ds).map(|i| 0.1 - (i as f32) * 0.001).collect();
    let d_skip: Vec<f32> = (0..n_heads).map(|i| 0.05 + (i as f32) * 0.01).collect();
    let dt_in: Vec<f32> = (0..n_total).map(|i| 0.02 + (i as f32) * 0.005).collect();
    let state_in: Vec<f32> =
        (0..n_total * dh * ds).map(|i| ((i as f32) * 0.009).cos() * 0.2).collect();
    let (state_expected, out_expected) = naive_mt_ssm_step(
        &x,
        &a_log,
        &b_mat,
        &c_mat,
        &d_skip,
        &dt_in,
        &state_in,
        n_total,
        dh,
        ds,
        n_heads,
        heads_per_group,
    );
    let (state_actual, out_actual) = run_mt_ssm_step(
        &x,
        &a_log,
        &b_mat,
        &c_mat,
        &d_skip,
        &dt_in,
        &state_in,
        Dt::F32,
        n_total,
        dh,
        ds,
        n_heads,
        heads_per_group,
    );
    let mut max_state_diff = 0.0_f32;
    for (a, e) in state_actual.iter().zip(state_expected.iter()) {
        max_state_diff = max_state_diff.max((a - e).abs());
    }
    assert!(max_state_diff < 1e-5, "ds=128 state max |diff| = {max_state_diff:.2e}");
    let mut max_out_diff = 0.0_f32;
    for (a, e) in out_actual.iter().zip(out_expected.iter()) {
        max_out_diff = max_out_diff.max((a - e).abs());
    }
    assert!(max_out_diff < 1e-4, "ds=128 out max |diff| = {max_out_diff:.2e}");
}

#[test]
fn mt_ssm_step_matches_oracle_bf16() {
    let n_heads = 4usize;
    let heads_per_group = 2usize;
    let batch = 1usize;
    let n_total = n_heads * batch;
    let dh = 4usize;
    let ds = 32usize;
    let groups = n_total / heads_per_group;
    let round = |v: &[f32]| v.iter().map(|&x| x.round_to(Dt::Bf16)).collect::<Vec<f32>>();
    let x =
        round(&(0..n_total * dh).map(|i| ((i as f32) * 0.017).sin() * 0.3).collect::<Vec<_>>());
    let a_log = round(&(0..n_heads).map(|i| -1.0 + (i as f32) * 0.2).collect::<Vec<_>>());
    let b_mat = round(&(0..groups * ds).map(|i| 0.05 + (i as f32) * 0.003).collect::<Vec<_>>());
    let c_mat = round(&(0..groups * ds).map(|i| 0.1 - (i as f32) * 0.001).collect::<Vec<_>>());
    let d_skip = round(&(0..n_heads).map(|i| 0.05 + (i as f32) * 0.01).collect::<Vec<_>>());
    let dt_in = round(&(0..n_total).map(|i| 0.02 + (i as f32) * 0.005).collect::<Vec<_>>());
    let state_in = round(
        &(0..n_total * dh * ds).map(|i| ((i as f32) * 0.009).cos() * 0.2).collect::<Vec<_>>(),
    );
    let (_state_expected, out_expected) = naive_mt_ssm_step(
        &x,
        &a_log,
        &b_mat,
        &c_mat,
        &d_skip,
        &dt_in,
        &state_in,
        n_total,
        dh,
        ds,
        n_heads,
        heads_per_group,
    );
    let (_state_actual, out_actual) = run_mt_ssm_step(
        &x,
        &a_log,
        &b_mat,
        &c_mat,
        &d_skip,
        &dt_in,
        &state_in,
        Dt::Bf16,
        n_total,
        dh,
        ds,
        n_heads,
        heads_per_group,
    );
    let mut max_rel = 0.0_f32;
    for (a, e) in out_actual.iter().zip(out_expected.iter()) {
        let rel = (a - e).abs() / e.abs().max(1e-3);
        max_rel = max_rel.max(rel);
    }
    assert!(max_rel < 1e-1, "mt_ssm_step bf16 max rel = {max_rel:.2e}");
}

#[test]
fn test_ssm_step_a2d() {
    let n_heads = 4usize;
    let head_dim = 32usize;
    let state_dim = 16usize;
    let x: Vec<f32> = (0..n_heads * head_dim).map(|i| ((i % 11) as f32 - 5.0) * 0.02).collect();
    let a_log: Vec<f32> =
        (0..n_heads * head_dim * state_dim).map(|i| -1.0 + 0.013 * (i as f32 % 19.0)).collect();
    let b: Vec<f32> = (0..state_dim).map(|i| ((i % 5) as f32 - 2.0) * 0.05).collect();
    let c: Vec<f32> = (0..state_dim).map(|i| ((i % 7) as f32 - 3.0) * 0.03).collect();
    let dt_in: Vec<f32> = (0..n_heads).map(|i| 0.1 + 0.05 * i as f32).collect();
    let h_initial: Vec<f32> =
        (0..n_heads * state_dim * head_dim).map(|i| ((i % 13) as f32 - 6.0) * 0.01).collect();
    let mut h_oracle = h_initial.clone();
    let expected = naive_ssm_step_a2d(
        &x, &a_log, &b, &c, &dt_in, &mut h_oracle, n_heads, head_dim, state_dim,
    );
    let mut h = wrap(&h_initial);
    let mut y = wrap(&vec![0.0; n_heads * head_dim]);
    ssm_step_a2d(
        &wrap(&x),
        &wrap(&a_log),
        &wrap(&b),
        &wrap(&c),
        &wrap(&dt_in),
        &mut h,
        &mut y,
        head_dim as u32,
        state_dim as u32,
    );
    assert!(max_abs_diff(&unwrap(&y), &expected) < 1e-4);
    assert!(max_abs_diff(&unwrap(&h), &h_oracle) < 1e-4);
}

#[test]
fn test_ssm_step() {
    let n_heads = 4usize;
    let head_dim = 16usize;
    let state_dim = 8usize;
    let x: Vec<f32> =
        (0..n_heads * head_dim).map(|i| ((i as f32) * 0.013).sin() * 0.3).collect();
    let a: Vec<f32> = (0..n_heads).map(|i| -0.5 - (i as f32) * 0.1).collect();
    let b_vec: Vec<f32> = (0..state_dim).map(|i| 0.1 + (i as f32) * 0.05).collect();
    let c_vec: Vec<f32> = (0..state_dim).map(|i| 0.2 - (i as f32) * 0.02).collect();
    let dt_in: Vec<f32> = (0..n_heads).map(|i| 0.01 + (i as f32) * 0.003).collect();
    let h_initial: Vec<f32> =
        (0..n_heads * state_dim * head_dim).map(|i| ((i as f32) * 0.011).cos() * 0.1).collect();
    let mut h_oracle = h_initial.clone();
    let expected_y = naive_ssm_step(
        &x, &a, &b_vec, &c_vec, &dt_in, &mut h_oracle, n_heads, head_dim, state_dim,
    );
    let (y, h) = run_ssm_step(
        &x, &a, &b_vec, &c_vec, &dt_in, &h_initial, Dt::F32, n_heads, head_dim, state_dim,
    );
    assert!(max_abs_diff(&y, &expected_y) < 1e-4);
    assert!(max_abs_diff(&h, &h_oracle) < 1e-4);
}

#[test]
fn test_conv1d_causal_step() {
    let n_channels = 64usize;
    let kernel_size = 4usize;
    let x: Vec<f32> = (0..n_channels).map(|i| ((i as f32) * 0.013).sin()).collect();
    let w: Vec<f32> =
        (0..kernel_size * n_channels).map(|i| 0.1 + ((i as f32) * 0.019).cos() * 0.2).collect();
    let b: Vec<f32> = (0..n_channels).map(|i| (i as f32) * 0.001 - 0.05).collect();
    let state_initial: Vec<f32> =
        (0..(kernel_size - 1) * n_channels).map(|i| ((i as f32) * 0.007).sin() * 0.5).collect();
    let mut state_oracle = state_initial.clone();
    let expected_y =
        naive_conv1d_causal_step(&x, &w, &b, &mut state_oracle, n_channels, kernel_size);
    let (y, _) =
        run_conv1d_causal_step(&x, &w, &b, &state_initial, Dt::F32, n_channels, kernel_size);
    assert!(max_abs_diff(&y, &expected_y) < 1e-4);
}

#[test]
fn conv_of_two_taps_by_hand() {
    // Two channels, two taps: the state is one row, and becomes the input.
    let (y, state) = run_conv1d_causal_step(
        &[3.0, 5.0],
        &[2.0, 7.0, 10.0, 100.0],
        &[0.5, 0.25],
        &[1.0, -1.0],
        Dt::F32,
        2,
        2,
    );
    assert_eq!(y, vec![0.5 + 30.0 + 2.0, 0.25 + 500.0 - 7.0]);
    assert_eq!(state, vec![3.0, 5.0]);
}

/// Step by step, the output is the convolution over the whole signal.
#[test]
fn streaming_is_the_convolution() {
    let (n, taps, steps) = (3usize, 4usize, 9usize);
    let w: Vec<f32> = (0..taps * n).map(|i| ((i % 5) as f32) - 2.0).collect();
    let b: Vec<f32> = (0..n).map(|i| i as f32).collect();
    let signal: Vec<f32> = (0..steps * n).map(|i| ((i % 7) as f32) - 3.0).collect();
    let mut state = vec![0.0; (taps - 1) * n];
    for t in 0..steps {
        let x = &signal[t * n..(t + 1) * n];
        let (y, next) = run_conv1d_causal_step(x, &w, &b, &state, Dt::F32, n, taps);
        for d in 0..n {
            let expected: f32 = b[d]
                + (0..taps)
                    .filter(|k| t + k + 1 >= taps)
                    .map(|k| w[k * n + d] * signal[(t + k + 1 - taps) * n + d])
                    .sum::<f32>();
            assert_eq!(y[d], expected);
        }
        state = next;
    }
}

#[test]
fn conv_state_drops_the_oldest() {
    let (_, state) = run_conv1d_causal_step(
        &[9.0],
        &[0.0; 4],
        &[0.0],
        &[1.0, 2.0, 3.0],
        Dt::F32,
        1,
        4,
    );
    assert_eq!(state, vec![2.0, 3.0, 9.0]);
}

#[test]
fn scan_without_input_only_decays() {
    let (_, h) = run_ssm_step(
        &[0.0],
        &[0.0],
        &[7.0, 8.0],
        &[1.0, 1.0],
        &[1.0],
        &[0.5, 0.25],
        Dt::F32,
        1,
        1,
        2,
    );
    assert_eq!(h, vec![0.5, 0.25]);
}

#[test]
fn grouped_scan_skips_around_the_state() {
    // No state and no input vector: only the skip connection is left.
    let (state, out) = run_mt_ssm_step(
        &[2.0],
        &[0.0],
        &[0.0; 32],
        &[1.0; 32],
        &[3.0],
        &[1.0],
        &[0.0; 32],
        Dt::F32,
        1,
        1,
        32,
        1,
        1,
    );
    assert_eq!(out, vec![6.0]);
    assert_eq!(state, vec![0.0; 32]);
}
