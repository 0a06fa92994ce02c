use metaltile_std::gated_delta_replay::{
    gated_delta_step_record_d64_32_2_2, run_replay, state_replay_d64_32_2_2,
};
use metaltile_std::noise::xorshift;
use metaltile_std::scalar::{Fun, Op, Rel, Scalar};

// ── the arithmetic of machine floats ─────────────────────────────────────────

#[derive(Clone, Copy, Debug, PartialEq)]
struct F32(f32);

impl Scalar for F32 {
    type Cond = bool;
    type Index = u32;

    fn dup(&self) -> F32 {
        *self
    }
    fn ratio(num: i64, den: u64) -> F32 {
        F32((num as f64 / den as f64) as f32)
    }
    fn from_u32(n: u32) -> F32 {
        F32(n as f32)
    }
    fn neg_infinity() -> F32 {
        F32(f32::NEG_INFINITY)
    }
    fn nan() -> F32 {
        F32(f32::NAN)
    }
    fn apply(f: Fun, a: &F32) -> F32 {
        let x = a.0;
        F32(match f {
            Fun::Neg => -x,
            Fun::Exp => x.exp(),
            Fun::Exp2 => x.exp2(),
            Fun::Log => x.ln(),
            Fun::Log2 => x.log2(),
            Fun::Sqrt => x.sqrt(),
            Fun::Rsqrt => 1.0 / x.sqrt(),
            Fun::Sin => x.sin(),
            Fun::Cos => x.cos(),
            Fun::Floor => x.floor(),
            Fun::Silu => x / (1.0 + (-x).exp()),
            Fun::Gelu => 0.5 * x * (1.0 + (0.797_884_6 * (x + 0.044715 * x * x * x)).tanh()),
            Fun::Sigmoid => 1.0 / (1.0 + (-x).exp()),
        })
    }
    fn combine(op: Op, a: &F32, b: &F32) -> F32 {
        let (x, y) = (a.0, b.0);
        F32(match op {
            Op::Add => x + y,
            Op::Sub => x - y,
            Op::Mul => x * y,
            Op::Div => x / y,
            Op::Max => x.max(y),
            Op::Min => x.min(y),
        })
    }
    fn relate(rel: Rel, a: &F32, b: &F32) -> bool {
        match rel {
            Rel::Less => a.0 < b.0,
            Rel::AtLeast => a.0 >= b.0,
        }
    }
    fn always() -> bool {
        true
    }
    fn both(c: &bool, d: &bool) -> bool {
        *c && *d
    }
    fn not(c: &bool) -> bool {
        !*c
    }
    fn select(c: &bool, a: &F32, b: &F32) -> F32 {
        if *c { *a } else { *b }
    }
    fn index(i: u32) -> u32 {
        i
    }
    fn select_index(c: &bool, i: &u32, j: &u32) -> u32 {
        if *c { *i } else { *j }
    }
    fn index_value(i: &u32) -> F32 {
        F32(*i as f32)
    }
    fn trunc(a: &F32) -> u32 {
        a.0 as u32
    }
    fn resolve(i: &u32) -> Option<u32> {
        Some(*i)
    }

    // What contracts speak of: never run.
    fn rational(_: i64, _: u64) -> F32 {
        unreachable!()
    }
    fn natural(_: u32) -> F32 {
        unreachable!()
    }
    fn lowest() -> F32 {
        unreachable!()
    }
    fn undefined() -> F32 {
        unreachable!()
    }
    fn applied(_: Fun, _: F32) -> F32 {
        unreachable!()
    }
    fn combined(_: Op, _: F32, _: F32) -> F32 {
        unreachable!()
    }
    fn related(_: Rel, _: F32, _: F32) -> bool {
        unreachable!()
    }
    fn certain() -> bool {
        unreachable!()
    }
    fn conjoined(_: bool, _: bool) -> bool {
        unreachable!()
    }
    fn negated(_: bool) -> bool {
        unreachable!()
    }
    fn chosen(_: bool, _: F32, _: F32) -> F32 {
        unreachable!()
    }
    fn position(_: u32) -> u32 {
        unreachable!()
    }
    fn chosen_index(_: bool, _: u32, _: u32) -> u32 {
        unreachable!()
    }
    fn of_index(_: u32) -> F32 {
        unreachable!()
    }
    fn to_index(_: F32) -> u32 {
        unreachable!()
    }
    fn resolved(_: u32) -> Option<u32> {
        unreachable!()
    }
}

fn wrap(v: &[f32]) -> Vec<F32> {
    v.iter().map(|x| F32(*x)).collect()
}

fn unwrap(v: &[F32]) -> Vec<f32> {
    v.iter().map(|x| x.0).collect()
}

fn max_abs_diff(a: &[f32], b: &[f32]) -> f32 {
    assert_eq!(a.len(), b.len());
    a.iter().zip(b).map(|(x, y)| (x - y).abs()).fold(0.0_f32, f32::max)
}

// ── oracles ──────────────────────────────────────────────────────────────────

const DK: usize = 64;
const DV: usize = 32;
const HK: usize = 2;
const HV: usize = 2;

fn src(n: usize, seed: u64, scale: f32) -> Vec<f32> {
    let mut s = seed;
    (0..n)
        .map(|_| {
            s ^= s << 13;
            s ^= s >> 7;
            s ^= s << 17;
            (s % 20_000) as f32 / 20_000.0 * scale - scale * 0.5
        })
        .collect()
}

#[allow(clippy::too_many_arguments)]
fn naive_replay(
    delta_log: &[f32],
    k_log: &[f32],
    g_log: &[f32],
    state_in: &[f32],
    mask: &[u32],
    batch: usize,
    t_log: usize,
    accepted: usize,
    has_mask: bool,
) -> Vec<f32> {
    let mut state = state_in.to_vec();
    for n in 0..batch * HV {
        let b = n / HV;
        let hvh = n % HV;
        for t in 0..t_log {
            let do_step = t < accepted && (!has_mask || mask[b * t_log + t] != 0);
            if !do_step {
                continue;
            }
            let dr = (b * t_log + t) * HV * DV + hvh * DV;
            let kr = (b * t_log + t) * HV * DK + hvh * DK;
            let g = g_log[(b * t_log + t) * HV + hvh];
            for dv in 0..DV {
                let s0 = (n * DV + dv) * DK;
                for dk in 0..DK {
                    state[s0 + dk] = state[s0 + dk] * g + k_log[kr + dk] * delta_log[dr + dv];
                }
            }
        }
    }
    state
}

#[allow(clippy::too_many_arguments)]
fn naive_record(
    q: &[f32],
    k: &[f32],
    v: &[f32],
    g: &[f32],
    beta: &[f32],
    state_in: &[f32],
    batch: usize,
    t_val: usize,
) -> (Vec<f32>, Vec<f32>, Vec<f32>) {
    let mut y = vec![0.0_f32; batch * t_val * HV * DV];
    let mut delta_log = vec![0.0_f32; batch * t_val * HV * DV];
    let mut state = state_in.to_vec();
    for n in 0..batch * HV {
        let b = n / HV;
        let hvh = n % HV;
        let hkh = hvh / (HV / HK);
        for t in 0..t_val {
            let qk = (b * t_val + t) * HK * DK + hkh * DK;
            let vb = (b * t_val + t) * HV * DV + hvh * DV;
            let gb = (b * t_val + t) * HV + hvh;
            for dv in 0..DV {
                let s0 = (n * DV + dv) * DK;
                let mut kv = 0.0_f32;
                for dk in 0..DK {
                    state[s0 + dk] *= g[gb];
                    kv += state[s0 + dk] * k[qk + dk];
                }
                let delta = (v[vb + dv] - kv) * beta[gb];
                delta_log[vb + dv] = delta;
                let mut out = 0.0_f32;
                for dk in 0..DK {
                    state[s0 + dk] += k[qk + dk] * delta;
                    out += state[s0 + dk] * q[qk + dk];
                }
                y[vb + dv] = out;
            }
        }
    }
    (y, state, delta_log)
}

#[allow(clippy::too_many_arguments)]
fn run_record(
    q: &[f32],
    k: &[f32],
    v: &[f32],
    g: &[f32],
    beta: &[f32],
    state_in: &[f32],
    mask: &[u32],
    batch: usize,
    t_val: usize,
    has_mask: u32,
) -> (Vec<f32>, Vec<f32>, Vec<f32>) {
    let mut y = wrap(&vec![0.0; v.len()]);
    let mut state_out = wrap(&vec![0.0; state_in.len()]);
    let mut delta_log = wrap(&vec![0.0; v.len()]);
    gated_delta_step_record_d64_32_2_2(
        &wrap(q),
        &wrap(k),
        &wrap(v),
        &wrap(g),
        &wrap(beta),
        &wrap(state_in),
        mask,
        &mut y,
        &mut state_out,
        &mut delta_log,
        t_val as u32,
        has_mask,
        batch as u32,
    );
    (unwrap(&y), unwrap(&state_out), unwrap(&delta_log))
}

fn check_replay(accepted: usize, has_mask: bool, mask: &[u32]) {
    let (batch, t_log) = (1usize, 5usize);
    let delta_log = src(batch * t_log * HV * DV, 0x21, 0.5);
    let k_log = src(batch * t_log * HV * DK, 0x22, 0.4);
    let g_log: Vec<f32> = src(batch * t_log * HV, 0x23, 0.1).iter().map(|x| 0.9 + x).collect();
    let state_in = src(batch * HV * DV * DK, 0x24, 0.3);
    let expected = naive_replay(
        &delta_log, &k_log, &g_log, &state_in, mask, batch, t_log, accepted, has_mask,
    );
    let got = unwrap(&run_replay::<F32>(accepted, has_mask, mask));
    assert!(
        max_abs_diff(&got, &expected) < 2e-3,
        "replay accepted={accepted} mask={has_mask}: state mismatch"
    );
}

#[test]
fn gated_delta_record_captures_tape_f32() {
    let (batch, t_val) = (1usize, 3usize);
    let q = src(batch * t_val * HK * DK, 0x1, 0.4);
    let k = src(batch * t_val * HK * DK, 0x2, 0.4);
    let v = src(batch * t_val * HV * DV, 0x3, 1.0);
    let g: Vec<f32> = src(batch * t_val * HV, 0x4, 0.1).iter().map(|x| 0.9 + x).collect();
    let beta: Vec<f32> = src(batch * t_val * HV, 0x5, 0.1).iter().map(|x| 0.5 + x).collect();
    let state_in = src(batch * HV * DV * DK, 0x6, 0.2);
    let (exp_y, exp_s, exp_d) = naive_record(&q, &k, &v, &g, &beta, &state_in, batch, t_val);
    let mask = vec![1; batch * t_val];
    let got = run_record(&q, &k, &v, &g, &beta, &state_in, &mask, batch, t_val, 0);
    assert!(got.2.iter().any(|&x| x != 0.0), "tape is all zeros");
    assert!(max_abs_diff(&got.0, &exp_y) < 2e-3, "y mismatch");
    assert!(max_abs_diff(&got.1, &exp_s) < 2e-3, "state mismatch");
    assert!(max_abs_diff(&got.2, &exp_d) < 2e-3, "delta tape mismatch");
}

/// Replaying the whole tape gives the state that was recorded.
#[test]
fn replay_of_a_record_recreates_the_state() {
    let (batch, t_val) = (1usize, 4usize);
    let q = src(batch * t_val * HK * DK, 0x31, 0.4);
    let k = src(batch * t_val * HK * DK, 0x32, 0.4);
    let v = src(batch * t_val * HV * DV, 0x33, 1.0);
    let g: Vec<f32> = src(batch * t_val * HV, 0x34, 0.1).iter().map(|x| 0.9 + x).collect();
    let beta = vec![0.5; batch * t_val * HV];
    let state_in = src(batch * HV * DV * DK, 0x36, 0.2);
    let mask = [1, 0, 1, 1];
    let (_, recorded, tape) =
        run_record(&q, &k, &v, &g, &beta, &state_in, &mask, batch, t_val, 1);
    // One key head per value head: the key tape is `k` itself.
    let mut state_out = wrap(&vec![0.0; state_in.len()]);
    state_replay_d64_32_2_2(
        &wrap(&tape),
        &wrap(&k),
        &wrap(&g),
        &wrap(&state_in),
        &mask,
        &mut state_out,
        t_val as u32,
        t_val as u32,
        1,
        batch as u32,
    );
    assert_eq!(unwrap(&state_out), recorded);
}

#[test]
fn nothing_accepted_leaves_the_state() {
    let state_in = src(HV * DV * DK, 0x24, 0.3);
    assert_eq!(unwrap(&run_replay::<F32>(0, false, &[1; 5])), state_in);
    assert_eq!(unwrap(&run_replay::<F32>(5, true, &[0; 5])), state_in);
}

/// Without a mask its length does not matter, nor how far beyond the tape the prefix goes.
#[test]
fn replay_without_a_mask() {
    let full = unwrap(&run_replay::<F32>(5, false, &[1; 5]));
    assert_eq!(unwrap(&run_replay::<F32>(5, false, &[])), full);
    assert_eq!(unwrap(&run_replay::<F32>(9, false, &[0, 0])), full);
    assert_eq!(unwrap(&run_replay::<F32>(9, true, &[1; 5])), full);
}

/// A mask may be longer than the tape.
#[test]
fn long_mask_counts_as_far_as_the_tape() {
    let held = unwrap(&run_replay::<F32>(5, true, &[1, 0, 1, 0, 1]));
    assert_eq!(unwrap(&run_replay::<F32>(5, true, &[1, 0, 1, 0, 1, 0, 7])), held);
    let (q, k) = (src(2 * HK * DK, 0x41, 0.4), src(2 * HK * DK, 0x42, 0.4));
    let v = src(2 * HV * DV, 0x43, 1.0);
    let (g, beta) = (vec![0.9; 2 * HV], vec![0.5; 2 * HV]);
    let state_in = src(HV * DV * DK, 0x46, 0.2);
    assert_eq!(
        run_record(&q, &k, &v, &g, &beta, &state_in, &[0, 1, 0, 0], 1, 2, 1),
        run_record(&q, &k, &v, &g, &beta, &state_in, &[0, 1], 1, 2, 1)
    );
}

#[test]
fn masked_token_writes_neither_output_nor_tape() {
    let (batch, t_val) = (1usize, 2usize);
    let q = src(t_val * HK * DK, 0x41, 0.4);
    let k = src(t_val * HK * DK, 0x42, 0.4);
    let v = src(t_val * HV * DV, 0x43, 1.0);
    let g = vec![0.9; t_val * HV];
    let beta = vec![0.5; t_val * HV];
    let state_in = src(HV * DV * DK, 0x46, 0.2);
    let (y, _, tape) = run_record(&q, &k, &v, &g, &beta, &state_in, &[0, 1], batch, t_val, 1);
    assert!(y[..HV * DV].iter().all(|x| *x == 0.0));
    assert!(tape[..HV * DV].iter().all(|x| *x == 0.0));
    assert!(y[HV * DV..].iter().any(|x| *x != 0.0));
}

#[test]
fn generator_steps_by_hand() {
    // 1 ^ 1 << 13 = 0x2001; ^ >> 7 = 0x2041; ^ << 17 = 0x40822041.
    assert_eq!(xorshift(1), 0x4082_2041);
    assert_eq!(xorshift(0), 0);
}

#[test]
fn state_replay_full_prefix_f32() {
    check_replay(5, false, &[1; 5]);
}

#[test]
fn state_replay_partial_prefix_f32() {
    check_replay(3, false, &[1; 5]);
}

#[test]
fn state_replay_masked_steps_f32() {
    check_replay(5, true, &[1, 0, 1, 0, 1]);
}
