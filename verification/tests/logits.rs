use metaltile_std::logits_min_p::logits_min_p_mask;
use metaltile_std::logits_processors::{logits_repetition_penalty, logits_temperature};
use metaltile_std::logits_top_p::logits_top_p_mask;
use metaltile_std::logits_topk::logits_topk_mask;
use metaltile_std::sampling::softmax_categorical_sample;
use metaltile_std::scalar::{Element, Fun, Op, Rel, Scalar};

// ── the arithmetic of machine floats ─────────────────────────────────────────

#[derive(Clone, Copy, Debug, PartialEq)]
struct F32(f32);

impl Scalar for F32 {
    type Cond = bool;
    type Index = u32;

    fn dup(&self) -> F32 {
        *self
    }
    fn ratio(num: i64, den: u64) -> F32 {
        F32((num as f64 / den as f64) as f32)
    }
    fn from_u32(n: u32) -> F32 {
        F32(n as f32)
    }
    fn neg_infinity() -> F32 {
        F32(f32::NEG_INFINITY)
    }
    fn nan() -> F32 {
        F32(f32::NAN)
    }
    fn apply(f: Fun, a: &F32) -> F32 {
        let x = a.0;
        F32(match f {
            Fun::Neg => -x,
            Fun::Exp => x.exp(),
            Fun::Exp2 => x.exp2(),
            Fun::Log => x.ln(),
            Fun::Log2 => x.log2(),
            Fun::Sqrt => x.sqrt(),
            Fun::Rsqrt => 1.0 / x.sqrt(),
            Fun::Sin => x.sin(),
            Fun::Cos => x.cos(),
            Fun::Floor => x.floor(),
            Fun::Silu => x / (1.0 + (-x).exp()),
            Fun::Gelu => 0.5 * x * (1.0 + (0.797_884_6 * (x + 0.044715 * x * x * x)).tanh()),
            Fun::Sigmoid => 1.0 / (1.0 + (-x).exp()),
        })
    }
    fn combine(op: Op, a: &F32, b: &F32) -> F32 {
        let (x, y) = (a.0, b.0);
        F32(match op {
            Op::Add => x + y,
            Op::Sub => x - y,
            Op::Mul => x * y,
            Op::Div => x / y,
            Op::Max => x.max(y),
            Op::Min => x.min(y),
        })
    }
    fn relate(rel: Rel, a: &F32, b: &F32) -> bool {
        match rel {
            Rel::Less => a.0 < b.0,
            Rel::AtLeast => a.0 >= b.0,
        }
    }
    fn always() -> bool {
        true
    }
    fn both(c: &bool, d: &bool) -> bool {
        *c && *d
    }
    fn not(c: &bool) -> bool {
        !*c
    }
    fn select(c: &bool, a: &F32, b: &F32) -> F32 {
        if *c { *a } else { *b }
    }
    fn index(i: u32) -> u32 {
        i
    }
    fn select_index(c: &bool, i: &u32, j: &u32) -> u32 {
        if *c { *i } else { *j }
    }
    fn index_value(i: &u32) -> F32 {
        F32(*i as f32)
    }
    fn trunc(a: &F32) -> u32 {
        a.0 as u32
    }
    fn resolve(i: &u32) -> Option<u32> {
        Some(*i)
    }

    // What contracts speak of: never run.
    fn rational(_: i64, _: u64) -> F32 {
        unreachable!()
    }
    fn natural(_: u32) -> F32 {
        unreachable!()
    }
    fn lowest() -> F32 {
        unreachable!()
    }
    fn undefined() -> F32 {
        unreachable!()
    }
    fn applied(_: Fun, _: F32) -> F32 {
        unreachable!()
    }
    fn combined(_: Op, _: F32, _: F32) -> F32 {
        unreachable!()
    }
    fn related(_: Rel, _: F32, _: F32) -> bool {
        unreachable!()
    }
    fn certain() -> bool {
        unreachable!()
    }
    fn conjoined(_: bool, _: bool) -> bool {
        unreachable!()
    }
    fn negated(_: bool) -> bool {
        unreachable!()
    }
    fn chosen(_: bool, _: F32, _: F32) -> F32 {
        unreachable!()
    }
    fn position(_: u32) -> u32 {
        unreachable!()
    }
    fn chosen_index(_: bool, _: u32, _: u32) -> u32 {
        unreachable!()
    }
    fn of_index(_: u32) -> F32 {
        unreachable!()
    }
    fn to_index(_: F32) -> u32 {
        unreachable!()
    }
    fn resolved(_: u32) -> Option<u32> {
        unreachable!()
    }
}

fn wrap(v: &[f32]) -> Vec<F32> {
    v.iter().map(|x| F32(*x)).collect()
}

fn unwrap(v: &[F32]) -> Vec<f32> {
    v.iter().map(|x| x.0).collect()
}

fn max_abs_diff(a: &[f32], b: &[f32]) -> f32 {
    assert_eq!(a.len(), b.len());
    a.iter().zip(b).map(|(x, y)| (x - y).abs()).fold(0.0_f32, f32::max)
}

fn round_f16(v: f32) -> f32 {
    half::f16::from_f32(v).to_f32()
}

fn round_bf16(v: f32) -> f32 {
    half::bf16::from_f32(v).to_f32()
}

/// A float in a half-precision buffer.
#[derive(Clone, Copy, Debug, PartialEq)]
struct Half(f32);

impl Element<F32> for Half {
    fn widen(&self) -> F32 {
        F32(self.0)
    }
    fn narrow(a: &F32) -> Half {
        Half(round_f16(a.0))
    }
    fn stage(a: &F32) -> F32 {
        F32(round_f16(a.0))
    }
    fn copied(&self) -> Half {
        *self
    }

    // What contracts speak of: never run.
    fn widened(self) -> F32 {
        unreachable!()
    }
    fn narrowed(_: F32) -> Half {
        unreachable!()
    }
    fn staged(_: F32) -> F32 {
        unreachable!()
    }
}

/// A float in a bfloat buffer; a matrix tile stages it in half precision.
#[derive(Clone, Copy, Debug, PartialEq)]
struct Brain(f32);

impl Element<F32> for Brain {
    fn widen(&self) -> F32 {
        F32(self.0)
    }
    fn narrow(a: &F32) -> Brain {
        Brain(round_bf16(a.0))
    }
    fn stage(a: &F32) -> F32 {
        F32(round_f16(a.0))
    }
    fn copied(&self) -> Brain {
        *self
    }

    // What contracts speak of: never run.
    fn widened(self) -> F32 {
        unreachable!()
    }
    fn narrowed(_: F32) -> Brain {
        unreachable!()
    }
    fn staged(_: F32) -> F32 {
        unreachable!()
    }
}

/// The storage types of a launch.
trait Store: Element<F32> {
    fn of(v: &[f32]) -> Vec<Self> {
        v.iter().map(|x| Self::narrow(&F32(*x))).collect()
    }
    fn floats(v: &[Self]) -> Vec<f32> {
        v.iter().map(|x| x.widen().0).collect()
    }
    fn zeros(n: usize) -> Vec<Self> {
        (0..n).map(|_| Self::narrow(&F32(0.0))).collect()
    }
}

impl Store for F32 {}
impl Store for Half {}
impl Store for Brain {}

fn assert_close(got: &[f32], expected: &[f32], tol: f32) {
    assert_eq!(got.len(), expected.len());
    for (i, (a, e)) in got.iter().zip(expected).enumerate() {
        assert!(
            a == e || (a - e).abs() <= tol * (1.0 + e.abs()),
            "element {i}: {a} against {e}"
        );
    }
}

// ── oracles ──────────────────────────────────────────────────────────────────

fn cpu_min_p_mask(logits: &[f32], n: usize, rows: usize, min_p: f32) -> Vec<f32> {
    let mut out = vec![0.0f32; rows * n];
    for r in 0..rows {
        let base = r * n;
        let row = &logits[base..base + n];
        let m = row.iter().copied().fold(f32::NEG_INFINITY, f32::max);
        for (i, &v) in row.iter().enumerate() {
            out[base + i] = if (v - m).exp() >= min_p { v } else { f32::NEG_INFINITY };
        }
    }
    out
}

fn cpu_top_p_mask(logits: &[f32], n: usize, rows: usize, top_p: f32) -> Vec<f32> {
    let mut out = vec![0.0f32; rows * n];
    for r in 0..rows {
        let base = r * n;
        let row = &logits[base..base + n];
        let m = row.iter().copied().fold(f32::NEG_INFINITY, f32::max);
        let w: Vec<f32> = row.iter().map(|&v| (v - m).exp()).collect();
        let z: f32 = w.iter().sum();
        let target = top_p * z;
        let mut lo = 0.0f32;
        let mut hi = 1.0f32;
        for _ in 0..24 {
            let mid = (lo + hi) * 0.5;
            let kept: f32 = w.iter().filter(|&&x| x >= mid).sum();
            if kept >= target {
                lo = mid;
            } else {
                hi = mid;
            }
        }
        for (i, &wi) in w.iter().enumerate() {
            out[base + i] = if wi >= lo { row[i] } else { f32::NEG_INFINITY };
        }
    }
    out
}

fn kth_largest(logits: &[f32], k: usize) -> f32 {
    let mut sorted: Vec<f32> = logits.to_vec();
    sorted.sort_by(|a, b| b.partial_cmp(a).unwrap_or(std::cmp::Ordering::Equal));
    sorted[k - 1]
}

fn cpu_topk_mask(logits: &[f32], threshold: f32) -> Vec<f32> {
    logits.iter().map(|&v| if v >= threshold { v } else { f32::NEG_INFINITY }).collect()
}

fn cpu_temperature(logits: &[f32], temperature: f32) -> Vec<f32> {
    logits.iter().map(|&v| v / temperature).collect()
}

fn cpu_repetition_penalty(logits: &[f32], token_ids: &[u32], penalty: f32) -> Vec<f32> {
    let mut out = logits.to_vec();
    for &tok in token_ids {
        let i = tok as usize;
        let v = out[i];
        out[i] = if v > 0.0 { v / penalty } else { v * penalty };
    }
    out
}

// ── launches ─────────────────────────────────────────────────────────────────

fn min_p<T: Store>(logits: &[f32], n: usize, rows: usize, min_p: f32) -> Vec<f32> {
    let mut out = T::zeros(logits.len());
    logits_min_p_mask(&T::of(logits), &mut out, n as u32, &F32(min_p), rows as u32, 256);
    T::floats(&out)
}

fn top_p<T: Store>(logits: &[f32], n: usize, rows: usize, top_p: f32) -> Vec<f32> {
    let mut out = T::zeros(logits.len());
    logits_top_p_mask(&T::of(logits), &mut out, n as u32, &F32(top_p), rows as u32, 256);
    T::floats(&out)
}

fn topk<T: Store>(logits: &[f32], threshold: f32) -> Vec<f32> {
    let mut out = T::zeros(logits.len());
    logits_topk_mask(&T::of(logits), &mut out, &F32(threshold));
    T::floats(&out)
}

fn temper<T: Store>(logits: &[f32], temperature: f32) -> Vec<f32> {
    let mut out = T::zeros(logits.len());
    logits_temperature(&T::of(logits), &mut out, &F32(temperature));
    T::floats(&out)
}

fn penalize(logits: &[f32], token_ids: &[u32], penalty: f32) -> Vec<f32> {
    let mut v = wrap(logits);
    logits_repetition_penalty(&mut v, token_ids, &F32(penalty));
    unwrap(&v)
}

fn sample(logits: &[f32], temperature: f32, uniform: f32) -> u32 {
    let mut out = vec![u32::MAX];
    softmax_categorical_sample(
        &wrap(logits),
        &mut out,
        &[F32(temperature)],
        &[F32(uniform)],
        logits.len() as u32,
    );
    out[0]
}

fn kept(out: &[f32]) -> Vec<usize> {
    (0..out.len()).filter(|i| out[*i] != f32::NEG_INFINITY).collect()
}

// ── min-p ────────────────────────────────────────────────────────────────────

fn min_p_mid_range<T: Store>() {
    let (n, rows, p) = (320usize, 4usize, 0.1f32);
    let raw: Vec<f32> = (0..n * rows).map(|i| (i % 53) as f32 * 0.2 - 5.0).collect();
    let logits = T::floats(&T::of(&raw));
    assert_close(&min_p::<T>(&logits, n, rows, p), &cpu_min_p_mask(&logits, n, rows, p), 1e-4);
}

#[test]
fn test_min_p_mask_mid_range() {
    min_p_mid_range::<F32>();
    min_p_mid_range::<Half>();
    min_p_mid_range::<Brain>();
}

#[test]
fn test_min_p_mask_near_zero() {
    let (n, rows, p) = (320usize, 3usize, 1e-6f32);
    let logits: Vec<f32> = (0..n * rows).map(|i| (i % 53) as f32 * 0.2 - 5.0).collect();
    let out = min_p::<F32>(&logits, n, rows, p);
    assert_close(&out, &cpu_min_p_mask(&logits, n, rows, p), 1e-4);
    assert_eq!(out, logits);
}

#[test]
fn test_min_p_mask_near_one() {
    let (n, rows, p) = (64usize, 1usize, 0.999f32);
    let logits: Vec<f32> = (0..n).map(|i| i as f32 * 0.1).collect();
    let out = min_p::<F32>(&logits, n, rows, p);
    assert_close(&out, &cpu_min_p_mask(&logits, n, rows, p), 1e-4);
    assert_eq!(kept(&out), vec![63]);
}

#[test]
fn min_p_keeps_the_largest_and_every_tie() {
    let out = min_p::<F32>(&[1.0, 3.0, 3.0, -2.0], 4, 1, 1.0);
    assert_eq!(out, vec![f32::NEG_INFINITY, 3.0, 3.0, f32::NEG_INFINITY]);
}

#[test]
fn min_p_keeps_upwards() {
    let logits: Vec<f32> = (0..40).map(|i| (i as f32 * 0.7).sin() * 4.0).collect();
    let out = min_p::<F32>(&logits, 40, 1, 0.05);
    let low = kept(&out).iter().map(|i| logits[*i]).fold(f32::INFINITY, f32::min);
    assert!((0..40).all(|i| (logits[i] >= low) == (out[i] == logits[i])));
}

// ── top-p ────────────────────────────────────────────────────────────────────

fn top_p_mid_range<T: Store>() {
    let (n, rows, p) = (320usize, 4usize, 0.9f32);
    let raw: Vec<f32> = (0..n * rows).map(|i| (i % 53) as f32 * 0.2 - 5.0).collect();
    let logits = T::floats(&T::of(&raw));
    assert_close(&top_p::<T>(&logits, n, rows, p), &cpu_top_p_mask(&logits, n, rows, p), 1e-4);
}

#[test]
fn test_top_p_mask_mid_range() {
    top_p_mid_range::<F32>();
    top_p_mid_range::<Half>();
    top_p_mid_range::<Brain>();
}

#[test]
fn test_top_p_mask_near_zero() {
    let n = 64usize;
    let logits: Vec<f32> = (0..n).map(|i| i as f32 * 0.1).collect();
    let out = top_p::<F32>(&logits, n, 1, 0.01);
    assert_close(&out, &cpu_top_p_mask(&logits, n, 1, 0.01), 1e-4);
    assert_eq!(kept(&out), vec![63]);
}

/// Shares of a half, a quarter and two eighths.
fn halves() -> Vec<f32> {
    [0.5f32, 0.25, 0.125, 0.125].iter().map(|p| p.ln()).collect()
}

#[test]
fn top_p_keeps_the_share() {
    assert_eq!(kept(&top_p::<F32>(&halves(), 4, 1, 0.4)), vec![0]);
    assert_eq!(kept(&top_p::<F32>(&halves(), 4, 1, 0.7)), vec![0, 1]);
    assert_eq!(kept(&top_p::<F32>(&halves(), 4, 1, 0.8)), vec![0, 1, 2, 3]);
}

/// A token that was taken out before has no weight, wherever it stands.
#[test]
fn top_p_skips_tokens_taken_out() {
    let out = f32::NEG_INFINITY;
    let h = halves();
    let logits = [out, h[0], out, h[1], h[2], h[3], out];
    assert_eq!(kept(&top_p::<F32>(&logits, 7, 1, 0.4)), vec![1]);
    assert_eq!(kept(&top_p::<F32>(&logits, 7, 1, 0.7)), vec![1, 3]);
    assert_eq!(kept(&top_p::<F32>(&logits, 7, 1, 0.8)), vec![1, 3, 4, 5]);
}

#[test]
fn top_p_of_masked_rows() {
    let (n, rows) = (1200usize, 2usize);
    let logits: Vec<f32> = (0..n * rows)
        .map(|i| {
            if i % 3 == 0 || i % n < 300 {
                f32::NEG_INFINITY
            } else {
                ((i * 37) % 211) as f32 * 0.03 - 4.0
            }
        })
        .collect();
    for p in [0.1, 0.53, 0.91] {
        let got = top_p::<F32>(&logits, n, rows, p);
        assert_eq!(kept(&got), kept(&cpu_top_p_mask(&logits, n, rows, p)));
        assert!(got.iter().zip(&logits).all(|(a, b)| a == b || *a == f32::NEG_INFINITY));
        assert!(!kept(&got).is_empty());
    }
}

/// What the top-k filter took out does not count for the top-p filter.
#[test]
fn top_p_after_top_k() {
    let logits: Vec<f32> = (0..512).map(|i| ((i as f32) * 0.31).sin() * 3.0).collect();
    let few = topk::<F32>(&logits, kth_largest(&logits, 20));
    let got = kept(&top_p::<F32>(&few, 512, 1, 0.5));
    assert_eq!(got, kept(&cpu_top_p_mask(&few, 512, 1, 0.5)));
    assert!(0 < got.len() && got.len() < 20);
}

// ── top-k ────────────────────────────────────────────────────────────────────

#[test]
fn test_topk_mask_k50() {
    let (n, k) = (1024usize, 50usize);
    let logits: Vec<f32> = (0..n).map(|i| ((i as f32) * 0.0173).sin() * 5.0).collect();
    let threshold = kth_largest(&logits, k);
    assert_eq!(topk::<F32>(&logits, threshold), cpu_topk_mask(&logits, threshold));
}

#[test]
fn test_topk_mask_neg_inf() {
    let logits: Vec<f32> = (0..256).map(|i| (i as f32) * 0.5 - 64.0).collect();
    assert_eq!(topk::<F32>(&logits, f32::NEG_INFINITY), logits);
}

#[test]
fn test_topk_mask_f16() {
    let (n, k) = (1024usize, 50usize);
    let raw: Vec<f32> = (0..n).map(|i| ((i as f32) * 0.0173).sin() * 5.0).collect();
    let logits = Half::floats(&Half::of(&raw));
    let threshold = kth_largest(&logits, k);
    assert_eq!(topk::<Half>(&logits, threshold), cpu_topk_mask(&logits, threshold));
}

#[test]
fn topk_keeps_the_threshold_itself() {
    assert_eq!(topk::<F32>(&[1.0, 2.0, 3.0], 2.0), vec![f32::NEG_INFINITY, 2.0, 3.0]);
}

// ── temperature ──────────────────────────────────────────────────────────────

fn temperature_identity<T: Store>() {
    let raw: Vec<f32> = (0..1024).map(|i| ((i as f32) * 0.013).sin() - 0.5).collect();
    let logits = T::floats(&T::of(&raw));
    assert_eq!(temper::<T>(&logits, 1.0), logits);
}

#[test]
fn test_temperature_identity() {
    temperature_identity::<F32>();
    temperature_identity::<Half>();
    temperature_identity::<Brain>();
}

#[test]
fn test_temperature_half() {
    let logits: Vec<f32> = (0..256).map(|i| (i as f32) * 0.5 - 64.0).collect();
    assert_close(&temper::<F32>(&logits, 2.0), &cpu_temperature(&logits, 2.0), 1e-4);
}

#[test]
fn temperature_divides() {
    assert_eq!(temper::<F32>(&[6.0, -1.0, 0.0], 0.5), vec![12.0, -2.0, 0.0]);
}

// ── repetition penalty ───────────────────────────────────────────────────────

#[test]
fn test_repetition_penalty_noop() {
    let logits: Vec<f32> = (0..256).map(|i| (i as f32) * 0.1 - 12.0).collect();
    let token_ids: Vec<u32> = vec![3, 7, 11, 137, 200];
    assert_close(
        &penalize(&logits, &token_ids, 1.0),
        &cpu_repetition_penalty(&logits, &token_ids, 1.0),
        1e-5,
    );
}

#[test]
fn test_repetition_penalty_positive() {
    let logits: Vec<f32> = (1..=256).map(|i| i as f32).collect();
    let token_ids: Vec<u32> = vec![0, 5, 100, 255];
    assert_close(
        &penalize(&logits, &token_ids, 2.0),
        &cpu_repetition_penalty(&logits, &token_ids, 2.0),
        1e-4,
    );
}

#[test]
fn test_repetition_penalty_mixed_signs() {
    let logits: Vec<f32> = (0..1024).map(|i| ((i as f32) * 0.07).sin() * 5.0 - 0.5).collect();
    let token_ids: Vec<u32> = vec![7, 42, 137, 251, 513, 999];
    assert_close(
        &penalize(&logits, &token_ids, 1.3),
        &cpu_repetition_penalty(&logits, &token_ids, 1.3),
        1e-4,
    );
}

#[test]
fn penalty_touches_only_its_tokens() {
    assert_eq!(penalize(&[4.0, -4.0, 0.0, 8.0], &[0, 1, 2], 2.0), vec![2.0, -8.0, 0.0, 8.0]);
    assert_eq!(penalize(&[4.0, -4.0], &[], 2.0), vec![4.0, -4.0]);
}

#[test]
fn penalty_of_one_changes_nothing() {
    let logits = [1.5, -2.25, 0.0, 1e-30, f32::NEG_INFINITY];
    assert_eq!(penalize(&logits, &[0, 1, 1, 2, 3, 4, 4, 4], 1.0), logits.to_vec());
}

// ── sampling ─────────────────────────────────────────────────────────────────

/// The token that the running sum of the shares first reaches.
fn drawn(logits: &[f32], temperature: f32, uniform: f32) -> u32 {
    let m = logits.iter().copied().fold(f32::NEG_INFINITY, f32::max);
    let w: Vec<f32> = logits.iter().map(|v| ((v - m) / temperature).exp()).collect();
    let target = uniform * w.iter().sum::<f32>();
    let mut sum = 0.0;
    for (i, x) in w.iter().enumerate() {
        sum += x;
        if sum >= target {
            return i as u32;
        }
    }
    logits.len() as u32 - 1
}

#[test]
fn greedy_picks_the_largest() {
    let logits: Vec<f32> = (0..2000).map(|i| ((i as f32) * 0.37).sin()).collect();
    let best = (0..2000).fold(0, |b, i| if logits[i] > logits[b] { i } else { b });
    assert_eq!(sample(&logits, 0.0, 0.5), best as u32);
}

/// Of equals in one lane the first wins, and of equals in two lanes the one that
/// the tree keeps.
#[test]
fn greedy_settles_ties_as_the_tree_does() {
    let mut logits = vec![0.0; 700];
    logits[45] = 5.0;
    logits[301] = 5.0;
    assert_eq!(sample(&logits, 0.0, 0.9), 45);
    logits[45] = 0.0;
    logits[600] = 5.0;
    assert_eq!(sample(&logits, 0.0, 0.9), 600);
}

#[test]
fn draw_takes_the_first_to_reach() {
    assert_eq!(sample(&halves(), 1.0, 0.25), 0);
    assert_eq!(sample(&halves(), 1.0, 0.6), 1);
    assert_eq!(sample(&halves(), 1.0, 0.8), 2);
    assert_eq!(sample(&halves(), 1.0, 0.95), 3);
}

#[test]
fn draws_follow_the_shares() {
    let logits: Vec<f32> = (0..1500).map(|i| ((i % 97) as f32) * 0.05 - 2.0).collect();
    for step in 0..20 {
        let u = 0.025 + step as f32 * 0.05;
        let (got, expected) = (sample(&logits, 0.8, u), drawn(&logits, 0.8, u));
        // Sums in another order may land on a neighbour.
        assert!(got.abs_diff(expected) <= 1, "{u}: {got} against {expected}");
        assert!((got as usize) < logits.len());
    }
}

/// Tokens that were taken out do not stand in the way of the largest.
#[test]
fn greedy_picks_the_largest_of_a_masked_row() {
    let mut logits = vec![f32::NEG_INFINITY; 700];
    logits[333] = -40.0;
    assert_eq!(sample(&logits, 0.0, 0.5), 333);
    logits[620] = -3.0;
    assert_eq!(sample(&logits, 0.0, 0.5), 620);
    assert_eq!(sample(&logits, 1.0, 0.5), 620);
    assert!(sample(&vec![f32::NEG_INFINITY; 700], 0.0, 0.5) < 700);
}

#[test]
fn token_grows_with_the_draw() {
    let logits: Vec<f32> = (0..600).map(|i| ((i as f32) * 0.7).cos() * 2.0).collect();
    let tokens: Vec<u32> = (0..=50).map(|u| sample(&logits, 0.9, u as f32 * 0.02)).collect();
    assert!(tokens.windows(2).all(|w| w[0] <= w[1]));
    assert!(tokens[0] < 10 && tokens[50] > 580);
}

#[test]
fn weightless_tokens_are_not_drawn() {
    let out = f32::NEG_INFINITY;
    let logits = [out, 0.0, out, out, 0.0, out];
    for u in 1..=50 {
        let token = sample(&logits, 1.0, u as f32 * 0.02);
        assert_eq!(token, if u <= 25 { 1 } else { 4 });
    }
}
