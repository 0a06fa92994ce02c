use metaltile_std::lstm::ffai_lstm;
use metaltile_std::mel_spectrogram::{mel_spectrogram, mel_spectrogram_magnitude};
use metaltile_std::patch_embed::patch_embed;
use metaltile_std::resize_normalize::ffai_resize_normalize;
use metaltile_std::scalar::{Element, Fun, Op, Rel, Scalar};
use metaltile_std::sdpa_decode_d64::ffai_sdpa_decode_d64;

// ── the arithmetic of machine floats ─────────────────────────────────────────

#[derive(Clone, Copy, Debug, PartialEq)]
struct F32(f32);

impl Scalar for F32 {
    type Cond = bool;
    type Index = u32;

    fn dup(&self) -> F32 {
        *self
    }
    fn ratio(num: i64, den: u64) -> F32 {
        F32((num as f64 / den as f64) as f32)
    }
    fn from_u32(n: u32) -> F32 {
        F32(n as f32)
    }
    fn neg_infinity() -> F32 {
        F32(f32::NEG_INFINITY)
    }
    fn nan() -> F32 {
        F32(f32::NAN)
    }
    fn apply(f: Fun, a: &F32) -> F32 {
        let x = a.0;
        F32(match f {
            Fun::Neg => -x,
            Fun::Exp => x.exp(),
            Fun::Exp2 => x.exp2(),
            Fun::Log => x.ln(),
            Fun::Log2 => x.log2(),
            Fun::Sqrt => x.sqrt(),
            Fun::Rsqrt => 1.0 / x.sqrt(),
            Fun::Sin => x.sin(),
            Fun::Cos => x.cos(),
            Fun::Floor => x.floor(),
            Fun::Silu => x / (1.0 + (-x).exp()),
            Fun::Gelu => 0.5 * x * (1.0 + (0.797_884_6 * (x + 0.044715 * x * x * x)).tanh()),
            Fun::Sigmoid => 1.0 / (1.0 + (-x).exp()),
        })
    }
    fn combine(op: Op, a: &F32, b: &F32) -> F32 {
        let (x, y) = (a.0, b.0);
        F32(match op {
            Op::Add => x + y,
            Op::Sub => x - y,
            Op::Mul => x * y,
            Op::Div => x / y,
            Op::Max => x.max(y),
            Op::Min => x.min(y),
        })
    }
    fn relate(rel: Rel, a: &F32, b: &F32) -> bool {
        match rel {
            Rel::Less => a.0 < b.0,
            Rel::AtLeast => a.0 >= b.0,
        }
    }
    fn always() -> bool {
        true
    }
    fn both(c: &bool, d: &bool) -> bool {
        *c && *d
    }
    fn not(c: &bool) -> bool {
        !*c
    }
    fn select(c: &bool, a: &F32, b: &F32) -> F32 {
        if *c { *a } else { *b }
    }
    fn index(i: u32) -> u32 {
        i
    }
    fn select_index(c: &bool, i: &u32, j: &u32) -> u32 {
        if *c { *i } else { *j }
    }
    fn index_value(i: &u32) -> F32 {
        F32(*i as f32)
    }
    fn trunc(a: &F32) -> u32 {
        a.0 as u32
    }
    fn resolve(i: &u32) -> Option<u32> {
        Some(*i)
    }

    // What contracts speak of: never run.
    fn rational(_: i64, _: u64) -> F32 {
        unreachable!()
    }
    fn natural(_: u32) -> F32 {
        unreachable!()
    }
    fn lowest() -> F32 {
        unreachable!()
    }
    fn undefined() -> F32 {
        unreachable!()
    }
    fn applied(_: Fun, _: F32) -> F32 {
        unreachable!()
    }
    fn combined(_: Op, _: F32, _: F32) -> F32 {
        unreachable!()
    }
    fn related(_: Rel, _: F32, _: F32) -> bool {
        unreachable!()
    }
    fn certain() -> bool {
        unreachable!()
    }
    fn conjoined(_: bool, _: bool) -> bool {
        unreachable!()
    }
    fn negated(_: bool) -> bool {
        unreachable!()
    }
    fn chosen(_: bool, _: F32, _: F32) -> F32 {
        unreachable!()
    }
    fn position(_: u32) -> u32 {
        unreachable!()
    }
    fn chosen_index(_: bool, _: u32, _: u32) -> u32 {
        unreachable!()
    }
    fn of_index(_: u32) -> F32 {
        unreachable!()
    }
    fn to_index(_: F32) -> u32 {
        unreachable!()
    }
    fn resolved(_: u32) -> Option<u32> {
        unreachable!()
    }
}

fn wrap(v: &[f32]) -> Vec<F32> {
    v.iter().map(|x| F32(*x)).collect()
}

fn unwrap(v: &[F32]) -> Vec<f32> {
    v.iter().map(|x| x.0).collect()
}

fn max_abs_diff(a: &[f32], b: &[f32]) -> f32 {
    assert_eq!(a.len(), b.len());
    a.iter().zip(b).map(|(x, y)| (x - y).abs()).fold(0.0_f32, f32::max)
}

fn round_f16(v: f32) -> f32 {
    half::f16::from_f32(v).to_f32()
}

fn round_bf16(v: f32) -> f32 {
    half::bf16::from_f32(v).to_f32()
}

/// A float in a half-precision buffer.
#[derive(Clone, Copy, Debug, PartialEq)]
struct Half(f32);

impl Element<F32> for Half {
    fn widen(&self) -> F32 {
        F32(self.0)
    }
    fn narrow(a: &F32) -> Half {
        Half(round_f16(a.0))
    }
    fn stage(a: &F32) -> F32 {
        F32(round_f16(a.0))
    }
    fn copied(&self) -> Half {
        *self
    }

    // What contracts speak of: never run.
    fn widened(self) -> F32 {
        unreachable!()
    }
    fn narrowed(_: F32) -> Half {
        unreachable!()
    }
    fn staged(_: F32) -> F32 {
        unreachable!()
    }
}

/// A float in a bfloat buffer; a matrix tile stages it in half precision.
#[derive(Clone, Copy, Debug, PartialEq)]
struct Brain(f32);

impl Element<F32> for Brain {
    fn widen(&self) -> F32 {
        F32(self.0)
    }
    fn narrow(a: &F32) -> Brain {
        Brain(round_bf16(a.0))
    }
    fn stage(a: &F32) -> F32 {
        F32(round_f16(a.0))
    }
    fn copied(&self) -> Brain {
        *self
    }

    // What contracts speak of: never run.
    fn widened(self) -> F32 {
        unreachable!()
    }
    fn narrowed(_: F32) -> Brain {
        unreachable!()
    }
    fn staged(_: F32) -> F32 {
        unreachable!()
    }
}

/// The storage types of a launch.
trait Store: Element<F32> {
    fn of(v: &[f32]) -> Vec<Self> {
        v.iter().map(|x| Self::narrow(&F32(*x))).collect()
    }
    fn floats(v: &[Self]) -> Vec<f32> {
        v.iter().map(|x| x.widen().0).collect()
    }
    fn zeros(n: usize) -> Vec<Self> {
        (0..n).map(|_| Self::narrow(&F32(0.0))).collect()
    }
}

impl Store for F32 {}
impl Store for Half {}
impl Store for Brain {}

fn assert_close(got: &[f32], expected: &[f32], tol: f32) {
    assert_eq!(got.len(), expected.len());
    for (i, (a, e)) in got.iter().zip(expected).enumerate() {
        assert!(
            a == e || (a - e).abs() <= tol * (1.0 + e.abs()),
            "element {i}: {a} against {e}"
        );
    }
}

fn stored<T: Store>(v: &[f32]) -> Vec<f32> {
    T::floats(&T::of(v))
}

// ── recurrence ───────────────────────────────────────────────────────────────

fn sigmoid(x: f32) -> f32 {
    1.0 / (1.0 + (-x).exp())
}

#[allow(clippy::too_many_arguments)]
fn naive_lstm(
    x: &[f32],
    w_ih: &[f32],
    w_hh: &[f32],
    bias: &[f32],
    seq_len: usize,
    input_dim: usize,
    hidden: usize,
    reverse: bool,
    out_stride: usize,
    out_offset: usize,
    out: &mut [f32],
) {
    let mut h = vec![0.0f32; hidden];
    let mut c = vec![0.0f32; hidden];
    for step in 0..seq_len {
        let t = if reverse { seq_len - 1 - step } else { step };
        let mut hn = vec![0.0f32; hidden];
        let mut cn = vec![0.0f32; hidden];
        for j in 0..hidden {
            let rows = [j, hidden + j, 2 * hidden + j, 3 * hidden + j];
            let mut g = [bias[rows[0]], bias[rows[1]], bias[rows[2]], bias[rows[3]]];
            for (gi, &r) in g.iter_mut().zip(rows.iter()) {
                for k in 0..input_dim {
                    *gi += w_ih[r * input_dim + k] * x[t * input_dim + k];
                }
                for m in 0..hidden {
                    *gi += w_hh[r * hidden + m] * h[m];
                }
            }
            let i = sigmoid(g[0]);
            let f = sigmoid(g[1]);
            let gt = g[2].tanh();
            let o = sigmoid(g[3]);
            cn[j] = f * c[j] + i * gt;
            hn[j] = o * cn[j].tanh();
            out[t * out_stride + out_offset + j] = hn[j];
        }
        h = hn;
        c = cn;
    }
}

fn wave(n: usize, step: f32, start: f32) -> Vec<f32> {
    (0..n).map(|i| ((start + i as f32 * step) % 2.0) - 1.0).collect()
}

struct Lstm {
    x: Vec<f32>,
    w_ih: Vec<f32>,
    w_hh: Vec<f32>,
    bias: Vec<f32>,
}

fn lstm_inputs<T: Store>(seq_len: usize, input_dim: usize, hidden: usize) -> Lstm {
    Lstm {
        x: stored::<T>(&wave(seq_len * input_dim, 0.017, -0.5)),
        w_ih: stored::<T>(&wave(4 * hidden * input_dim, 0.011, -0.4)),
        w_hh: stored::<T>(&wave(4 * hidden * hidden, 0.009, -0.3)),
        bias: wave(4 * hidden, 0.013, -0.2),
    }
}

#[allow(clippy::too_many_arguments)]
fn lstm<T: Store>(
    v: &Lstm,
    seq_len: usize,
    input_dim: usize,
    hidden: usize,
    reverse: bool,
    out_stride: usize,
    out_offset: usize,
) -> Vec<f32> {
    let mut out = T::of(&vec![9.0; seq_len * out_stride]);
    ffai_lstm(
        &T::of(&v.x),
        &T::of(&v.w_ih),
        &T::of(&v.w_hh),
        &wrap(&v.bias),
        &mut out,
        seq_len as u32,
        input_dim as u32,
        hidden as u32,
        u32::from(reverse),
        out_stride as u32,
        out_offset as u32,
    );
    T::floats(&out)
}

fn check_lstm<T: Store>(seq_len: usize, input_dim: usize, hidden: usize, reverse: bool, tol: f32) {
    let v = lstm_inputs::<T>(seq_len, input_dim, hidden);
    let mut expected = vec![0.0f32; seq_len * hidden];
    naive_lstm(
        &v.x,
        &v.w_ih,
        &v.w_hh,
        &v.bias,
        seq_len,
        input_dim,
        hidden,
        reverse,
        hidden,
        0,
        &mut expected,
    );
    let out = lstm::<T>(&v, seq_len, input_dim, hidden, reverse, hidden, 0);
    assert_close(&out, &expected, tol);
}

#[test]
fn test_lstm_fwd() {
    check_lstm::<F32>(8, 6, 4, false, 1e-4);
    check_lstm::<Half>(8, 6, 4, false, 1e-2);
    check_lstm::<Brain>(8, 6, 4, false, 5e-2);
}

#[test]
fn test_lstm_bwd() {
    check_lstm::<F32>(8, 6, 4, true, 1e-4);
    check_lstm::<Half>(8, 6, 4, true, 1e-2);
    check_lstm::<Brain>(8, 6, 4, true, 5e-2);
}

#[test]
fn test_lstm_h40() {
    check_lstm::<F32>(6, 8, 40, false, 1e-4);
    check_lstm::<Half>(6, 8, 40, false, 1e-2);
    check_lstm::<Brain>(6, 8, 40, false, 6e-2);
}

#[test]
fn reverse_is_forward_on_reversed_frames() {
    let v = lstm_inputs::<F32>(5, 3, 4);
    let back = lstm::<F32>(&v, 5, 3, 4, true, 4, 0);
    let mut turned = lstm_inputs::<F32>(5, 3, 4);
    turned.x = v.x.chunks_exact(3).rev().flatten().copied().collect();
    let forth = lstm::<F32>(&turned, 5, 3, 4, false, 4, 0);
    let forth: Vec<f32> = forth.chunks_exact(4).rev().flatten().copied().collect();
    assert_eq!(back, forth);
}

#[test]
fn both_directions_share_an_output() {
    let v = lstm_inputs::<F32>(4, 3, 2);
    let narrow = lstm::<F32>(&v, 4, 3, 2, false, 2, 0);
    let wide = lstm::<F32>(&v, 4, 3, 2, false, 5, 2);
    for t in 0..4 {
        assert_eq!(wide[t * 5..t * 5 + 2], [9.0, 9.0]);
        assert_eq!(wide[t * 5 + 2..t * 5 + 4], narrow[t * 2..t * 2 + 2]);
        assert_eq!(wide[t * 5 + 4], 9.0);
    }
}

#[test]
fn two_directions_fill_the_output() {
    let v = lstm_inputs::<F32>(4, 3, 2);
    let mut out = wrap(&vec![9.0; 4 * 4]);
    for (reverse, offset) in [(0, 0), (1, 2)] {
        ffai_lstm(
            &wrap(&v.x),
            &wrap(&v.w_ih),
            &wrap(&v.w_hh),
            &wrap(&v.bias),
            &mut out,
            4,
            3,
            2,
            reverse,
            4,
            offset,
        );
    }
    let out = unwrap(&out);
    let (forth, back) = (lstm::<F32>(&v, 4, 3, 2, false, 2, 0), lstm::<F32>(&v, 4, 3, 2, true, 2, 0));
    for t in 0..4 {
        assert_eq!(out[t * 4..t * 4 + 2], forth[t * 2..t * 2 + 2]);
        assert_eq!(out[t * 4 + 2..t * 4 + 4], back[t * 2..t * 2 + 2]);
    }
    assert!(out.iter().all(|h| -1.0 < *h && *h < 1.0));
}

// ── spectrograms ─────────────────────────────────────────────────────────────

const PI: f32 = std::f32::consts::PI;

fn hann(n: usize) -> Vec<f32> {
    (0..n).map(|i| 0.5 - 0.5 * (2.0 * PI * i as f32 / n as f32).cos()).collect()
}

fn triangular_filterbank(n_mels: usize, n_freq: usize) -> Vec<f32> {
    let mut w = vec![0.0f32; n_mels * n_freq];
    for m in 0..n_mels {
        let center = (m + 1) * n_freq / (n_mels + 1);
        let span = 2usize.max(n_freq / n_mels);
        for k in 0..n_freq {
            let dist = (k as isize - center as isize).unsigned_abs();
            if dist < span {
                w[m * n_freq + k] = 1.0 - dist as f32 / span as f32;
            }
        }
    }
    w
}

/// The transform of each frame, summed up term by term.
#[allow(clippy::too_many_arguments)]
fn naive_mel(
    audio: &[f32],
    window: &[f32],
    mel_weight: &[f32],
    n_fft: usize,
    n_freq: usize,
    n_mels: usize,
    hop_length: usize,
    n_frames: usize,
    log_eps: f32,
    magnitude: bool,
) -> Vec<f32> {
    let mut out = vec![0.0f32; n_frames * n_mels];
    let neg_two_pi_over_n = -2.0 * PI / n_fft as f32;
    for frame in 0..n_frames {
        let frame_start = frame * hop_length;
        let mut spectrum = vec![0.0f32; n_freq];
        for (k, p) in spectrum.iter_mut().enumerate() {
            let angle_step = neg_two_pi_over_n * k as f32;
            let mut re = 0.0f32;
            let mut im = 0.0f32;
            for t in 0..n_fft {
                let xw = audio[frame_start + t] * window[t];
                let angle = angle_step * t as f32;
                re += xw * angle.cos();
                im += xw * angle.sin();
            }
            let power = re * re + im * im;
            *p = if magnitude { power.sqrt() } else { power };
        }
        for mel_bin in 0..n_mels {
            let mut acc = 0.0f32;
            for (k, &p) in spectrum.iter().enumerate() {
                acc += mel_weight[mel_bin * n_freq + k] * p;
            }
            out[frame * n_mels + mel_bin] = (acc + log_eps).ln();
        }
    }
    out
}

fn check_mel<T: Store>(magnitude: bool, tol: f32) {
    let (n_samples, n_fft, n_mels, hop_length, log_eps) = (160usize, 32usize, 12usize, 16, 1e-5);
    let n_freq = n_fft / 2 + 1;
    let n_frames = (n_samples - n_fft) / hop_length + 1;
    let audio: Vec<f32> = (0..n_samples)
        .map(|i| (i as f32 * 0.21).sin() + (i as f32 * 0.07).cos() * 0.3)
        .collect();
    let audio = stored::<T>(&audio);
    let window = stored::<T>(&hann(n_fft));
    let mel_weight = stored::<T>(&triangular_filterbank(n_mels, n_freq));
    let expected = naive_mel(
        &audio,
        &window,
        &mel_weight,
        n_fft,
        n_freq,
        n_mels,
        hop_length,
        n_frames,
        log_eps,
        magnitude,
    );
    let mut out = T::zeros(n_frames * n_mels);
    let run = if magnitude { mel_spectrogram_magnitude::<F32, T> } else { mel_spectrogram::<F32, T> };
    run(
        &T::of(&audio),
        &T::of(&window),
        &T::of(&mel_weight),
        &mut out,
        n_fft as u32,
        n_freq as u32,
        n_mels as u32,
        hop_length as u32,
        &F32(log_eps),
        n_frames as u32,
    );
    assert_close(&T::floats(&out), &expected, tol);
}

#[test]
fn test_mel_spectrogram_magnitude() {
    check_mel::<F32>(true, 1e-4);
    check_mel::<Half>(true, 2e-3);
    check_mel::<Brain>(true, 1e-2);
}

#[test]
fn mel_spectrogram_of_each_storage_type() {
    check_mel::<F32>(false, 1e-3);
    check_mel::<Half>(false, 2e-3);
    check_mel::<Brain>(false, 1e-2);
}

#[test]
fn silence_is_the_log_of_the_offset() {
    let mut out = wrap(&[0.0; 3]);
    mel_spectrogram(
        &wrap(&[0.0; 8]),
        &wrap(&[1.0; 4]),
        &wrap(&[1.0; 3]),
        &mut out,
        4,
        3,
        1,
        2,
        &F32(0.5),
        3,
    );
    assert_eq!(unwrap(&out), vec![(0.5_f32).ln(); 3]);
}

// ── images ───────────────────────────────────────────────────────────────────

#[allow(clippy::too_many_arguments)]
fn cpu_ref(
    src: &[f32],
    sw: usize,
    sh: usize,
    tw: usize,
    th: usize,
    mean: &[f32],
    std: &[f32],
) -> Vec<f32> {
    let scale_x = sw as f32 / tw as f32;
    let scale_y = sh as f32 / th as f32;
    let mut out = vec![0.0f32; 3 * th * tw];
    for oy in 0..th {
        let sy = ((oy as f32 + 0.5) * scale_y - 0.5).clamp(0.0, sh as f32 - 1.0);
        let y0 = sy.floor();
        let wy = sy - y0;
        let y0u = y0 as usize;
        let y1u = (y0 + 1.0).clamp(0.0, sh as f32 - 1.0) as usize;
        for ox in 0..tw {
            let sx = ((ox as f32 + 0.5) * scale_x - 0.5).clamp(0.0, sw as f32 - 1.0);
            let x0 = sx.floor();
            let wx = sx - x0;
            let x0u = x0 as usize;
            let x1u = (x0 + 1.0).clamp(0.0, sw as f32 - 1.0) as usize;
            for c in 0..3 {
                let p00 = src[(y0u * sw + x0u) * 3 + c];
                let p01 = src[(y0u * sw + x1u) * 3 + c];
                let p10 = src[(y1u * sw + x0u) * 3 + c];
                let p11 = src[(y1u * sw + x1u) * 3 + c];
                let top = p00 * (1.0 - wx) + p01 * wx;
                let bot = p10 * (1.0 - wx) + p11 * wx;
                let v = top * (1.0 - wy) + bot * wy;
                out[(c * th + oy) * tw + ox] = (v - mean[c]) / std[c];
            }
        }
    }
    out
}

#[allow(clippy::too_many_arguments)]
fn resized<T: Store>(
    src: &[f32],
    sw: usize,
    sh: usize,
    tw: usize,
    th: usize,
    mean: &[f32],
    std: &[f32],
) -> Vec<f32> {
    let mut out = T::zeros(3 * th * tw);
    let done = ffai_resize_normalize(
        &T::of(src),
        &wrap(mean),
        &wrap(std),
        &mut out,
        &[sw as u32],
        &[sh as u32],
        &[tw as u32],
        &[th as u32],
    );
    assert!(done);
    T::floats(&out)
}

fn check_resize<T: Store>(sw: usize, sh: usize, tw: usize, th: usize, tol: f32) {
    let mean = [0.5f32, 0.45, 0.4];
    let std = [0.5f32, 0.5, 0.5];
    let src_f: Vec<f32> = (0..sh * sw * 3).map(|i| ((i % 17) as f32) / 17.0).collect();
    let src = stored::<T>(&src_f);
    let expected = cpu_ref(&src, sw, sh, tw, th, &mean, &std);
    assert_close(&resized::<T>(&src, sw, sh, tw, th, &mean, &std), &expected, tol);
}

#[test]
fn test_resize_normalize() {
    check_resize::<F32>(5, 4, 8, 6, 1e-5);
    check_resize::<Half>(5, 4, 8, 6, 1e-2);
    check_resize::<Brain>(5, 4, 8, 6, 5e-2);
}

#[test]
fn resize_down_and_to_one_pixel() {
    check_resize::<F32>(9, 7, 4, 3, 1e-5);
    check_resize::<F32>(9, 7, 1, 1, 1e-5);
    check_resize::<F32>(1, 1, 5, 2, 1e-5);
}

#[test]
fn same_size_reads_the_pixels() {
    let src: Vec<f32> = (0..4 * 3 * 3).map(|i| i as f32).collect();
    let out = resized::<F32>(&src, 4, 3, 4, 3, &[0.0; 3], &[1.0; 3]);
    for c in 0..3 {
        for p in 0..12 {
            assert_eq!(out[c * 12 + p], src[p * 3 + c]);
        }
    }
}

/// An empty source has no pixel to read: nothing is written.
#[test]
fn resize_of_nothing_writes_nothing() {
    let mut out = wrap(&[7.0; 3]);
    let done = ffai_resize_normalize::<F32, F32>(
        &[],
        &wrap(&[0.0; 3]),
        &wrap(&[1.0; 3]),
        &mut out,
        &[0],
        &[0],
        &[1],
        &[1],
    );
    assert!(!done);
    assert_eq!(unwrap(&out), vec![7.0; 3]);
}

fn ramp(n: usize, modulus: usize, offset: f32) -> Vec<f32> {
    (0..n).map(|i| ((i % modulus) as f32 - offset) * 0.05).collect()
}

#[allow(clippy::too_many_arguments)]
fn naive_patch_embed(
    image: &[f32],
    weight: &[f32],
    bias: &[f32],
    in_ch: usize,
    in_h: usize,
    in_w: usize,
    patch_h: usize,
    patch_w: usize,
    hidden: usize,
) -> Vec<f32> {
    let patches_h = in_h / patch_h;
    let patches_w = in_w / patch_w;
    let num_patches = patches_h * patches_w;
    let patch_dim = in_ch * patch_h * patch_w;
    let input_plane = in_h * in_w;
    let mut out = vec![0.0f32; num_patches * hidden];
    for ph in 0..patches_h {
        for pw in 0..patches_w {
            let patch = ph * patches_w + pw;
            for h in 0..hidden {
                let mut acc = bias[h];
                for ic in 0..in_ch {
                    for py in 0..patch_h {
                        for px in 0..patch_w {
                            let img_y = ph * patch_h + py;
                            let img_x = pw * patch_w + px;
                            let img_idx = ic * input_plane + img_y * in_w + img_x;
                            let col = ic * patch_h * patch_w + py * patch_w + px;
                            acc += image[img_idx] * weight[h * patch_dim + col];
                        }
                    }
                }
                out[patch * hidden + h] = acc;
            }
        }
    }
    out
}

/// Channels, height, width, patch height, patch width, hidden channels.
type Patches = (usize, usize, usize, usize, usize, usize);

/// Period and middle of the image, the weights and the bias.
type Ramps = [(usize, f32); 3];

fn check_patch<T: Store>(s: Patches, r: Ramps, tol: f32) {
    let (in_ch, in_h, in_w, patch_h, patch_w, hidden) = s;
    let n_out = (in_h / patch_h) * (in_w / patch_w) * hidden;
    let image = stored::<T>(&ramp(in_ch * in_h * in_w, r[0].0, r[0].1));
    let weight = stored::<T>(&ramp(hidden * in_ch * patch_h * patch_w, r[1].0, r[1].1));
    let bias = stored::<T>(&ramp(hidden, r[2].0, r[2].1));
    let expected =
        naive_patch_embed(&image, &weight, &bias, in_ch, in_h, in_w, patch_h, patch_w, hidden);
    let mut out = T::zeros(n_out);
    patch_embed(
        &T::of(&image),
        &T::of(&weight),
        &T::of(&bias),
        &mut out,
        in_ch as u32,
        in_h as u32,
        in_w as u32,
        patch_h as u32,
        patch_w as u32,
        hidden as u32,
    );
    assert_close(&T::floats(&out), &expected, tol);
}

#[test]
fn test_patch14_f32() {
    check_patch::<F32>((3, 28, 42, 14, 14, 32), [(37, 18.0), (41, 20.0), (11, 5.0)], 2e-3);
}

#[test]
fn test_patch16_f32() {
    check_patch::<F32>((3, 32, 48, 16, 16, 24), [(29, 14.0), (31, 15.0), (7, 3.0)], 2e-3);
}

#[test]
fn test_patch_embed_f16() {
    check_patch::<Half>((3, 28, 28, 14, 14, 16), [(37, 18.0), (41, 20.0), (11, 5.0)], 5e-3);
}

#[test]
fn test_patch_embed_bf16() {
    check_patch::<Brain>((2, 16, 16, 8, 8, 12), [(23, 11.0), (17, 8.0), (5, 2.0)], 2e-2);
}

// ── attention ────────────────────────────────────────────────────────────────

#[allow(clippy::too_many_arguments)]
fn naive_sdpa(
    q: &[f32],
    k: &[f32],
    v: &[f32],
    n_q_heads: usize,
    n_kv_heads: usize,
    head_dim: usize,
    n_kv: usize,
    scale: f32,
) -> Vec<f32> {
    let gqa = n_q_heads / n_kv_heads;
    let mut out = vec![0.0f32; n_q_heads * head_dim];
    for qh in 0..n_q_heads {
        let kvh = qh / gqa;
        let q_off = qh * head_dim;
        let kv_slab = kvh * n_kv * head_dim;
        let mut scores = vec![0.0f32; n_kv];
        for (t, score) in scores.iter_mut().enumerate() {
            let k_off = kv_slab + t * head_dim;
            let mut dot = 0.0f32;
            for d in 0..head_dim {
                dot += q[q_off + d] * k[k_off + d];
            }
            *score = dot * scale;
        }
        let m = scores.iter().copied().fold(f32::NEG_INFINITY, f32::max);
        let mut sum = 0.0f32;
        for s in scores.iter_mut() {
            *s = (*s - m).exp();
            sum += *s;
        }
        let inv = if sum > 0.0 { 1.0 / sum } else { 0.0 };
        for (t, s) in scores.iter().enumerate() {
            let w = s * inv;
            let v_off = kv_slab + t * head_dim;
            for d in 0..head_dim {
                out[q_off + d] += w * v[v_off + d];
            }
        }
    }
    out
}

fn check_decode<T: Store>(n_q_heads: usize, n_kv_heads: usize, n_kv: usize, tol: f32) {
    let head_dim = 64usize;
    let scale = 1.0f32 / (head_dim as f32).sqrt();
    let q = stored::<T>(&ramp(n_q_heads * head_dim, 17, 8.0));
    let k = stored::<T>(&ramp(n_kv_heads * n_kv * head_dim, 13, 6.0));
    let v = stored::<T>(&ramp(n_kv_heads * n_kv * head_dim, 11, 5.0));
    let expected = naive_sdpa(&q, &k, &v, n_q_heads, n_kv_heads, head_dim, n_kv, scale);
    let mut out = T::zeros(q.len());
    ffai_sdpa_decode_d64(
        &T::of(&q),
        &T::of(&k),
        &T::of(&v),
        &mut out,
        64,
        n_kv as u32,
        n_kv as u32,
        (n_q_heads / n_kv_heads) as u32,
        &F32(scale),
        n_q_heads as u32,
        n_kv_heads as u32,
    );
    assert_close(&T::floats(&out), &expected, tol);
}

#[test]
fn test_sdpa_decode_d64() {
    check_decode::<F32>(2, 1, 4, 1e-4);
}

/// More keys than simd groups, so that each group walks several.
#[test]
fn decode_over_many_keys() {
    check_decode::<F32>(4, 2, 75, 1e-4);
    check_decode::<Half>(4, 2, 75, 2e-3);
    check_decode::<Brain>(4, 2, 75, 1e-2);
}
