//! Log-mel spectrograms: windowed frames, their Fourier transform, a mel filterbank and
//! a logarithm.
//!
//! `audio` holds the samples, `window` is `[n_fft]`, `mel_weight` `[n_mels, n_freq]` and
//! `out` `[n_frames, n_mels]`. Frame `f` starts at sample `f * hop_length`.
use vstd::prelude::*;

use crate::lanes::{accumulate, accumulated, collect, launch};
use crate::layout::{flat, lemma_factors, lemma_len_fits, lemma_mul_mono, lemma_split};
use crate::scalar::{
    over, plus, s_add, s_div, s_mul, s_zero, times, zero, Element, Fun, Scalar,
};

verus! {

#[derive(Clone, Copy)]
pub struct MelShape {
    pub n_fft: u32,
    pub n_freq: u32,
    pub n_mels: u32,
    pub hop_length: u32,
    pub n_frames: u32,
}

/// What a frequency contributes.
#[derive(Clone, Copy, PartialEq, Eq, Structural, Debug)]
pub enum Spectrum {
    Power,
    Magnitude,
}

/// `-2 * pi`.
pub open spec fn minus_two_pi<S: Scalar>() -> S {
    S::rational((-6283185307179586) as i64, 1000000000000000)
}

/// The angle by which frequency `k` turns from one sample to the next.
pub open spec fn angle_step<S: Scalar>(n_fft: u32, k: u32) -> S {
    times(over(minus_two_pi(), S::natural(n_fft)), S::natural(k))
}

/// What sample `t` of frame `frame` adds to the real part (`Cos`) or the imaginary part
/// (`Sin`) of frequency `k`.
pub open spec fn dft_terms<S: Scalar, T: Element<S>>(
    audio: Seq<T>,
    window: Seq<T>,
    sh: MelShape,
    wave: Fun,
    frame: int,
    k: u32,
) -> spec_fn(int) -> S {
    |t: int|
        times(
            times(audio[frame * sh.hop_length + t].widened(), window[t].widened()),
            S::applied(wave, times(angle_step(sh.n_fft, k), S::natural(t as u32))),
        )
}

/// A part of the transform.
pub open spec fn dft<S: Scalar, T: Element<S>>(
    audio: Seq<T>,
    window: Seq<T>,
    sh: MelShape,
    wave: Fun,
    frame: int,
    k: u32,
) -> S {
    accumulate(
        zero(),
        dft_terms::<S, T>(audio, window, sh, wave, frame, k),
        sh.n_fft as int,
    )
}

/// The power of frequency `k` in a frame.
pub open spec fn power_of<S: Scalar, T: Element<S>>(
    audio: Seq<T>,
    window: Seq<T>,
    sh: MelShape,
    frame: int,
    k: u32,
) -> S {
    let re = dft::<S, T>(audio, window, sh, Fun::Cos, frame, k);
    let im = dft::<S, T>(audio, window, sh, Fun::Sin, frame, k);
    plus(times(re, re), times(im, im))
}

/// What frequency `k` contributes to a frame.
pub open spec fn spectrum_of<S: Scalar, T: Element<S>>(
    audio: Seq<T>,
    window: Seq<T>,
    sh: MelShape,
    kind: Spectrum,
    frame: int,
    k: u32,
) -> S {
    let power = power_of::<S, T>(audio, window, sh, frame, k);
    match kind {
        Spectrum::Power => power,
        Spectrum::Magnitude => S::applied(Fun::Sqrt, power),
    }
}

/// Element `i` of the output.
pub open spec fn mel_value<S: Scalar, T: Element<S>>(
    audio: Seq<T>,
    window: Seq<T>,
    mel_weight: Seq<T>,
    sh: MelShape,
    log_eps: S,
    kind: Spectrum,
    i: int,
) -> T {
    let frame = i / sh.n_mels as int;
    let mel = i % sh.n_mels as int;
    let acc = accumulate(
        zero(),
        |k: int|
            times(
                mel_weight[mel * sh.n_freq + k].widened(),
                spectrum_of::<S, T>(audio, window, sh, kind, frame, k as u32),
            ),
        sh.n_freq as int,
    );
    T::narrowed(S::applied(Fun::Log, plus(acc, log_eps)))
}

/// The lengths of the buffers: every frame lies inside the samples.
pub open spec fn mel_fits<T>(
    audio: Seq<T>,
    window: Seq<T>,
    mel_weight: Seq<T>,
    out: Seq<T>,
    sh: MelShape,
) -> bool {
    &&& window.len() == sh.n_fft
    &&& mel_weight.len() == sh.n_mels * sh.n_freq
    &&& out.len() == sh.n_frames * sh.n_mels
    &&& sh.n_frames > 0 ==> audio.len() >= (sh.n_frames - 1) * sh.hop_length + sh.n_fft
}

/// A part of the transform.
fn transform<S: Scalar, T: Element<S>>(
    audio: &[T],
    window: &[T],
    sh: MelShape,
    wave: Fun,
    frame: usize,
    k: u32,
) -> (r: S)
    requires
        window@.len() == sh.n_fft,
        audio@.len() >= (sh.n_frames - 1) * sh.hop_length + sh.n_fft,
        frame < sh.n_frames,
    ensures
        r == dft::<S, T>(audio@, window@, sh, wave, frame as int, k),
{
    proof {
        lemma_len_fits(audio);
        lemma_mul_mono(frame as int, sh.n_frames - 1, sh.hop_length as int);
    }
    let start: usize = frame * sh.hop_length as usize;
    let step = s_mul(
        &s_div(&S::ratio(-6283185307179586, 1000000000000000), &S::from_u32(sh.n_fft)),
        &S::from_u32(k),
    );
    accumulated(
        s_zero::<S>(),
        |t: usize| -> (v: S)
            requires
                t < sh.n_fft
            ensures
                v == dft_terms::<S, T>(audio@, window@, sh, wave, frame as int, k)(t as int)
            {
                let xw = s_mul(&audio[start + t].widen(), &window[t].widen());
                let angle = s_mul(&step, &S::from_u32(t as u32));
                s_mul(&xw, &S::apply(wave, &angle))
            },
        sh.n_fft as usize,
        Ghost(dft_terms::<S, T>(audio@, window@, sh, wave, frame as int, k)),
    )
}

/// The spectrum of a frame.
fn frame_spectrum<S: Scalar, T: Element<S>>(
    audio: &[T],
    window: &[T],
    sh: MelShape,
    kind: Spectrum,
    frame: usize,
) -> (v: Vec<S>)
    requires
        window@.len() == sh.n_fft,
        audio@.len() >= (sh.n_frames - 1) * sh.hop_length + sh.n_fft,
        frame < sh.n_frames,
    ensures
        v@ == Seq::new(
            sh.n_freq as nat,
            |k: int| spectrum_of::<S, T>(audio@, window@, sh, kind, frame as int, k as u32),
        ),
{
    let v: Vec<S> = collect(
        sh.n_freq as usize,
        |k: usize| -> (r: S)
            requires
                k < sh.n_freq
            ensures
                r == spectrum_of::<S, T>(audio@, window@, sh, kind, frame as int, k as u32)
            {
                let re: S = transform(audio, window, sh, Fun::Cos, frame, k as u32);
                let im: S = transform(audio, window, sh, Fun::Sin, frame, k as u32);
                let power = s_add(&s_mul(&re, &re), &s_mul(&im, &im));
                match kind {
                    Spectrum::Power => power,
                    Spectrum::Magnitude => S::apply(Fun::Sqrt, &power),
                }
            },
        Ghost(
            |k: int, r: S|
                r == spectrum_of::<S, T>(audio@, window@, sh, kind, frame as int, k as u32),
        ),
    );
    assert(v@ =~= Seq::new(
        sh.n_freq as nat,
        |k: int| spectrum_of::<S, T>(audio@, window@, sh, kind, frame as int, k as u32),
    ));
    v
}

fn mel<S: Scalar, T: Element<S>>(
    audio: &[T],
    window: &[T],
    mel_weight: &[T],
    out: &mut Vec<T>,
    sh: MelShape,
    log_eps: &S,
    kind: Spectrum,
)
    requires
        mel_fits(audio@, window@, mel_weight@, old(out)@, sh),
    ensures
        final(out)@ =~= Seq::new(
            old(out)@.len(),
            |i: int| mel_value(audio@, window@, mel_weight@, sh, *log_eps, kind, i),
        ),
{
    proof {
        lemma_len_fits(mel_weight);
    }
    let spectra: Vec<Vec<S>> = collect(
        sh.n_frames as usize,
        |frame: usize| -> (v: Vec<S>)
            requires
                frame < sh.n_frames
            ensures
                v@ == Seq::new(
                    sh.n_freq as nat,
                    |k: int|
                        spectrum_of::<S, T>(audio@, window@, sh, kind, frame as int, k as u32),
                )
            { frame_spectrum(audio, window, sh, kind, frame) },
        Ghost(
            |frame: int, v: Vec<S>|
                v@ == Seq::new(
                    sh.n_freq as nat,
                    |k: int| spectrum_of::<S, T>(audio@, window@, sh, kind, frame, k as u32),
                ),
        ),
    );
    let mels: usize = sh.n_mels as usize;
    let freqs: usize = sh.n_freq as usize;
    let ghost size = out@.len();
    launch(
        out,
        |i: usize| -> (r: T)
            requires
                i < size
            ensures
                r == mel_value(audio@, window@, mel_weight@, sh, *log_eps, kind, i as int)
            {
                proof {
                    lemma_factors(sh.n_frames as int, mels as int);
                    lemma_split(i as int, sh.n_frames as int, mels as int);
                }
                let frame: usize = i / mels;
                let mel: usize = i % mels;
                let spectrum = &spectra[frame];
                let acc = accumulated(
                    s_zero::<S>(),
                    |k: usize| -> (v: S)
                        requires
                            k < freqs
                        ensures
                            v == times(
                                mel_weight@[mel * sh.n_freq + k].widened(),
                                spectrum_of::<S, T>(
                                    audio@,
                                    window@,
                                    sh,
                                    kind,
                                    frame as int,
                                    k as u32,
                                ),
                            )
                        {
                            let at: usize = flat(mel, k, freqs, Ghost(mels as int));
                            s_mul(&mel_weight[at].widen(), &spectrum[k])
                        },
                    freqs,
                    Ghost(
                        |k: int|
                            times(
                                mel_weight@[mel * sh.n_freq + k].widened(),
                                spectrum_of::<S, T>(
                                    audio@,
                                    window@,
                                    sh,
                                    kind,
                                    frame as int,
                                    k as u32,
                                ),
                            ),
                    ),
                );
                T::narrow(&S::apply(Fun::Log, &s_add(&acc, log_eps)))
            },
        Ghost(|i: int| mel_value(audio@, window@, mel_weight@, sh, *log_eps, kind, i)),
    );
}

/// The log-mel spectrogram of the power spectrum.
pub fn mel_spectrogram<S: Scalar, T: Element<S>>(
    audio: &[T],
    window: &[T],
    mel_weight: &[T],
    out: &mut Vec<T>,
    n_fft: u32,
    n_freq: u32,
    n_mels: u32,
    hop_length: u32,
    log_eps: &S,
    n_frames: u32,
)
    requires
        mel_fits(
            audio@,
            window@,
            mel_weight@,
            old(out)@,
            (MelShape { n_fft, n_freq, n_mels, hop_length, n_frames }),
        ),
    ensures
        final(out)@ =~= Seq::new(
            old(out)@.len(),
            |i: int|
                mel_value(
                    audio@,
                    window@,
                    mel_weight@,
                    (MelShape { n_fft, n_freq, n_mels, hop_length, n_frames }),
                    *log_eps,
                    Spectrum::Power,
                    i,
                ),
        ),
{
    let sh = MelShape { n_fft, n_freq, n_mels, hop_length, n_frames };
    mel(audio, window, mel_weight, out, sh, log_eps, Spectrum::Power);
}

/// The log-mel spectrogram of the magnitude spectrum.
pub fn mel_spectrogram_magnitude<S: Scalar, T: Element<S>>(
    audio: &[T],
    window: &[T],
    mel_weight: &[T],
    out: &mut Vec<T>,
    n_fft: u32,
    n_freq: u32,
    n_mels: u32,
    hop_length: u32,
    log_eps: &S,
    n_frames: u32,
)
    requires
        mel_fits(
            audio@,
            window@,
            mel_weight@,
            old(out)@,
            (MelShape { n_fft, n_freq, n_mels, hop_length, n_frames }),
        ),
    ensures
        final(out)@ =~= Seq::new(
            old(out)@.len(),
            |i: int|
                mel_value(
                    audio@,
                    window@,
                    mel_weight@,
                    (MelShape { n_fft, n_freq, n_mels, hop_length, n_frames }),
                    *log_eps,
                    Spectrum::Magnitude,
                    i,
                ),
        ),
{
    let sh = MelShape { n_fft, n_freq, n_mels, hop_length, n_frames };
    mel(audio, window, mel_weight, out, sh, log_eps, Spectrum::Magnitude);
}

} // verus!
