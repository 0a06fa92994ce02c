use metaltile_std::bench_plan::{
    bench_lstm, bench_mel_spectrogram_magnitude, block_bench, flash_bench, gated_bench,
    patch_bench, rms_qgemv_bench, BenchPlan, BlockBenchShape, QFormat,
};
use metaltile_std::bytes::{pack_u32_scalar, u32_bytes, u32_le};
use metaltile_std::dtype::Dt;
use metaltile_std::fused_gate_activation::ffai_fused_gate_silu;
use metaltile_std::gather::ffai_gather;
use metaltile_std::logits_processors::logits_temperature;
use metaltile_std::logits_topk::logits_topk_mask;
use metaltile_std::pack::{
    pack, pack_bytes, pack_u16, pack_u32, round, unpack_bytes, unpack_u16, unpack_u32,
};
use metaltile_std::resize_normalize::ffai_resize_normalize;
use metaltile_std::scalar::{Element, Fun, Op, Rel, Scalar};
use metaltile_std::term::{BrainTerm, HalfTerm, Slot, Term, Test};

// ── bytes ────────────────────────────────────────────────────────────────────

#[test]
fn numbers_are_little_endian() {
    assert_eq!(u32_le(0x0403_0201), vec![1, 2, 3, 4]);
    assert_eq!(u32_bytes(&[1, 0x0100_0000]), vec![1, 0, 0, 0, 0, 0, 0, 1]);
    assert_eq!(u32_bytes(&[]), Vec::<u8>::new());
    assert_eq!(pack_u32_scalar(300), vec![44, 1, 0, 0]);
    assert_eq!(pack_u32_scalar(usize::MAX), vec![255; 4]);
}

#[test]
fn words_come_back_from_their_bytes() {
    let words = vec![0, 1, 0xdead_beef, u32::MAX];
    assert_eq!(pack_u32(&words), u32_bytes(&words));
    assert_eq!(unpack_u32(&pack_u32(&words)), words);
    assert_eq!(unpack_u32(&[0x78, 0x56, 0x34, 0x12]), vec![0x1234_5678]);
}

#[test]
fn shorts_come_back_from_their_bytes() {
    let shorts = vec![0, 1, 0xbeef, u16::MAX];
    assert_eq!(pack_u16(&[0x0201]), vec![1, 2]);
    assert_eq!(unpack_u16(&pack_u16(&shorts)), shorts);
    // A byte too many is left out.
    assert_eq!(unpack_u16(&[1, 2, 3]), vec![0x0201]);
}

fn bits(v: &[f32]) -> Vec<u32> {
    v.iter().map(|x| x.to_bits()).collect()
}

fn samples() -> Vec<f32> {
    let mut v = vec![0.0, -0.0, 1.0, -2.5, 3.141_592_7, 1e-20, -1e30, f32::INFINITY];
    v.extend((0..200).map(|i| (i as f32 * 0.731).sin() * (i as f32 - 100.0)));
    v
}

#[test]
fn floats_pack_as_their_bytes() {
    let v = samples();
    let expected: Vec<u8> = v.iter().flat_map(|x| x.to_le_bytes()).collect();
    assert_eq!(pack(&bits(&v), Dt::F32), expected);
    assert_eq!(pack_bytes(&bits(&v), Dt::F32), expected);
    assert_eq!(unpack_bytes(&expected, Dt::F32), bits(&v));
}

#[test]
fn bfloats_pack_as_half_rounds_them() {
    let v = samples();
    let expected: Vec<u8> =
        v.iter().flat_map(|x| half::bf16::from_f32(*x).to_le_bytes()).collect();
    assert_eq!(pack(&bits(&v), Dt::Bf16), expected);
    for x in &v {
        let r = half::bf16::from_f32(*x).to_f32();
        assert_eq!(round(x.to_bits(), Dt::Bf16), r.to_bits());
        assert_eq!(round(x.to_bits(), Dt::F32), x.to_bits());
    }
}

#[test]
fn roundings_differ_at_a_tie() {
    // Halfway between two bfloats, above an even one.
    let tie = 0x3f80_8000;
    assert_eq!(round(tie, Dt::Bf16), 0x3f80_0000);
    assert_eq!(Dt::Bf16.round(tie), 0x3f81_0000);
    assert_eq!(round(tie + 1, Dt::Bf16), 0x3f81_0000);
    assert_eq!(Dt::Bf16.round(tie + 1), 0x3f81_0000);
    assert_eq!(round(tie - 1, Dt::Bf16), 0x3f80_0000);
    assert_eq!(Dt::Bf16.round(tie - 1), 0x3f80_0000);
    assert_eq!(Dt::F32.round(tie), tie);
    // Above an odd one both go up.
    assert_eq!(round(0x3f81_8000, Dt::Bf16), 0x3f82_0000);
    assert_eq!(Dt::Bf16.round(0x3f81_8000), 0x3f82_0000);
}

#[test]
fn a_nan_becomes_quiet() {
    assert_eq!(round(0x7f80_0001, Dt::Bf16), 0x7fc0_0000);
    assert_eq!(round(0xffc1_2345, Dt::Bf16), 0xffc1_0000);
}

#[test]
fn unpacking_a_packed_bfloat_rounds_it() {
    let v = samples();
    let back = unpack_bytes(&pack_bytes(&bits(&v), Dt::Bf16), Dt::Bf16);
    let expected: Vec<u32> = bits(&v).iter().map(|b| Dt::Bf16.round(*b)).collect();
    assert_eq!(back, expected);
    let again: Vec<u32> = expected.iter().map(|b| Dt::Bf16.round(*b)).collect();
    assert_eq!(again, expected);
}

#[test]
fn storage_types() {
    assert_eq!([Dt::F32.bytes(), Dt::F16.bytes(), Dt::Bf16.bytes()], [4, 2, 2]);
    assert_eq!(Dt::F32.coop_stage(), Dt::F32);
    assert_eq!(Dt::F16.coop_stage(), Dt::F16);
    assert_eq!(Dt::Bf16.coop_stage(), Dt::F16);
}

// ── benchmarks ───────────────────────────────────────────────────────────────

#[test]
fn formats() {
    let all = [
        (QFormat::Mxfp4, 4, 32, 1),
        (QFormat::Nvfp4, 4, 16, 1),
        (QFormat::Fp4, 4, 32, 4),
        (QFormat::Mxfp8E4, 8, 32, 1),
        (QFormat::Mxfp8E5, 8, 32, 1),
        (QFormat::Nvfp8, 8, 16, 4),
        (QFormat::Fp8E4m3, 8, 32, 4),
        (QFormat::Fp8E5m2, 8, 32, 4),
        (QFormat::Int8, 8, 64, 4),
    ];
    for (fmt, bits, block, scale) in all {
        assert_eq!((fmt.element_bits(), fmt.block_size(), fmt.scale_bytes()), (bits, block, scale));
    }
}

#[test]
fn flash_bench_by_hand() {
    let plan = BenchPlan {
        bytes_moved: 282_624,
        flops: 8_388_608,
        groups_x: 1,
        groups_y: 8,
        threads: 32,
    };
    assert_eq!(flash_bench(QFormat::Mxfp4, 128, Dt::F16), plan);
}

#[test]
fn rms_qgemv_bench_by_hand() {
    let plan = BenchPlan {
        bytes_moved: 21_020_672,
        flops: 33_554_432,
        groups_x: 4096,
        groups_y: 1,
        threads: 64,
    };
    assert_eq!(rms_qgemv_bench(QFormat::Nvfp8, 4096, 4096, Dt::F32), plan);
}

#[test]
fn gated_bench_by_hand() {
    let plan = BenchPlan {
        bytes_moved: 4_473_088,
        flops: 8_388_608,
        groups_x: 2048,
        groups_y: 1,
        threads: 64,
    };
    assert_eq!(gated_bench(QFormat::Int8, 16, 128, 2048, Dt::Bf16), plan);
}

#[test]
fn block_bench_by_hand() {
    let shape = BlockBenchShape { n_experts: 8, m_total: 512, n_out: 4096, k_in: 4096 };
    let plan = BenchPlan {
        bytes_moved: 92_274_688,
        flops: 17_179_869_184,
        groups_x: 128,
        groups_y: 64,
        threads: 32,
    };
    assert_eq!(block_bench(QFormat::Fp4, shape, Dt::F16), plan);
}

#[test]
fn patch_bench_by_hand() {
    let plan = BenchPlan {
        bytes_moved: 1_812_480,
        flops: 231_211_008,
        groups_x: 588,
        groups_y: 1,
        threads: 256,
    };
    assert_eq!(patch_bench(QFormat::Mxfp8E5, 3, 224, 224, 16, 16, 768, Dt::F32), plan);
}

#[test]
fn fixed_benches() {
    assert_eq!(bench_lstm(Dt::F32), 2_301_952);
    assert_eq!(bench_lstm(Dt::Bf16), 1_150_976);
    assert_eq!(bench_mel_spectrogram_magnitude(Dt::F16), 16_000);
}

// ── terms ────────────────────────────────────────────────────────────────────

fn inputs(n: u32) -> Vec<Term> {
    (0..n).map(Term::Input).collect()
}

#[test]
fn a_term_says_what_a_gate_computes() {
    let mut out = inputs(1);
    ffai_fused_gate_silu::<Term, Term>(&inputs(2), &mut out, 1);
    let Term::Op(Op::Mul, gate, up) = &out[0] else { panic!("a product") };
    assert!(matches!(**up, Term::Input(1)));
    let Term::Fun(Fun::Silu, x) = &**gate else { panic!("an activation") };
    assert!(matches!(**x, Term::Input(0)));
}

#[test]
fn temperature_is_a_product_with_a_reciprocal() {
    let mut out = inputs(1);
    logits_temperature(&inputs(1), &mut out, &Term::Input(7));
    let Term::Op(Op::Mul, v, r) = &out[0] else { panic!("a product") };
    assert!(matches!(**v, Term::Input(0)));
    let Term::Op(Op::Div, one, t) = &**r else { panic!("a quotient") };
    assert!(matches!(**one, Term::Rational(1, 1)));
    assert!(matches!(**t, Term::Input(7)));
}

#[test]
fn a_mask_is_a_choice() {
    let mut out = inputs(1);
    logits_topk_mask(&inputs(1), &mut out, &Term::Input(3));
    let Term::Choice(test, kept, dropped) = &out[0] else { panic!("a choice") };
    assert!(matches!(**test, Test::Rel(Rel::AtLeast, _, _)));
    assert!(matches!(**kept, Term::Input(0)));
    assert!(matches!(**dropped, Term::Lowest));
}

#[test]
fn a_copied_element_is_not_rounded() {
    let table = vec![HalfTerm { value: Term::Input(0) }, HalfTerm { value: Term::Input(1) }];
    let mut out = vec![HalfTerm { value: Term::Undefined }];
    ffai_gather::<Term, HalfTerm>(&table, &[1], &mut out, 1);
    assert!(matches!(out[0].value, Term::Input(1)));
}

#[test]
fn stored_terms_are_rounded() {
    let half = HalfTerm::narrow(&Term::Input(0));
    assert!(matches!(half.value, Term::Rounded(Dt::F16, _)));
    let brain = BrainTerm::narrow(&Term::Input(0));
    assert!(matches!(brain.value, Term::Rounded(Dt::Bf16, _)));
    assert!(matches!(HalfTerm::stage(&Term::Input(0)), Term::Rounded(Dt::F16, _)));
    assert!(matches!(BrainTerm::stage(&Term::Input(0)), Term::Rounded(Dt::F16, _)));
}

#[test]
fn only_a_fixed_slot_is_known() {
    assert_eq!(Term::resolve(&Slot::Fixed(5)), Some(5));
    assert_eq!(Term::resolve(&Term::trunc(&Term::Input(0))), None);
}

/// Where to read depends on terms, so a symbolic resize gives up and writes nothing.
#[test]
fn a_symbolic_resize_gives_up() {
    let mut out = vec![Term::Input(100), Term::Input(101), Term::Input(102)];
    let done = ffai_resize_normalize::<Term, Term>(
        &inputs(3),
        &inputs(3),
        &inputs(3),
        &mut out,
        &[1],
        &[1],
        &[1],
        &[1],
    );
    assert!(!done);
    assert!(matches!(out[0], Term::Input(100)));
    assert!(matches!(out[2], Term::Input(102)));
}
