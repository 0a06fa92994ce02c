pub mod algebra;
pub mod attention;
pub mod bench_plan;
pub mod bytes;
pub mod convert;
pub mod dtype;
pub mod exact;
pub mod exact_attention;
pub mod exact_delta;
pub mod exact_moe;
pub mod exact_norm;
pub mod exact_patch;
pub mod exact_qgemv;
pub mod exact_quant;
pub mod exact_recurrence;
pub mod exact_rows;
pub mod exact_storage;
pub mod flash_block_scaled_sdpa;
pub mod fused_gate_activation;
pub mod gated_delta;
pub mod gated_delta_prep;
pub mod gated_delta_replay;
pub mod gated_delta_steps;
pub mod gated_rms_norm_block_scaled_qgemv;
pub mod gated_rmsnorm;
pub mod gather;
pub mod gemv;
pub mod lanes;
pub mod layout;
pub mod logits_min_p;
pub mod logits_processors;
pub mod logits_top_p;
pub mod logits_topk;
pub mod lstm;
pub mod mel_spectrogram;
pub mod moe;
pub mod moe_mpp;
pub mod moe_mpp_bm64;
pub mod moe_mpp_bm8_block_scaled;
pub mod moe_mpp_bm8_int8;
pub mod noise;
pub mod norm;
pub mod pack;
pub mod patch_embed;
pub mod patch_embed_block_scaled;
pub mod qgemv;
pub mod quant;
pub mod real_attention;
pub mod real_choice;
pub mod real_filters;
pub mod real_frequencies;
pub mod real_gates;
pub mod real_geometry;
pub mod real_logits;
pub mod real_model;
pub mod real_norm;
pub mod real_norm_rope;
pub mod real_resize;
pub mod real_rotation;
pub mod real_sampling;
pub mod real_spectrum;
pub mod real_waves;
pub mod resize_normalize;
pub mod rms_norm_block_scaled_qgemv;
pub mod rms_norm_qgemv;
pub mod rms_norm_residual;
pub mod rms_norm_rope;
pub mod rope;
pub mod sampling;
pub mod scalar;
pub mod sdpa_decode_d64;
pub mod ssm;
pub mod term;
pub mod unordered;
