//! What a benchmark of a block-scaled kernel allocates, launches and accounts for.
use vstd::prelude::*;

use crate::dtype::Dt;

verus! {

/// The formats of block-scaled weights.
#[derive(Clone, Copy, PartialEq, Eq, Structural, Debug)]
pub enum QFormat {
    Mxfp4,
    Nvfp4,
    Fp4,
    Mxfp8E4,
    Mxfp8E5,
    Nvfp8,
    Fp8E4m3,
    Fp8E5m2,
    Int8,
}

impl QFormat {
    /// Bits of a code.
    pub open spec fn bits(self) -> nat {
        match self {
            QFormat::Mxfp4 | QFormat::Nvfp4 | QFormat::Fp4 => 4,
            _ => 8,
        }
    }

    /// Bits of a code.
    pub fn element_bits(self) -> (n: u32)
        ensures
            n == self.bits(),
    {
        match self {
            QFormat::Mxfp4 | QFormat::Nvfp4 | QFormat::Fp4 => 4,
            _ => 8,
        }
    }

    /// Weights that share a scale.
    pub open spec fn block(self) -> nat {
        match self {
            QFormat::Nvfp4 | QFormat::Nvfp8 => 16,
            QFormat::Int8 => 64,
            _ => 32,
        }
    }

    /// Weights that share a scale.
    pub fn block_size(self) -> (n: u32)
        ensures
            n == self.block(),
    {
        match self {
            QFormat::Nvfp4 | QFormat::Nvfp8 => 16,
            QFormat::Int8 => 64,
            _ => 32,
        }
    }

    /// A format that attention and norms have kernels for.
    pub open spec fn is_standard(self) -> bool {
        self is Mxfp4 || self is Nvfp4 || self is Mxfp8E4 || self is Mxfp8E5 || self is Nvfp8
    }

    /// Bytes of a scale: powers of two and small floats take one, plain scales four.
    pub open spec fn scale_width(self) -> nat {
        match self {
            QFormat::Mxfp4 | QFormat::Nvfp4 | QFormat::Mxfp8E4 | QFormat::Mxfp8E5 => 1,
            _ => 4,
        }
    }

    /// Bytes of a scale.
    pub fn scale_bytes(self) -> (n: u64)
        ensures
            n == self.scale_width(),
    {
        match self {
            QFormat::Mxfp4 | QFormat::Nvfp4 | QFormat::Mxfp8E4 | QFormat::Mxfp8E5 => 1,
            _ => 4,
        }
    }

    /// Elements of the code buffer of `n` weights: words of eight, or bytes.
    pub open spec fn codes(self, n: int) -> int {
        if self.bits() == 4 {
            n / 8
        } else {
            n
        }
    }

    /// Bytes of an element of the code buffer.
    pub open spec fn code_width(self) -> nat {
        if self.bits() == 4 {
            4
        } else {
            1
        }
    }

    /// Scales of `rows` rows of `cols` weights.
    pub open spec fn scales(self, rows: int, cols: int) -> int {
        rows * (cols / self.block() as int)
    }

    /// Bytes of codes and scales of `rows` rows of `cols` weights.
    pub open spec fn weight_bytes(self, rows: int, cols: int) -> int {
        self.codes(rows * cols) * self.code_width() + self.scales(rows, cols) * self.scale_width()
    }
}

/// The buffers of quantized weights.
#[derive(Clone, Copy, PartialEq, Eq, Structural, Debug)]
pub struct WeightPlan {
    pub codes_len: u64,
    pub n_blocks: u64,
    pub bytes: u64,
}

impl WeightPlan {
    pub open spec fn serves(self, fmt: QFormat, rows: int, cols: int) -> bool {
        &&& self.codes_len == fmt.codes(rows * cols)
        &&& self.n_blocks == fmt.scales(rows, cols)
        &&& self.bytes == fmt.weight_bytes(rows, cols)
    }
}

/// A product that a plan may hold: small enough that a few of it still fit.
pub open spec fn fits(n: int) -> bool {
    0 <= n <= 0x0400_0000_0000_0000
}

fn plan_weights(fmt: QFormat, rows: u64, cols: u64) -> (p: WeightPlan)
    requires
        fits(rows * cols),
        cols > 0,
    ensures
        p.serves(fmt, rows as int, cols as int),
        p.bytes <= 4 * (rows * cols) + rows * cols,
{
    let n: u64 = rows * cols;
    let per_row: u64 = cols / fmt.block_size() as u64;
    proof {
        vstd::arithmetic::mul::lemma_mul_inequality(
            per_row as int,
            cols as int,
            rows as int,
        );
        assert(rows * per_row == per_row * rows) by (nonlinear_arith);
        assert(rows * cols == cols * rows) by (nonlinear_arith);
    }
    let n_blocks: u64 = rows * per_row;
    let four: bool = fmt.element_bits() == 4;
    let codes_len: u64 = if four {
        n / 8
    } else {
        n
    };
    let width: u64 = if four {
        4
    } else {
        1
    };
    let scale: u64 = fmt.scale_bytes();
    assert(n_blocks * scale <= 4 * n_blocks) by (nonlinear_arith)
        requires
            scale <= 4,
    ;
    assert(codes_len * width <= n) by (nonlinear_arith)
        requires
            (width == 4 && codes_len <= n / 8) || (width == 1 && codes_len == n),
    ;
    let bytes: u64 = codes_len * width + n_blocks * scale;
    WeightPlan { codes_len, n_blocks, bytes }
}

/// What a benchmark accounts for, and its launch.
#[derive(Clone, Copy, PartialEq, Eq, Structural, Debug)]
pub struct BenchPlan {
    pub bytes_moved: u64,
    pub flops: u64,
    /// Threadgroups along the first and the second axis.
    pub groups_x: u64,
    pub groups_y: u64,
    pub threads: u64,
}

/// Attention of eight queries over 2048 tokens of one block-scaled cache.
pub fn flash_bench(fmt: QFormat, dim: u64, dt: Dt) -> (p: BenchPlan)
    requires
        fmt.is_standard(),
        0 < dim <= 128,
    ensures
        p.bytes_moved == 2 * (8 * dim * dt.width()) + 2 * fmt.weight_bytes(2048, dim as int),
        p.flops == (4 * 8 * 2048) * dim,
        p.groups_x == 1,
        p.groups_y == 8,
        p.threads == 32,
{
    let w = plan_weights(fmt, 2048, dim);
    let sz: u64 = dt.bytes() as u64;
    assert(8 * dim * sz <= 8 * dim * 4) by (nonlinear_arith)
        requires
            sz <= 4,
            0 < dim,
    ;
    let io: u64 = 8 * dim * sz;
    BenchPlan {
        bytes_moved: 2 * io + 2 * w.bytes,
        flops: 65536 * dim,
        groups_x: 1,
        groups_y: 8,
        threads: 32,
    }
}

/// A norm followed by a product with block-scaled weights.
pub fn rms_qgemv_bench(fmt: QFormat, out_dim: u64, in_dim: u64, dt: Dt) -> (p: BenchPlan)
    requires
        fmt.is_standard(),
        0 < in_dim,
        0 < out_dim,
        fits(out_dim * in_dim),
    ensures
        p.bytes_moved == fmt.weight_bytes(out_dim as int, in_dim as int) + (2 * in_dim + out_dim)
            * dt.width(),
        p.flops == 2 * (out_dim * in_dim),
        p.groups_x == out_dim,
        p.groups_y == 1,
        p.threads == 64,
{
    let w = plan_weights(fmt, out_dim, in_dim);
    let sz: u64 = dt.bytes() as u64;
    proof {
        lemma_both_below(out_dim as int, in_dim as int);
        lemma_few_bytes(2 * in_dim + out_dim, sz as int);
    }
    BenchPlan {
        bytes_moved: w.bytes + (2 * in_dim + out_dim) * sz,
        flops: 2 * (out_dim * in_dim),
        groups_x: out_dim,
        groups_y: 1,
        threads: 64,
    }
}

/// A gated norm over `hv` heads of `dv` followed by a product with block-scaled weights.
pub fn gated_bench(fmt: QFormat, hv: u64, dv: u64, out_dim: u64, dt: Dt) -> (p: BenchPlan)
    requires
        0 < hv,
        0 < dv,
        0 < out_dim,
        fits(out_dim * (hv * dv)),
    ensures
        p.bytes_moved == fmt.weight_bytes(out_dim as int, hv * dv) + (hv * dv) * 4 + (hv * dv + dv
            + out_dim) * dt.width(),
        p.flops == 2 * (out_dim * (hv * dv)),
        p.groups_x == out_dim,
        p.groups_y == 1,
        p.threads == 64,
{
    proof {
        assert(0 < hv * dv) by (nonlinear_arith)
            requires
                0 < hv,
                0 < dv,
        ;
        lemma_both_below(out_dim as int, hv * dv);
        lemma_both_below(hv as int, dv as int);
    }
    let in_dim: u64 = hv * dv;
    let w = plan_weights(fmt, out_dim, in_dim);
    let sz: u64 = dt.bytes() as u64;
    proof {
        lemma_few_bytes(in_dim + dv + out_dim, sz as int);
    }
    BenchPlan {
        bytes_moved: w.bytes + in_dim * 4 + (in_dim + dv + out_dim) * sz,
        flops: 2 * (out_dim * in_dim),
        groups_x: out_dim,
        groups_y: 1,
        threads: 64,
    }
}

/// The extents of a benchmark of grouped products.
#[derive(Clone, Copy, PartialEq, Eq, Structural, Debug)]
pub struct BlockBenchShape {
    pub n_experts: u64,
    pub m_total: u64,
    pub n_out: u64,
    pub k_in: u64,
}

/// Grouped products with block-scaled weights, in tiles of eight rows and 32 outputs.
pub fn block_bench(fmt: QFormat, shape: BlockBenchShape, dt: Dt) -> (p: BenchPlan)
    requires
        0 < shape.n_experts,
        0 < shape.m_total,
        0 < shape.n_out,
        0 < shape.k_in,
        fits((shape.n_experts * shape.n_out) * shape.k_in),
        fits((shape.m_total * shape.n_out) * shape.k_in),
    ensures
        p.bytes_moved == fmt.weight_bytes(shape.n_experts * shape.n_out, shape.k_in as int) + (
        shape.m_total * shape.k_in + shape.m_total * shape.n_out) * dt.width(),
        p.flops == 2 * ((shape.m_total * shape.n_out) * shape.k_in),
        p.groups_x == shape.n_out / 32,
        p.groups_y == (shape.m_total + 7) / 8,
        p.threads == 32,
{
    let m: u64 = shape.m_total;
    let n: u64 = shape.n_out;
    let k: u64 = shape.k_in;
    proof {
        assert(0 < shape.n_experts * n) by (nonlinear_arith)
            requires
                0 < shape.n_experts,
                0 < n,
        ;
        assert(0 < m * n) by (nonlinear_arith)
            requires
                0 < m,
                0 < n,
        ;
        lemma_both_below(shape.n_experts * n, k as int);
        lemma_both_below(m * n, k as int);
        lemma_both_below(m as int, n as int);
        assert(m * k <= (m * n) * k) by (nonlinear_arith)
            requires
                0 < n,
                0 < m,
                0 < k,
        ;
        assert(0 <= m * k) by (nonlinear_arith);
    }
    let rows: u64 = shape.n_experts * n;
    let w = plan_weights(fmt, rows, k);
    let sz: u64 = dt.bytes() as u64;
    let moved: u64 = m * k + m * n;
    proof {
        lemma_few_bytes(moved as int, sz as int);
    }
    BenchPlan {
        bytes_moved: w.bytes + moved * sz,
        flops: 2 * (m * n * k),
        groups_x: n / 32,
        groups_y: (m + 7) / 8,
        threads: 32,
    }
}

/// Patch embedding with block-scaled weights, one thread per output.
pub fn patch_bench(
    fmt: QFormat,
    in_ch: u64,
    in_h: u64,
    in_w: u64,
    patch_h: u64,
    patch_w: u64,
    hidden: u64,
    dt: Dt,
) -> (p: BenchPlan)
    requires
        0 < in_ch <= 0xFFFF,
        0 < patch_h <= in_h <= 0xFFFF,
        0 < patch_w <= in_w <= 0xFFFF,
        0 < hidden <= 0xFFFF,
        fits(
            ((((in_h / patch_h) * (in_w / patch_w)) * hidden) * ((in_ch * patch_h) * patch_w)),
        ),
    ensures
        ({
            let n_out = ((in_h / patch_h) * (in_w / patch_w)) * hidden;
            let patch_dim = (in_ch * patch_h) * patch_w;
            &&& p.bytes_moved == fmt.weight_bytes(hidden as int, patch_dim) + ((in_ch * in_h)
                * in_w + n_out) * dt.width()
            &&& p.flops == 2 * (n_out * patch_dim)
            &&& p.groups_x == (n_out + 255) / 256
            &&& p.groups_y == 1
            &&& p.threads == 256
        }),
{
    proof {
        lemma_product_below(in_ch as int, patch_h as int, 0xFFFF, 0xFFFF);
        lemma_product_below(in_ch * patch_h, patch_w as int, 0xFFFE_0001, 0xFFFF);
        lemma_product_below(in_ch as int, in_h as int, 0xFFFF, 0xFFFF);
        lemma_product_below(in_ch * in_h, in_w as int, 0xFFFE_0001, 0xFFFF);
        lemma_at_least_one(in_h as int, patch_h as int);
        lemma_at_least_one(in_w as int, patch_w as int);
        lemma_product_below(
            (in_h / patch_h) as int,
            (in_w / patch_w) as int,
            0xFFFF,
            0xFFFF,
        );
        lemma_product_below(
            (in_h / patch_h) * (in_w / patch_w),
            hidden as int,
            0xFFFE_0001,
            0xFFFF,
        );
    }
    let patches: u64 = (in_h / patch_h) * (in_w / patch_w);
    let patch_dim: u64 = in_ch * patch_h * patch_w;
    let n_out: u64 = patches * hidden;
    proof {
        assert(hidden * patch_dim <= n_out * patch_dim) by (nonlinear_arith)
            requires
                n_out == patches * hidden,
                patches >= 1,
                0 < hidden,
                0 < patch_dim,
        ;
        assert(0 <= hidden * patch_dim) by (nonlinear_arith);
    }
    let w = plan_weights(fmt, hidden, patch_dim);
    let sz: u64 = dt.bytes() as u64;
    let moved: u64 = in_ch * in_h * in_w + n_out;
    proof {
        lemma_few_bytes(moved as int, sz as int);
    }
    BenchPlan {
        bytes_moved: w.bytes + moved * sz,
        flops: 2 * (n_out * patch_dim),
        groups_x: (n_out + 255) / 256,
        groups_y: 1,
        threads: 256,
    }
}

/// Bytes that an LSTM layer of 256 units reads over 200 steps of 256 inputs: the inputs,
/// and four gates of weights for input and hidden state.
pub fn bench_lstm(dt: Dt) -> (bytes: u64)
    ensures
        bytes == (200 * 256 + 4 * 256 * (256 + 256)) * dt.width(),
{
    let sz: u64 = dt.bytes() as u64;
    (200 * 256 + 4 * 256 * (256 + 256)) * sz
}

/// Bytes that a spectrogram of 100 frames and 80 bins writes.
pub fn bench_mel_spectrogram_magnitude(dt: Dt) -> (bytes: u64)
    ensures
        bytes == (100 * 80) * dt.width(),
{
    let sz: u64 = dt.bytes() as u64;
    100 * 80 * sz
}

proof fn lemma_product_below(a: int, b: int, ma: int, mb: int)
    requires
        0 < a <= ma,
        0 < b <= mb,
    ensures
        0 < a * b <= ma * mb,
{
    assert(0 < a * b <= ma * mb) by (nonlinear_arith)
        requires
            0 < a <= ma,
            0 < b <= mb,
    ;
}

proof fn lemma_at_least_one(a: int, b: int)
    requires
        0 < b <= a,
    ensures
        1 <= a / b <= a,
{
    vstd::arithmetic::div_mod::lemma_fundamental_div_mod(a, b);
    vstd::arithmetic::div_mod::lemma_mod_bound(a, b);
    let q = a / b;
    let r = a % b;
    assert(1 <= q <= a) by (nonlinear_arith)
        requires
            a == b * q + r,
            0 <= r < b,
            0 < b <= a,
    ;
}

proof fn lemma_both_below(a: int, b: int)
    requires
        0 < a,
        0 < b,
    ensures
        a <= a * b,
        b <= a * b,
{
    assert(a <= a * b && b <= a * b) by (nonlinear_arith)
        requires
            0 < a,
            0 < b,
    ;
}

proof fn lemma_few_bytes(n: int, sz: int)
    requires
        0 <= n,
        0 <= sz <= 4,
    ensures
        0 <= n * sz <= 4 * n,
{
    assert(0 <= n * sz <= 4 * n) by (nonlinear_arith)
        requires
            0 <= n,
            0 <= sz <= 4,
    ;
}

} // verus!
