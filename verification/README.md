# metaltile_std

Compute kernels of a language-model runtime, verified with Verus: attention over a
quantized cache, gated delta recurrences, grouped products of quantized experts,
state-space scans, norms, rotary embeddings, logit masks and sampling, an LSTM, mel
spectrograms, patch embeddings and image resizing.

## What is proved

A kernel is a function over any arithmetic (`scalar::Scalar`) and any storage type
(`scalar::Element`). Its contract says, element by element, which expression each
output holds: which inputs enter, in which order the lanes of a threadgroup add them
up, where a value is narrowed for storage or staged for a matrix tile. Nothing is
assumed of rounding. Indices are proved in bounds and index arithmetic free of
overflow.

Laws then say what those expressions mean:

| file | what holds |
| --- | --- |
| `gated_delta*.rs` | a chunk is its steps, a fused launch the plain one on prepared inputs, a replay the recorded state |
| `moe.rs` | how rows fall into tiles does not show |
| `quant.rs`, `bytes.rs`, `pack.rs` | what is packed is read back |
| `lstm.rs` | the backward pass is the forward pass on reversed frames; both directions fill one output |
| `ssm.rs` | step by step, a convolution is the convolution over the whole signal |
| `flash_block_scaled_sdpa.rs` | a window reads what a cache of its last tokens holds |
| `logits_processors.rs` | a penalty touches each token once, and a unit penalty none |
| `algebra.rs`, `attention.rs`, `exact*.rs` | where addition and multiplication obey the laws of a ring, lanes compute the plain sum, product, norm, average, and the fast product with its norm is the plain one |
| `real_*.rs` | over the real numbers, masks keep what they should and no more, sampling draws a token of positive weight that grows with the draw, a rotation keeps lengths and shows only distances, a norm undoes the scale of a row, frequency scaling stays in its band, gates stay in their range, resizing reads inside its source |

Logits at negative infinity are tokens that an earlier filter took out. They add nothing
to the mass of the top-p filter and are never sampled by a draw above zero, and the laws
on greedy picks ask for one logit above negative infinity, no more. That the sampled token
grows with the draw holds of rounded arithmetic too.

`convert.rs` holds the only trusted statements: four conversions of `half` and
`bytemuck`.

## Layout

- `src/`: the library. `scalar.rs` is the arithmetic, `lanes.rs` how a threadgroup
  reduces, `layout.rs` row-major indexing; each kernel family has a file of its own.
  `term.rs` is an arithmetic of expressions, on which a kernel says what it computes.
- `app/`: the arithmetic of machine floats, and buffers of them.
- `tests/`: the kernels on machine floats against plain loops, and cases by hand.
