# minq

A CPU inference engine for LLaMA-family transformers (LLaMA / Qwen2 / Qwen3
style): tensors, block-quantized kernels, the transformer forward pass with a
KV cache, sampling, the generation loop, perplexity, and the `.minq` file
format. The library under `src/` is verified with Verus; `app/` is the command
line around it.

## Floating point

A binary32 number is held as the `u32` that encodes it, a binary64 number as a
`u64`. What can be read off an encoding (order, sign, rounding to a small
integer) is decided on integers in `bits`. The rounded operations are a
parameter, the trait `arith::Arith`, of which nothing is assumed: contracts that
speak of computed values are guarded by `arith::deterministic` and say which
operations are performed, on which operands and in which order.

Laws that hold up to rounding only are stated in three ways. In `exact` nothing is
rounded. In `quantize`, what quantizing loses is stated with the errors of rounding
as parameters. In `nearest`, `fused` and `distribution` every operation rounds to
nearest, as IEEE 754 has it, and the errors are bounded by numbers: what a weight
loses in a round trip, how far a fused product is from a dense one, how close a
softmax sums to 1.

## Layout

| Module | Contents |
|---|---|
| `arith`, `bits` | rounded operations as a parameter; encodings |
| `tensor`, `quantize`, `rope`, `attention` | kernels |
| `config`, `model`, `geometry`, `init` | the transformer, when it can run, random weights |
| `causality`, `gqa` | laws of the forward pass |
| `exact`, `nearest`, `fused`, `distribution`, `likelihood` | laws of the kernels, without rounding and with it |
| `sampler`, `rng`, `engine`, `ppl` | sampling, generation, perplexity |
| `format`, `checkpoint`, `load`, `export` | files: reading, assembling, writing |
| `error`, `text`, `parallel` | errors, names, row-parallel loops |

What is taken from outside crates stands behind small functions marked
`external_body`, each with a comment that says what is claimed of the call.
