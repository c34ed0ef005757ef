# forge_core

Kernels, models, trainers and experiments for small language models on the CPU, verified with
Verus.

- **AXIOM**: stacked recurrent layers with a Hebbian memory and sparse experts. Each layer is
  trained on a loss of its own; no gradient crosses from one layer to another.
- **Baselines**: a GRU and a causal Transformer, trained by full backpropagation.
- **FORGE**: blocks with a fixed-size memory of two resolutions, a surprise gate on its writes and
  rank-1 fast weights, with six experiments (E1 to E6) that try to falsify its claims.
- **Tools**: the check behind a `#[bounded(n)]` attribute on loops, latency statistics, benchmark
  workloads, option parsing.

## Layout

| Directory | What it holds |
|-----------|---------------|
| `src/`    | the library, verified but for the wrappers named under "What is trusted" |
| `tests/`  | tests of the library, run with real floats and the real random generator |
| `app/`    | programs around the library: clocks, files, printing, command line |

## How numbers are modelled

The library is written once for any arithmetic that the trait `arith::Arith` supplies. Contracts
speak of the expression that a function computes, over the operations of that arithmetic and in
the order in which they are carried out; `arith::lawful` says that each operation is a function of
its operands. `app/float.rs` supplies single and double precision. Laws that need exact sums or
products, such as that a softmax sums to one, say so in their `requires`.

Random numbers come from `rand`'s `StdRng`. Contracts say which generator is seeded with what, in
which order it is drawn from and what becomes of each draw; which numbers come is left open.

## What is trusted

- `rng.rs`: seeding a `StdRng` and drawing an index or a byte from it.
- `parallel.rs`: a parallel map by `rayon` that keeps the order of its results.
- `infer.rs`: decoding bytes to text by `String::from_utf8_lossy`.
- `stats.rs`: sorting numbers by `slice::sort_unstable`.

These are wrappers whose contracts are taken as they stand. Beside them, the contracts ask of an
arithmetic that it is `lawful`: that the same operands always give the same result, and that a
draw lies in its range. Nothing checks this of an implementation. For floats it is an assumption:
the standard library leaves the precision of `exp`, `ln`, `tanh`, `powf`, `powi` and `cos` open,
and does not promise that two calls agree. `sqrt`, comparisons and the four basic operations are
fixed by the format.

## Programs

    forge_core [options]     AXIOM benchmarks and training runs
    forge_core forge-exp [--all] [--e1 ... --e5] [--dataset PATH] [--steps N]

The messaging benchmark of `app/meridian.rs` is generic over the platform that it measures.
