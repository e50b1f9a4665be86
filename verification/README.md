# infer_kernels

Kernels and graph rules for running neural networks, verified with Verus: caches
of keys and values in low precision and the attention over them, activations,
concatenation, depthwise convolution, the drivers of tiled matrix products, and
the plans of work for a graphics processor.

## Layout

`src/` is the library. Every function states in its contract what it returns or
changes, and Verus proves it.

| Modules | What they hold |
| --- | --- |
| `scalar`, `dims`, `extent`, `datum`, `fact` | numbers, dimensions, element types, and what is known of a tensor |
| `tensor`, `math`, `text` | tensors and matrices, rounding divisions, decimal numbers |
| `quant`, `packing`, `kv_cache` | codes of a few bits, packed rows of them, caches of keys and values |
| `reals`, `exact` | real numbers, and how far what reads back is from what was coded |
| `softmax` | attention over caches as the softmax of the scores, over real numbers |
| `rope`, `attention`, `kv_sdpa`, `dyn_kv_cache` | rotations, attention over caches, and the operators with a state |
| `graph`, `nnef` | which caches are replaced by what, and operators in a model file |
| `activations` | sigmoid, tanh, SiLU, GELU and erf on blocks of four lanes |
| `concat`, `depth_wise`, `lazy_pack` | operators on tensors |
| `mmm`, `parallel` | tiles of a matrix product, on one thread or on a pool |
| `gpu`, `mlx_sdpa`, `gpu_ops` | launches on a graphics processor |

`app/` puts the library to work in single precision: the processor's arithmetic,
the environment, and messages for people. `tests/` runs the library.

## Numbers and dimensions

The kernels do not fix a type of numbers. They are generic over `Scalar` (and
`Lane`, and for dimensions `DimLike`), and say which operations they apply to
what, in which order. Beside each operation stands a spec function that names its
result. `lawful` says that an operation gives the same result for the same
operands; it is what the kernels ask of the type. A type whose operations have
contracts of their own overrides the spec functions and gets `lawful` by
revealing it, as `Extent` does for dimensions that are all known ahead.

## Laws

What holds of several functions together is stated in public proof functions
whose names start with `law_`. Each says in words what it states.
