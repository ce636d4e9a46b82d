# ANNP

A network of small micro-blocks on a mesh. Token embeddings are cut into shards, every shard
travels as a particle from node to node, and settles when its hops or its energy run out.

The crate is written in Verus:

- `src/` is the library. Every function states what it returns in `requires` and `ensures`,
  and Verus proves it, with one exception: the functions marked `external_body` call the
  standard library, `csv`, `rand` or `serde_json`, and what they state is believed. Each says
  above it what that is. Two of them, `json_node` and `json_value`, only convert between types
  and state nothing.
- `tests/` runs the library on concrete values.
- `app/` is the command line around it: files, clocks, tensors and floating point.

## Numbers

Weights and energies are single-precision numbers. The library keeps each as a `Scalar`, the
bit pattern of an IEEE 754 value, and proves what it compares, orders, stores and reads back.
Sums and products are computed in `app/` and handed in as arguments.

## Where things are

| Modules | Subject |
| --- | --- |
| `scalar`, `metrics`, `order` | numbers, running statistics, stable ordering |
| `particle`, `subnode`, `micro_block`, `config` | particles and the nodes that work on them |
| `mesh`, `topology`, `routing`, `scattering`, `cuda` | the mesh, its links and the way through it |
| `model`, `serializer`, `hardening` | the network as a whole |
| `bytes`, `checkpoint`, `checkpoint_laws`, `restore` | the binary checkpoint format |
| `dataset`, `synthetic`, `json`, `tables`, `words` | where training data comes from |
| `settings`, `training`, `evaluation`, `generation` | what a run does, step by step |
| `text`, `reports`, `export` | the texts that are written out |

Laws that span several functions are public proof functions whose names begin with `law_`.
