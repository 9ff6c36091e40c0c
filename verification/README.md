# superkmeans

Fast k-means clustering for high-dimensional vectors, verified with Verus.

- `SuperKMeans` clusters `n` vectors of width `d` into `k` clusters. Assignment uses batched matrix
  products in the first iteration, and products over a part of the dimensions with ADSampling-style
  pruning later on.
- `HierarchicalSuperKMeans` clusters in levels, for very large `k`.

## Numbers

The library computes with IEEE 754 singles and doubles that it holds as their bits (`Single`,
`Double`). Their arithmetic is defined on integers and proved (`rounding`, `ieee`, `single`,
`double`, `numbers`), so that a contract says what a result is down to its last bit. Matrix products
add up from the first dimension to the last.

## What it leaves out

The library runs on one thread and needs no BLAS: matrix products, like everything else, are computed
by verified code, and there is no way to hand them to a vendor library. `n_threads` is kept as a
setting, and has no influence on any result. Batch sizes are the same on all systems.

## Layout

| Modules | What they hold |
|---|---|
| `rounding`, `ieee`, `single`, `double`, `numbers` | arithmetic and its laws |
| `rng` | reproducible random streams |
| `gemm`, `distance`, `centroids`, `layout`, `adsampling` | matrix products, distances, norms, the random rotation and the pruning ratios |
| `pdxearch`, `batch` | search for nearest centroids, with and without pruning |
| `splitting`, `superkmeans`, `assigning`, `balance` | k-means |
| `partition`, `hierarchical` | k-means in levels |
| `laws`, `runs`, `searches`, `pruning`, `exact`, `lengths` | what holds of the library as a whole, of every training run, of the searches, of arithmetic on whole numbers, and of rows brought to length 1 |
| `utils` | stopwatch, synthetic data, brute-force search |

`app/` turns `f32` slices into these numbers and back, draws normally distributed numbers, tests
what the library requires, and prints progress.
