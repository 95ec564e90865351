# rust_bart

Bayesian additive regression trees: the tree structure and its moves are a
verified Verus library, and the floating-point sampler runs around it.

- `src/tree/node.rs`: nodes in heap numbering (root 1, children of `k` at
  `2k` and `2k + 1`), their index arithmetic and routing.
- `src/tree/split.rs`: continuous and categorical splits (a threshold, or a
  bit set of categories), and the drawing of a sub split that the ancestors
  of a node still leave open.
- `src/tree/tree.rs`: the tree, its well-formedness, grow, change and prune,
  prediction, and the bookkeeping of which leaf each data row sits in, with
  proofs that every move keeps that bookkeeping in step with prediction.
- `src/sampler`, `src/sampler_par`: the grow, change and prune proposals and
  the counts that weigh them.
- `src/dataset.rs`: the checks on a data file's header, the choice of its
  features and categorical features, and the starting splits of a data set.
- `src/random.rs`: the calls into `rand`, with the contracts they are trusted to
  meet.
- `app/`: sufficient statistics, likelihoods, the noise sampler, the move
  loop and CSV loading, all on floating-point values, on top of the library.
