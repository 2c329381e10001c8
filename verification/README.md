# joltworks lookup tables

Lookup tables whose reads are proved through multilinear extensions (MLEs) and a
prefix-suffix decomposition of those extensions, written in Verus.

Layout:

- `src/field.rs`: the `JoltField` trait (a prime field, specified by its modulus and the
  canonical value of each element) and `Fp`, the Goldilocks field that implements it.
- `src/hypercube.rs`: points of the Boolean hypercube, weighted bit sums and the products
  of `(1 - r_i)` that the MLEs are built from, with the lemmas about them.
- `src/utils/`: bit helpers (`index_to_field_bitvector`, `uninterleave_bits`,
  `LookupBits`).
- `src/lookup_tables/`: the `JoltLookupTable` and `PrefixSuffixDecompositionTrait`
  traits, the tables (AND, OR, XOR, clamp, negated ReLU, unsigned absolute value,
  unsigned less-than), and the prefix and suffix components.
- `tests/`: tests run against the compiled library.
- `app/`: serde-enabled copies of the table types, with conversions both ways.

- `src/lookup_tables/prefixes/`: the prefixes, their checkpoints and their sparse-dense
  evaluation (`prefix_mle`, `update_prefix_checkpoint`, `update_checkpoints`); each prefix is
  a polynomial built pair by pair from the most significant variable down.

For every table the library proves that its MLE agrees with the table on the hypercube, that
the MLE is affine in each variable, and that on any point made of a prefix part (any values)
and a Boolean suffix, the recombination of the prefixes' polynomials with the suffixes'
values is the MLE. Checkpoints that agree with the bound variables keep agreeing after an
update, and from them `prefix_mle` evaluates each prefix's polynomial; together these give
the law of a sum-check round (`lemma_sumcheck_round`).
