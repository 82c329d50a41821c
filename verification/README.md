# young_tableau_rs

Young tableaux with machine-checked contracts: Robinson–Schensted row
insertion and bumping, reverse insertion, the RSK correspondence, hook
lengths, standard and semistandard tableaux, integer partitions, Greene
invariants, reading words, jeu de taquin, inversions and lattice words.

## Layout

- `src/` — the library, verified with Verus.
  - `tableau.rs`: `YoungTableau` and `Partition`, shapes, conjugates, dominance,
    display; conjugation is an involution on partitions.
  - `insertion.rs`: the model of row insertion and reverse insertion, and the
    executable operations.
  - `insertion_proofs.rs`: insertion keeps tableaux semistandard of partition
    shape, adds exactly the inserted value, and is undone by reverse insertion
    (repeated values included).
  - `correspondence.rs`: RSK and its inverse, proved mutually inverse between
    words and pairs (semistandard P, standard Q, same shape); longest
    increasing/decreasing subsequences.
  - `schensted.rs`: the first row of the insertion tableau is as long as the
    longest (weakly) increasing subsequence.
  - `knuth.rs`: elementary Knuth moves; Knuth's theorem (two words are
    Knuth equivalent exactly when they have the same insertion tableau); a
    word is Knuth equivalent to the reading word of its insertion tableau;
    the number of rows is the length of the longest strictly decreasing
    subsequence.
  - `greene.rs`: Greene's theorem: the first `k` rows of the insertion
    tableau hold as many cells as the largest cover of the word by `k`
    disjoint (weakly) increasing subsequences.
  - `rsk.rs`: Greene invariants, reading words, Knuth equivalence by insertion
    tableaux, the dual RSK shape and the subsequences it measures, patience
    sorting, jeu de taquin (a slide keeps the entries and the order of rows
    and columns, with or without repeated entries), inversions, lattice words.
  - `hook.rs`: hook lengths, the count `n! / ∏ hooks`, factorials.
  - `hook_formula.rs`: the hook length formula: the standard tableaux of a
    partition shape number `n! / ∏ hooks`. Both sides obey the corner
    recursion; for the hook side the hook walk weights are kept as integers.
  - `standard.rs`: generation of all standard tableaux of a shape (exactly
    once each) and of all partitions of `n`.
  - `schur.rs`: all semistandard tableaux of a shape with bounded entries,
    each once, and their number.
- `app/` — floating-point evaluation of Schur polynomials (summing weights
  over the library's semistandard tableaux) and the Jacobi–Trudi determinant.
- `tests/` — tests on concrete values.
