# rtree

An R-tree of points in `DIM` dimensions, with at most `M` children per node,
answering nearest-neighbour (`closest`) and k-nearest-neighbour (`k_closest`)
queries by best-first search. The library is written in Verus and verified.

## Layout

- `src/scalar.rs` — the `Scalar` trait: the total preorder and the arithmetic
  (`plus`, `minus`, `times`) that the tree performs on coordinates, with the
  monotonicity facts its proofs use; a verified instance for `i64`
  (saturating arithmetic).
- `src/rect.rs` — rectangles (`merge`, `inter`, `contains`, `volume`,
  `margin`, `dist_from_point`) and `points_distance`, with their laws.
- `src/rtree.rs` — the tree: well-formedness, the multiset of entries,
  insertion with node splitting.
- `src/search.rs` — the search queue, `closest` and `k_closest`, and the laws
  that relate insertion and the queries.
- `tests/` — the tests, with integer coordinates and with `f64` coordinates.
- `app/` — the `f64` front end (`Coord`, a non-NaN double that implements
  `Scalar`) and SVG drawing of two-dimensional trees.

## What is proved

- Insertion keeps the tree well formed (slots filled from the front, every
  rectangle holding its children) and adds exactly the new entry; a tree
  built by insertions keeps all its leaves at one depth, at least two
  children in an internal root and at least `max(1, 2M/5)` children in every
  other node. A node splits exactly when it is full and, for an internal
  node, the insertion into its chosen child split that child; the two halves
  hold the old children and the new one, cut as the R*-tree split chooses
  (the axis of least total margin, and on it the cut of least margin, then
  overlap), and the chosen child is the one whose rectangle grows least.
- `closest` returns an entry of the tree with the least squared euclidean
  distance (`points_distance`) to the query point, together with that
  distance.
- `k_closest` returns the `min(k, n)` nearest entries, nearest first, and no
  entry left out is nearer than any returned one; the distances returned for
  a smaller `k` are a prefix of those for a larger one, and the first equals
  the distance that `closest` returns.

These hold for every coordinate type whose operations meet the facts stated in
`Scalar`. For `f64` they are the monotonicity of rounded arithmetic and
that `x - x` and `x * 0` are equal to zero (`-0.0` included); they fail
where arithmetic reaches an infinity, which the `f64` front end turns into a
panic where a result would be NaN.
