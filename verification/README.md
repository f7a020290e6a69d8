# cpd

Convex primitive decomposition: a triangle mesh is covered by boxes, spheres,
cylinders, capsules, frustums and prisms that can serve as its colliders. Every
face starts as a primitive of its own, the cheapest pair of neighbours is merged
until the target is met, and a series of passes then moves faces, splits,
repairs, culls and compresses what came out.

- `src/` is the verified library: the union-find, the rings of faces, the merge
  queue and the merge itself, the groups that the later passes work on, the
  choices that each pass makes, the tree over the mesh, the topology of the
  tessellations, the command line, and the texts that are written. Numbers
  are carried as their bit patterns (`Scalar`), with comparisons that are proved
  to follow the values they stand for; what is computed from numbers is handed
  in, as a value or as a function.
- `app/` is the program around it: loading, the arithmetic of fits and
  distances, the loops that drive the library, and the files that are written.
- `tests/` runs the library on concrete values.

Proof functions named `law_..` state what holds of the library as a whole.
