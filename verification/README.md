# roadline

A verified library for task roadmaps. Tasks depend on each other; the
library keeps them in a dependency graph, checks that the graph is acyclic,
places every task in time (the range algebra), lays the tasks out on a grid
of time units and lanes (the grid algebra) and turns the grid into drawing
coordinates (the reified layer). It also reads GitHub locations of roadmap
documents, derives heading fragments from markdown, and decides how the
interactive view reacts to clicks and touches.

Layout:

- `src/` — the library, verified with Verus: `graph`, `traversal` and
  `analysis` (the dependency graph, its walks, cycles, components and
  topological order), `range_algebra`, `stretch`, `grid_algebra`, `reified`
  and `roadline` (the layout pipeline), `github_url`, `github_client` and
  `fragment` (GitHub locations, requests and markdown fragments), and
  `selection` (selection states, input triggers and click propagation).
- `tests/` — tests of the library on concrete values.
- `app/` — the I/O around it: HTTP fetching with reqwest, error types with
  `Display`, and serde forms of plain values.
