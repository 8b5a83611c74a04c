# astraea

The core of the AstraeaDB graph database as a library verified with Verus:
Verus checks every function in `src/` against its `requires`/`ensures`
contract, and the public `lemma_*` proof functions state the properties the
library keeps across calls.

## Layout

- `src/` — the verified library.
  - `types`, `error`, `decimal`: identifiers, temporal validity, graph paths,
    the error type, decimal rendering.
  - `graph`: the in-memory graph store (node and edge CRUD, identifier
    counters, endpoint checks, cascading deletes, label and type lookups),
    with its consistency invariant.
  - `traversal`, `reach`: breadth-first and depth-first search, unweighted
    shortest paths (also at a point in time), path reconstruction; the
    reachability and distance theory they are proved against.
  - `csr`, `cpu`: CSR layouts built from the graph, transposes, out-degrees,
    BFS levels.
  - `components`, `scc`, `centrality`, `sampling`: connected components,
    Tarjan's strongly connected components, degree counts, GraphSAGE-style
    neighbour sampling.
  - `partition`, `shard`, `coordinator`: shard routing.
  - `keys`, `encrypted`, `engine`: demonstration searchable encryption and
    the encrypted query engine.
  - `cli`, `gnn`: command-line text helpers, GNN configuration types and
    the training-data check.
  - `transfer`, `shell`: the decisions of the `import`, `export` and `shell`
    commands (what an import item becomes and how outcomes are counted,
    which record an export fetches next, what a shell line does).
  - `json`, `community`: JSON objects with the shallow merge that property
    updates use; contiguous relabelling of community numbers.
- `tests/` — tests of the library.
- `app/` — ordinary Rust around the library: the command-line commands'
  file, terminal and network work and the configuration file;
  serde-enabled copies of its types; the storage, transaction,
  vector-index and coordination traits; the property graph with JSON and
  float payloads; and the floating-point algorithms (semantic and hybrid
  search, weighted shortest paths, PageRank, Louvain, centrality scores,
  GNN layers and training).

Not carried over: the Arrow Flight service (bulk node and edge import and
export over gRPC), whose Arrow and tonic crates are not available here, and
the vector-index maintenance (rebuild, save, load), which needs the project's
HNSW index crate; the graph's vector searches in `app/` take the distance
metric as an argument instead.
