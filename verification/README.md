# vexdb

A vector database in verified Rust: an exact flat index and an approximate HNSW
index over vectors with JSON payloads, filters, binary snapshots, and the
collections of an HTTP server around them. What each function returns or changes
is stated in its contract and proved with Verus.

## Layout

| where | what |
|-------|------|
| `src/float.rs`, `src/distance.rs` | floating-point numbers by their bit patterns, and the distance metrics |
| `src/candidate.rs`, `src/beam.rs`, `src/graph.rs`, `src/link.rs`, `src/rng.rs`, `src/hnsw.rs` | the HNSW index: ordered candidates, beam search, descent, neighbor selection, level sampling |
| `src/flat.rs`, `src/records.rs`, `src/index.rs` | the flat index, the model that both indexes share, and their common interface |
| `src/json.rs`, `src/payload.rs` | payloads and filters |
| `src/codec.rs`, `src/format.rs`, `src/persist.rs` | the `.vex` snapshot format: its meaning, its writer and its reader |
| `src/api.rs`, `src/state.rs`, `src/lifecycle.rs`, `src/routes.rs` | the server's collections, requests and refusals |
| `src/embed.rs`, `src/bench.rs` | one index for a page to embed; building from records and measuring recall |
| `src/history.rs`, `src/*laws.rs` | what holds across functions and of every index that was built: hit counts, exactness, the shape of the graph, removal, round trips |
| `app/` | the `vex` program: command line, HTTP server, bindings for a page |

## Floating point

The library holds numbers as bit patterns and compares, negates and converts
them itself. Operations that round (sums, products, quotients, roots and
logarithms) are done by an arithmetic unit that the caller passes in: a closure
from an operation and two bit patterns to a bit pattern. Contracts speak of what
that closure computes; `app/fpu.rs` passes the machine's own arithmetic.
