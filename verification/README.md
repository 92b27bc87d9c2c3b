# rgdb

A light-propagation graph database: concepts are nodes of a compressed sparse
row graph, typed relations are edges, and relevance spreads from seed nodes
like light through rooms.

The library under `src/` is written in Verus. Its functions are verified
against their contracts, except the small wrappers marked
`#[verifier::external_body]` around calls into `byteorder`, `hashbrown` and
std (`format!`, UTF-8 decoding, lower-casing, I/O errors), whose contracts are
trusted:

- `graph`, `error`: the CSR graph, its well-formedness and its accessors.
- `rooms`, `partitioning`, `pvs`: rooms built from a room map, weakly
  connected component and breadth-first partitioning (no room above the
  target size), portal detection, potentially visible sets, their
  construction from reachable room lists, and representative nodes.
- `reasoning`: breadth-first reasoning paths, sound, complete and shortest
  within a hop limit.
- `relation`, `property_map`, `intent`, `llm_integration`, `text`: relation
  vocabularies, the default property map, keyword intent classification and
  query parsing.
- `level_file`, `legacy_level`, `level_v1`, `transitions`, `depth_profile`,
  `reranker`, `embedding_file`, `bytes`: byte formats (the current level file,
  and the version 1 level file of the angle-bin model with its header and
  sections) with proved encode/decode round trips and exact error behaviour
  on malformed input.
- `personalization`, `engine`, `cuda`, `messages`: user context, the
  decisions of the learning engine, GPU status mapping and error messages.

`app/` holds what works with `f32` values or performs I/O around the library:
the diffusion kernel, credit assignment, learned stores, the engine with its
shared state, embedding retrieval, the intensity threshold that turns light
into reachable-room lists for the PVS, and level files on disk.

`tests/` runs the library on concrete inputs.
