# hnsw

A hierarchical navigable small-world (HNSW) graph for approximate
nearest-neighbour search, written in Verus and proved against its contracts,
together with the logic of a benchmark runner for it.

The index is generic over the vector type `V`. Distances are `u32` keys
ordered like the distances they stand for; each call takes the distance as a
closure, so the same graph serves several distances and vector encodings.

## Layout

- `src/graph.rs`: the graph (`Hnsw`) and its abstract model (`HnswView`):
  construction, beam search per layer, neighbour selection with the
  diversity rule, insertion with back-links, rebuilding from saved parts,
  and the laws every well-formed graph obeys.
- `src/link.rs`, `src/node.rs`: neighbour links and per-node layer lists.
- `src/context.rs`: reusable search, selection and insertion contexts and
  the visited sets (epoch stamps or a hash set).
- `src/helpers.rs`: exact top-k, ground truth and recall counting.
- `src/bench.rs`: benchmark configuration checks, file naming, the size
  check of a loaded index, the choice of recall depth and ground-truth
  source, and ground truth validation.
- `src/text.rs`: decimal rendering of integers for messages.
- `tests/`: the tests of the library.
- `app/`: the benchmark program: configuration and dataset files, random
  layer draws, floating-point distances and reports, saving and loading
  indexes, parallel builds, and the product-quantized frozen index.

What the contracts state, in short:

- every operation keeps the graph well formed: neighbour lists hold at most
  `M` (layer 0: `M0`) distinct links to other nodes reaching the same layer,
  and the entry point reaches the top layer;
- a layer search returns, ascending, distinct nodes reachable from its
  start, the first no farther than the start; every neighbour of a returned
  node is returned or no nearer than the last one; and every reachable node
  comes back when fewer than `ef` do;
- a search returns at most `k` distinct nodes, nearest first, each with its
  distance; on a connected layer 0 it returns `min(k, n)` of them, exactly
  the nearest when `max(ef_search, k)` covers the graph; it descends
  greedily from the entry point, and for a deterministic distance its
  answer is a function of the graph, the query, `k` and `ef_search` alone
  (not of the context), the answer for a smaller `k` being a prefix;
- neighbour selection keeps every candidate, ascending, when they fit, and
  otherwise the greedy diverse selection (refilled nearest first when asked);
- an insertion appends the vector, descends greedily to the highest layer
  it shares with the graph, links it on that layer and each one below to
  the selection among a beam search's candidates (each search starting
  from the first node selected on the layer above), links back
  from every neighbour with room, re-chooses full neighbour lists so that
  they stay diverse, and, while the graph is small, links the new node to
  every node and keeps layer 0 connected; for a symmetric distance every
  stored link keeps the distance from its owner to its target.
