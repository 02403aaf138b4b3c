# cgb-kdf

The discrete core of the Knowledge Decay Framework: deciding which nodes of
a knowledge graph survive a retention budget, how graphs are built from note
vaults and public datasets, and how background work is queued. The
functions in `src/` carry contracts checked by Verus, except a few small
wrappers around std, `rand` and `regex` calls, whose contracts are trusted
and documented where they stand.

## Layout

- `src/selection.rs` — ranking nodes by a key (degree, layer priority) and
  keeping the best `k`; the linear Rare → Core → Edge fill and its agreement
  with the priority sort.
- `src/canonical.rs` — canonical retention: Core and Rare kept, Garbage
  dropped, one representative per neighbour set among the Edge nodes.
- `src/components.rs`, `src/partition.rs` — connected components and the
  causal partition (components kept, dropped or cut to size, fresh module
  ids for the remaining nodes).
- `src/exact.rs` — settings of the exact and hybrid partition solvers and the
  canonical branching step of the exact search.
- `src/engines.rs` — the priority queue of background tasks and the engine
  record types; `src/insights.rs` — the insights the think engine reads off
  the cluster sizes of each layer.
- `src/pii.rs` — masking of card numbers, e-mail addresses, phone numbers
  and hex blobs in note text before its links are read.
- `src/vault.rs`, `src/text.rs` — wiki-link parsing, link keys, note ids,
  link edges and rarely linked notes; stable note hashes.
- `src/formats.rs`, `src/datasets.rs` — lines, fields and decimal numbers of
  the dataset files, access-log lines, and the graphs of triples, citation
  lists and access logs.
- `src/generators.rs` — adversarial benchmark graphs drawn from a seeded
  generator, with what holds of every draw.
- `src/batch.rs`, `src/estimators.rs`, `src/bias.rs`, `src/analogy.rs`,
  `src/labels.rs` — batch planning for transfer-entropy pairs, permutation
  pattern ranks, degree counts of the bias indicators, relation types and labels.
- `app/` — file and directory access, and the floating-point statistics
  around the library.

The tests under `tests/` run the library with the outside crates linked.
