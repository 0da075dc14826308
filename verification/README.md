# nitro

The verified core of a CRDT document engine, written in Verus.

- `src/` — the library, every function proved against its contract:
  the integration of concurrent inserts into an item list and the splitting of string
  items (`crdt`), item data and its decoding (`item`), the order of ids across clients
  (`order`), ids and ranges (`id`), changes and their per-client stores (`change`, `change_store`,
  `id_store`, `queue_store`), the change DAG that takes changes back through a queue of changes with no child left
  (`dag`), a topological sort of changes (`change::sort`), order-statistic B-trees
  (`btree`, `change_btree`, `index::btree`, `change_sorter`), position mapping
  (`index_map`), text marks (`mark`), document and client ids (`doc`, `client`), embedded values
  (`any`), decimal text (`text`), and a binary codec with its
  read-back laws (`encoder`, `decoder`, `codec_v1`, `codec`, `roundtrip`, `names_codec`).
- `tests/` — scenarios run against the compiled library.
- `app/` — what stays outside the proofs: JSON forms of library values (serde) and tree
  drawings of the B-trees (ptree).
