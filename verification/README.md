# hot_rust

A height optimized trie (HOT) with its behaviour proved in Verus, and an
interactive viewer around it.

- `src/trie/` is the verified library.
  - `key.rs`, `key_impls.rs`: the `HotKey` trait (bits, byte windows and
    byte-wise order of keys) and its implementations for `String`, `u64` and
    `u32`.
  - `bits.rs`: parallel bit extraction and the 64-bit windows that partial
    keys are read from.
  - `entry.rs`, `node.rs`: entries and nodes, the structural invariant
    (`HOTNode::wf`), the map a node stands for, masks and partial keys.
  - `insert.rs`, `remove.rs`: insertion (pull-up, leaf pushdown,
    intermediate nodes, splits) and removal (underflow collapse), each
    proved to keep the invariant and to act on the map as an insert or a
    remove does.
  - `lookup.rs`, `scan.rs`, `steps.rs`: lookups (which descend by
    representative keys and return exactly the value the trie maps a key
    to), traced partial-key searches, range scans and the steps of an
    animated scan, each given by a spec function.
  - `hot.rs`: the trie itself (`HOT`), with its public operations.
  - `laws.rs`: properties that span operations (a lookup gives back what an
    insertion wrote and nothing after a removal; a matching search has found
    a stored key; range scans return exactly the keys within their bounds, in
    order).
  - `dot.rs`, `inspect.rs`: Graphviz output and inspection helpers.
- `tests/` runs the library on concrete values.
- `app/` is the egui viewer: drawing, animation timing and input handling.
