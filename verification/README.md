# grovedb

The verified core of a hierarchical authenticated data structure: a root tree
above subtrees, each of which is a Merkle AVL tree ("merk") that holds elements
and further subtrees.

`src/` is the library. Every function in it carries a contract that Verus
proves. What only a storage engine can do is not in it: where the library needs
something of storage, it says so, and goes on with what came of it.

- `costs`: what operations cost, and how costs add up.
- `tree`, `hash`: nodes of a merk, their hashes, and the walker that loads them.
- `proofs`: proof operators, their encoding, the machine that executes them, and
  chunk proofs. `proofs::roundtrip` and `proofs::replication` state that what is
  created verifies, and that the chunks of a tree replicate it, and
  `proofs::reopened` that it is the same for a tree that is in memory in part.
- `merk`: the chunk producer.
- `batch`: batches of operations. They are collected (`ops`), validated
  (`validate`, with its rules as laws in `rules`) and applied (`apply`, with
  `progress` on its steps and `runs` on what a whole batch comes to).
- `root_leaves`, `root_tree`: the leaves of the root tree and its root hash.
- `propagation`: root hashes on their way up.
- `is_empty_tree`, `worst_case_costs`: the rest of the database's rules.

Five functions are trusted, not proved: `blake3::hash`, `bincode::serialize`,
`bincode::deserialize`, and the Merkle tree of `rs_merkle` (its construction and
its root). What is claimed of them stands with their wrappers.

`app/` is a database over a storage engine that carries out what the library
decides. `tests/` runs the library.
