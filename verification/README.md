# lib — verified core of a tiny character-level GPT

`src/` is verified with Verus:

- `rng.rs` — xorshift64 generator (its state is never 0, a type
  invariant): seeding, raw outputs, the 53-bit
  numerator of a unit sample, Fisher–Yates shuffle (proved to permute).
- `graph.rs` — directed graph on `usize` ids with forward and reverse
  adjacency sets, in-degrees, and Kahn's topological sort (proved to give a
  topological order, nodes without predecessors first, that lists every node
  exactly when the graph is acyclic).
- `backward.rs` — breadth-first exploration of an autograd graph and the
  back-propagation order: output first, every node after all its consumers.
- `corpus.rs` — splits the training text into documents: one per line,
  trimmed of Unicode white space, empty lines dropped.
- `tokenizer.rs` — sorted character vocabulary with `<BOS>`/`<EOS>` markers,
  encoding with a block-size cut, decoding (proved to invert encoding).

The vocabulary is a sorted `Vec<char>`, proved strictly increasing by code
point, rather than a `BTreeSet<char>`: vstd's specification of `BTreeSet`
applies to keys whose ordering laws vstd proves, which are the integer types
and not `char`. A set of `u32` code points would be specified, but turning
its elements back into `char`s needs `char::from_u32`, which vstd does not
specify; the sorted vector keeps the whole path proved.

`app/` holds the floating-point parts (autograd values, model, Adam,
sampling) and the program's I/O (`microgpt types` runs the small
companion program in `app/type_tour.rs`); `tests/` runs the library on concrete
values.
