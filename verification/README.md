# belay

The verified core of a read-only Rust security scanner, written in Verus.

- `src/` is the library. Every function in it is verified against its
  `requires`/`ensures` contract:
  - `index`: line tables and spans, the CSR call graph, Tarjan's SCC
    condensation, 2-hop reachability labels, witness paths, name resolution,
    and the walk that turns a parsed file's item model into symbols and calls.
  - `taint`: the IFDS-style taint solver, the lattice solver and the
    union-find alias analysis.
  - `plan`: the prompt trie, with the law that depth-first order prefills
    exactly one token per node and that no order does better; partitioning;
    Belady hints; LPT.
  - `stat`: content-defined chunking, MinHash and LSH clustering.
  - `engine` and `report`: severities, prompt assembly, the model's tools,
    the slash commands, and summaries.
- `app/` holds the program around the library: file and network I/O, the
  `syn` parser and its conversion into the library's model, JSON, the
  terminal UI, and the floating-point statistics.
- `tests/` runs the library on concrete inputs.
