# diskann

Scratch space for graph-based nearest-neighbor search, and a converter for the `.fvecs` and
`.ivecs` files of the public benchmark datasets, verified with [Verus](https://github.com/verus-lang/verus).

- `src/` is the verified library. Every function states in its contract what it returns, and
  public proof functions named `law_*` state what holds across functions.
- `app/` is the command line converter: it reads and writes the files and computes distances,
  and leaves everything else to the library.
- `tests/` runs the compiled library.

The only code that is trusted rather than proved is `src/overflow.rs`, which states what a
`hashbrown::HashSet` of integers does.
