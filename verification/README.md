# oxc_react_compiler (verified passes)

Passes of a React compiler, written in Verus: each function states what it
computes in `requires`/`ensures`, and Verus proves the code against it.

- `src/hir/`: the control-flow-graph IR (HIR) and the tree-shaped reactive
  IR, with spec models of identifiers, places and scopes (`model.rs`),
  verified copies (`copy.rs`) and relations between graphs (`shape.rs`).
- `src/optimization/`: passes over the HIR: constant propagation (the
  rounds, the walk and terminal folding), dead-code elimination, block merging, IIFE inlining,
  function naming and outlining, server-side-rendering stripping and others.
- `src/reactive_scopes/`: scope alignment, membership and terminals, the
  conversion of the graph into the reactive tree (`build_reactive.rs`), the
  passes over that tree (pruning, merging, renaming, promotion, inlining),
  dependency helpers, and output helpers of code generation (runtime import,
  source maps, splicing compiled functions into the source).
- `src/fxhash.rs`, `src/text.rs`: the few calls into `rustc_hash`'s hash
  collections and `String::push`, each with the contract it is trusted for.
- `app/`: ordinary Rust around the library: the folding of constant
  expressions, which computes with floating point, handed to the library's
  verified constant-propagation rounds as two functions.
- `tests/`: tests run against the compiled library.

Each public function's contract is in its header; laws relating several
functions are public proof functions next to them.
