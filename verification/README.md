# local_mixing

Tools for obfuscating and reducing reversible circuits built from ORNB
gates: a gate `[t, c1, c2]` flips wire `t` when wire `c1` is set or wire
`c2` is clear.  Every gate is its own inverse, so a circuit followed by its
reverse computes the identity; the obfuscation passes insert such
identities, move gates past commuting neighbours and cancel adjacent
pairs, and the reducers try to undo that work.

The library (`src/`) is verified with Verus.  Its model of a circuit is
the sequence of its gates and the function `eval_gates` that runs them on
a `usize` state; the contracts say which transformations keep that
function, which produce an exact shape, and what the table and hashing
helpers compute.

Layout:

- `src/infra`: circuits and their semantics, canonical relabelling, the
  byte layouts of identity and template stores, and the lookups in LMDB
  stores.
- `src/reducer`, `src/hashing`, `src/optimize`: the budgeted reducer,
  window keys and memos, subcircuit extraction, truth tables and the
  messages of the external SAT optimizer.
- `src/obfuscate`, `src/algorithms`: identity gadgets, mixers, the
  obfuscation passes, annealing moves, local mixing, identity growth,
  local rewriting with its kneading stage and peeling attacker, the wire
  shuffle with bit-flips, and the butterfly
  pieces: gate-pair replacement, the block layout with its bookends, the
  chained layout with a fresh identity per gate, merging compressed blocks
  in rounds, and window compression and expansion.
  The window compressors and both butterflies take the
  replacement finder, the window picker and the block compressor as
  arguments, with contracts on what those give back.
- `src/analysis`: state traces, the alignment walk and per-wire counts.
- `app/`: the command-line program.  It reads and writes circuits (as JSON
  lists of gates), runs external processes, writes LMDB indexes, and holds
  the parts computed in floating point (annealing temperatures and
  energies, coverage and survival ratios, alignment costs).
- `tests/`: tests run against the compiled library.

Calls into `rand`, `lmdb`, `blake3`, `bincode`, `byteorder` and the
standard hasher go through small trusted wrappers whose contracts state
what those crates document; results that depend on randomness or on what
is stored on disk are left unconstrained, and the verified code is proved
for every value they may take.  Searches in a store state which key each
answer was asked for and what is done with the first hit.
