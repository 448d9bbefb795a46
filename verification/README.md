# ficsit_companion_rs

A planner for Satisfactory production chains: crafting nodes, mergers and
splitters, sinks and groups, joined by links between pins, with exact
rational rates.

- `src/` is the library, written in Verus. Every function there carries a
  contract that Verus proves: rate propagation over linked pins (a linear
  system solved exactly, with every 64-bit overflow reported), the expression
  reader for typed rates, grouping and ungrouping, locking, and the save file
  (reading, writing and upgrading older versions).
- `tests/` runs the library on concrete graphs.
- `app/` holds what stays outside the proofs: JSON reading and writing
  through serde, game data with floating-point amounts, power figures and
  display helpers.
