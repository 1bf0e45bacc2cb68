# wfc_multiset

Fixed-size multisets over the indices `0 .. E`, held as one count per index,
written in Verus.

- `src/count.rs` — `ElemScalar` (values a slot can hold) and `Count` (the
  unsigned integer types used as multiplicities, with their specifications),
  implemented for `u8`, `u16`, `u32`, `u64` and `usize`; the random draw used
  by `choose_random` goes through `rand`.
- `src/seq_counts.rs` — spec functions over a sequence of counts (totals,
  zero and nonzero slots, the slot a cumulative threshold picks) and lemmas.
- `src/multiset.rs` — `SlotMultiset<N, E>`: constructors, set operations,
  predicates, choosing, maps and folds, each with its contract.
- `src/laws.rs` — proof functions that relate the operations.
- `tests/` — scenario tests.
- `app/` — the entropy measures, which compute in floating point.
