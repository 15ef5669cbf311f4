# bags_list

A semi-sorted list of voters. The voters are kept in bags, each for one range of vote weights, and
each bag is a doubly-linked list in which whoever comes first stands first. Going through the list
goes through the bags from the greatest to the least.

- `src/` is the library, verified with Verus. `model.rs` says what a list holds and what each
  operation does to it; `list.rs`, `bag.rs`, `node.rs`, `thresholds.rs` and `migrate.rs` hold the
  code; `laws.rs`, `joining.rs`, `leaving.rs` and `locality.rs` state and prove what holds of the
  list as a whole.
- `app/` keeps the list of a runtime in its storage.
- `tests/` runs the library.
