# nest-crdt

Conflict-free replicated data types for the Nest VCS, written in Verus: every
operation carries a contract over a mathematical model of its type, and the
properties the types are built for are stated and proved as lemmas where the
model allows it.

- `hlc` — hybrid logical clock; timestamps are totally ordered by
  (physical, logical, node id).
- `lww` — last-writer-wins register. Proved: any two delivery orders of the
  same writes (with distinct timestamps) end with the same, latest write.
- `sequence` — append-mostly ordered list, kept stably sorted by timestamp.
  Proved: merging two replicas either way gives the same entries, and
  merging a replica twice changes nothing.
- `set` — observed-remove set of strings: removes keep the tokens they took
  away as tombstones. Proved: add wins over a concurrent remove, a remove
  that saw every add wins over an older replica, and merging is
  commutative, associative and idempotent.
- `map` — observed-remove map from strings to nested CRDT values
  (`CrdtValue`): puts are tagged, removes take away the tags they saw.
  Proved: a put a concurrent remove did not see survives it.
- `text` — RGA-based collaborative text, newer siblings first. Proved: a
  local insert lands at its visible position, any two concurrent operations
  commute, two forks whose nodes edit locally end with the same elements
  once each merges the other's log (in either order, or in turn), and
  merging the same log twice, or a replica's own log, changes nothing. Each
  replica's log stays reflected in its elements and accounts for them, and
  merges are bounded so that replicas can keep merging and editing.
- `seqs`, `strings` — sequence counting/filtering and string ordering used by
  the contracts above.

`tests/` exercises the library; `app/` holds serde-serializable forms of the
library's operations and of the text, sequence, set and map replicas, with
conversions both ways (a replica state is checked against the library's
representation invariant on the way in).
