# mvcc

An in-memory key-value store with multi-version concurrency control, written in Rust and
verified with Verus.

A transaction reads the store as it was when the transaction began, keeps what it writes to
itself, and commits all of it at once, or not at all if another transaction has committed a
write of one of the same keys in the meantime.

- `src/tx.rs`: transactions
- `src/database.rs`: the store, its versions and its commit queue
- `src/laws.rs`: what is proved across several calls (snapshot isolation, no lost updates,
  safe clean-up of the commit queue, the agreement of the range reads with each other)
- `src/event.rs`, `src/history.rs`: what is proved of any sequence of calls on a transaction and
  of events on the store (when a commit meets a conflict, when a transaction is closed, what
  its version is)
- `src/merge.rs`: the merge of committed keys and updates that a range read makes
- `src/ordered_map.rs`, `src/version.rs`, `src/commit.rs`, `src/order.rs`: what these are built on
- `app/lib.rs`: handles that threads can share, which end their transaction when dropped
- `tests/`: tests of the compiled library
