//! What happens to the store, one event at a time.

use crate::database::DatabaseView;
use crate::tx::TransactionView;
use vstd::prelude::*;

verus! {

/// What a call on some transaction does to the store. Calls that are not listed, and commits
/// that are refused because the transaction is closed or read-only, do nothing to it.
#[verifier::reject_recursive_types(K)]
#[verifier::reject_recursive_types(V)]
pub enum Event<K, V> {
    /// A transaction begins
    Begin,
    /// A transaction commits its updates
    Commit { updates: Map<K, Option<V>> },
    /// A transaction asks to commit and meets a conflict
    Reject,
    /// A transaction that began at `version` is dropped
    End { version: u64 },
}

/// The store after an event.
pub open spec fn after_event<K, V>(db: DatabaseView<K, V>, event: Event<K, V>) -> DatabaseView<K, V> {
    match event {
        Event::Begin => db.begun(),
        Event::Commit { updates } => db.committed(updates),
        Event::Reject => db.rejected(),
        Event::End { version } => db.released(version),
    }
}

/// The event finds a number for what it brings into the commit queue.
pub open spec fn numbered<K, V>(db: DatabaseView<K, V>, event: Event<K, V>) -> bool {
    event is Commit || event is Reject ==> db.transaction_queue_id < u64::MAX
}

/// The event can take place: it finds a number, a transaction that begins can be counted, and
/// a transaction that ends is on record.
pub open spec fn possible<K, V>(db: DatabaseView<K, V>, event: Event<K, V>) -> bool {
    &&& numbered(db, event)
    &&& event is Begin ==> db.open_at(db.sequence) < u64::MAX
    &&& event matches Event::End { version } ==> db.open_at(version) > 0
}

/// The event is not the end of `tx`: where a transaction of the same version ends, another
/// one is left.
pub open spec fn spares<K, V>(db: DatabaseView<K, V>, event: Event<K, V>, tx: TransactionView<K, V>) -> bool {
    event matches Event::End { version } ==> version == tx.version ==> db.open_at(version) > 1
}

/// The event is a commit that writes `key`.
pub open spec fn commits_key<K, V>(event: Event<K, V>, key: K) -> bool {
    event matches Event::Commit { updates } && updates.contains_key(key)
}

} // verus!
