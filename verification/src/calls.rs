//! What a caller gets from each call.
//!
//! Each law here takes the arguments and the result of one call, and says what the call has done
//! in terms of these alone: of the versions in the store, of the updates of the transaction, and
//! of the order, the `==` and the clones of the types. The last laws say which calls are taken.

use crate::database::Database;
use crate::err::Error;
use crate::merge::Direction;
use crate::order;
use crate::promises;
use crate::tx;
use crate::tx::Transaction;
use std::ops::Range;
use vstd::prelude::*;
use vstd::std_specs::cmp::*;

verus! {

/// A new store has no version of any key, nothing in its queue, and nobody at work.
pub proof fn law_new_gives_an_empty_store<K: Ord + Clone, V>(db: Database<K, V>, key: K, number: u64)
    requires
        call_ensures(Database::<K, V>::new, (), db),
    ensures
        db.wf(),
        db@.sequence == 0,
        db@.transaction_queue_id == 0,
        !db@.datastore.contains_key(key),
        !db@.transactions.contains_key(number),
        !db@.transaction_commit_queue.contains_key(number),
{
}

/// `read` begins a transaction that is open, read-only, at the current version and without
/// updates. Of the store it changes the count of open transactions only.
pub proof fn law_read_begins_read_only<K: Ord + Clone, V: Eq + Clone>(db: &mut Database<K, V>, tx: Transaction<K, V>)
    requires
        call_ensures(Transaction::<K, V>::read, (db,), tx),
    ensures
        tx.wf(),
        final(db).wf(),
        !tx@.done,
        !tx@.write,
        tx@.version == old(db)@.sequence,
        tx@.commit == old(db)@.transaction_queue_id,
        tx@.updates == Map::<K, Option<V>>::empty(),
        final(db)@.sequence == old(db)@.sequence,
        final(db)@.transaction_queue_id == old(db)@.transaction_queue_id,
        final(db)@.transaction_commit_queue == old(db)@.transaction_commit_queue,
        final(db)@.datastore == old(db)@.datastore,
        final(db)@.transactions.contains_key(old(db)@.sequence),
        final(db)@.transactions.remove(old(db)@.sequence) == old(db)@.transactions.remove(old(db)@.sequence),
        final(db)@.transactions[old(db)@.sequence] == if old(db)@.transactions.contains_key(old(db)@.sequence) {
            (old(db)@.transactions[old(db)@.sequence] + 1) % (u64::MAX + 1)
        } else {
            1
        },
{
}

/// `write` begins a transaction that is open, writeable, at the current version and without
/// updates. Of the store it changes the count of open transactions only.
pub proof fn law_write_begins_writeable<K: Ord + Clone, V: Eq + Clone>(db: &mut Database<K, V>, tx: Transaction<K, V>)
    requires
        call_ensures(Transaction::<K, V>::write, (db,), tx),
    ensures
        tx.wf(),
        final(db).wf(),
        !tx@.done,
        tx@.write,
        tx@.version == old(db)@.sequence,
        tx@.commit == old(db)@.transaction_queue_id,
        tx@.updates == Map::<K, Option<V>>::empty(),
        final(db)@.sequence == old(db)@.sequence,
        final(db)@.transaction_queue_id == old(db)@.transaction_queue_id,
        final(db)@.transaction_commit_queue == old(db)@.transaction_commit_queue,
        final(db)@.datastore == old(db)@.datastore,
        final(db)@.transactions.contains_key(old(db)@.sequence),
        final(db)@.transactions.remove(old(db)@.sequence) == old(db)@.transactions.remove(old(db)@.sequence),
        final(db)@.transactions[old(db)@.sequence] == if old(db)@.transactions.contains_key(old(db)@.sequence) {
            (old(db)@.transactions[old(db)@.sequence] + 1) % (u64::MAX + 1)
        } else {
            1
        },
{
}

/// `begin` begins a transaction as `write` or as `read` does.
pub proof fn law_begin_begins_as_asked<K: Ord + Clone, V: Eq + Clone>(
    db: &mut Database<K, V>,
    write: bool,
    tx: Transaction<K, V>,
)
    requires
        call_ensures(Database::<K, V>::begin, (db, write), tx),
    ensures
        tx.wf(),
        final(db).wf(),
        !tx@.done,
        tx@.write == write,
        tx@.version == old(db)@.sequence,
        tx@.commit == old(db)@.transaction_queue_id,
        tx@.updates == Map::<K, Option<V>>::empty(),
        final(db)@.sequence == old(db)@.sequence,
        final(db)@.transaction_queue_id == old(db)@.transaction_queue_id,
        final(db)@.transaction_commit_queue == old(db)@.transaction_commit_queue,
        final(db)@.datastore == old(db)@.datastore,
        final(db)@.transactions.contains_key(old(db)@.sequence),
        final(db)@.transactions.remove(old(db)@.sequence) == old(db)@.transactions.remove(old(db)@.sequence),
        final(db)@.transactions[old(db)@.sequence] == if old(db)@.transactions.contains_key(old(db)@.sequence) {
            (old(db)@.transactions[old(db)@.sequence] + 1) % (u64::MAX + 1)
        } else {
            1
        },
{
}

/// `drop` takes the transaction off the count of its version and leaves all data as it is. The
/// commit queue stays as it is while a transaction is left at the version or an older one is
/// on record, and otherwise loses the numbers up to the version.
pub proof fn law_drop_leaves_the_data<K: Ord + Clone, V: Eq + Clone>(
    tx: Transaction<K, V>,
    db: &mut Database<K, V>,
    id: u64,
)
    requires
        old(db)@.transactions.contains_key(tx@.version) ==> old(db)@.transactions[tx@.version] > 0,
        call_ensures(Transaction::<K, V>::drop, (tx, db), ()),
    ensures
        final(db).wf(),
        final(db)@.sequence == old(db)@.sequence,
        final(db)@.transaction_queue_id == old(db)@.transaction_queue_id,
        final(db)@.datastore == old(db)@.datastore,
        final(db)@.transactions.remove(tx@.version) == old(db)@.transactions.remove(tx@.version),
        final(db)@.transactions.contains_key(tx@.version) <==> old(db)@.transactions.contains_key(tx@.version) && (
        old(db)@.transactions[tx@.version] > 1 || tx@.version >= old(db)@.sequence),
        final(db)@.transactions.contains_key(tx@.version) ==> final(db)@.transactions[tx@.version]
            == old(db)@.transactions[tx@.version] - 1,
        final(db)@.transaction_commit_queue.contains_key(id) <==> old(db)@.transaction_commit_queue.contains_key(id)
            && (tx@.version < id || final(db)@.transactions.contains_key(tx@.version)
            || !old(db)@.transactions.contains_key(tx@.version) || exists|v: u64|
            v < tx@.version && #[trigger] old(db)@.transactions.contains_key(v)),
        final(db)@.transaction_commit_queue.contains_key(id) ==> final(db)@.transaction_commit_queue[id]
            == old(db)@.transaction_commit_queue[id],
{
    promises::law_an_end_clears_what_nobody_needs(old(db)@, tx@.version, id, id);
}

/// What a transaction tells of itself: the version it began at, whether it is closed, whether
/// it takes writes, and whether it has any update.
pub proof fn law_a_transaction_tells_its_state<K: Ord + Clone, V: Eq + Clone>(
    tx: &Transaction<K, V>,
    version: u64,
    closed: bool,
    writable: Result<(), Error>,
    has_updates: bool,
)
    requires
        call_ensures(Transaction::<K, V>::version, (tx,), version),
        call_ensures(Transaction::<K, V>::closed, (tx,), closed),
        call_ensures(Transaction::<K, V>::writable, (tx,), writable),
        call_ensures(Transaction::<K, V>::has_updates, (tx,), has_updates),
    ensures
        version == tx@.version,
        closed <==> tx@.done,
        writable is Ok <==> !tx@.done && tx@.write,
        writable == Err::<(), Error>(Error::TxClosed) <==> tx@.done,
        writable == Err::<(), Error>(Error::TxNotWritable) <==> !tx@.done && !tx@.write,
        has_updates <==> exists|k: K| #[trigger] tx@.updates.contains_key(k),
{
    if has_updates {
        assert(tx@.updates.contains_key(tx@.updates.dom().choose()));
    }
}

/// What a store tells of itself: how many transactions have asked to commit, and how many are
/// open at a version.
pub proof fn law_a_store_tells_its_state<K: Ord + Clone, V>(
    db: &Database<K, V>,
    version: u64,
    requests: u64,
    open: Option<u64>,
)
    requires
        call_ensures(Database::<K, V>::transaction_queue_id, (db,), requests),
        call_ensures(Database::<K, V>::open_transactions, (db, version), open),
    ensures
        requests == db@.transaction_queue_id,
        open is Some <==> db@.transactions.contains_key(version),
        open is Some ==> open->0 == db@.transactions[version],
{
}

/// `cancel` succeeds exactly on an open transaction, which it closes and leaves without
/// updates. It changes nothing else.
pub proof fn law_cancel_closes_and_forgets<K: Ord + Clone, V: Eq + Clone>(
    tx: &mut Transaction<K, V>,
    r: Result<(), Error>,
)
    requires
        call_ensures(Transaction::<K, V>::cancel, (tx,), r),
    ensures
        final(tx).wf(),
        r is Ok <==> !old(tx)@.done,
        r is Err ==> r == Err::<(), Error>(Error::TxClosed) && final(tx)@ == old(tx)@,
        r is Ok ==> final(tx)@.done && final(tx)@.updates == Map::<K, Option<V>>::empty(),
        final(tx)@.write == old(tx)@.write,
        final(tx)@.commit == old(tx)@.commit,
        final(tx)@.version == old(tx)@.version,
{
}

/// `set` succeeds exactly on an open and writeable transaction. The key then has the value among
/// the updates, whatever it had there before, and nothing else changes.
pub proof fn law_set_writes_the_value<K: Ord + Clone, V: Eq + Clone>(
    tx: &mut Transaction<K, V>,
    key: K,
    val: V,
    r: Result<(), Error>,
)
    requires
        call_ensures(Transaction::<K, V>::set, (tx, key, val), r),
    ensures
        final(tx).wf(),
        r is Ok <==> !old(tx)@.done && old(tx)@.write,
        r == Err::<(), Error>(Error::TxClosed) <==> old(tx)@.done,
        r == Err::<(), Error>(Error::TxNotWritable) <==> !old(tx)@.done && !old(tx)@.write,
        r is Err ==> final(tx)@ == old(tx)@,
        r is Ok ==> final(tx)@.updates == old(tx)@.updates.insert(key, Some(val)),
        final(tx)@.done == old(tx)@.done,
        final(tx)@.write == old(tx)@.write,
        final(tx)@.commit == old(tx)@.commit,
        final(tx)@.version == old(tx)@.version,
{
}

/// `del` succeeds exactly on an open and writeable transaction. The key then is deleted among
/// the updates, whatever it had there before, and nothing else changes.
pub proof fn law_del_writes_a_delete<K: Ord + Clone, V: Eq + Clone>(
    tx: &mut Transaction<K, V>,
    key: K,
    r: Result<(), Error>,
)
    requires
        call_ensures(Transaction::<K, V>::del, (tx, key), r),
    ensures
        final(tx).wf(),
        r is Ok <==> !old(tx)@.done && old(tx)@.write,
        r == Err::<(), Error>(Error::TxClosed) <==> old(tx)@.done,
        r == Err::<(), Error>(Error::TxNotWritable) <==> !old(tx)@.done && !old(tx)@.write,
        r is Err ==> final(tx)@ == old(tx)@,
        r is Ok ==> final(tx)@.updates == old(tx)@.updates.insert(key, None),
        final(tx)@.done == old(tx)@.done,
        final(tx)@.write == old(tx)@.write,
        final(tx)@.commit == old(tx)@.commit,
        final(tx)@.version == old(tx)@.version,
{
}

/// `put` writes as `set` does, but on an open and writeable transaction it fails, and writes
/// nothing, exactly if the key has a committed value at the version of the transaction.
pub proof fn law_put_writes_absent_keys<K: Ord + Clone, V: Eq + Clone>(
    tx: &mut Transaction<K, V>,
    db: &Database<K, V>,
    key: K,
    val: V,
    r: Result<(), Error>,
)
    requires
        call_ensures(Transaction::<K, V>::put, (tx, db, key, val), r),
    ensures
        final(tx).wf(),
        r is Ok <==> !old(tx)@.done && old(tx)@.write && !db@.snapshot(old(tx)@.version).contains_key(key),
        r == Err::<(), Error>(Error::KeyAlreadyExists) <==> !old(tx)@.done && old(tx)@.write && db@.snapshot(
            old(tx)@.version,
        ).contains_key(key),
        r == Err::<(), Error>(Error::TxClosed) <==> old(tx)@.done,
        r == Err::<(), Error>(Error::TxNotWritable) <==> !old(tx)@.done && !old(tx)@.write,
        r is Err ==> final(tx)@ == old(tx)@,
        r is Ok ==> final(tx)@.updates == old(tx)@.updates.insert(key, Some(val)),
        final(tx)@.done == old(tx)@.done,
        final(tx)@.write == old(tx)@.write,
        final(tx)@.commit == old(tx)@.commit,
        final(tx)@.version == old(tx)@.version,
{
}

/// `putc` writes as `set` does, but on an open and writeable transaction it fails, and writes
/// nothing, exactly if the committed value at the version of the transaction is not the
/// expected one: one of them is absent and the other is not, or both are there and `==` says
/// that they differ.
pub proof fn law_putc_writes_over_expected_values<K: Ord + Clone, V: Eq + Clone>(
    tx: &mut Transaction<K, V>,
    db: &Database<K, V>,
    key: K,
    val: V,
    chk: Option<V>,
    r: Result<(), Error>,
)
    requires
        call_ensures(Transaction::<K, V>::putc, (tx, db, key, val, chk), r),
    ensures
        final(tx).wf(),
        r == Err::<(), Error>(Error::TxClosed) <==> old(tx)@.done,
        r == Err::<(), Error>(Error::TxNotWritable) <==> !old(tx)@.done && !old(tx)@.write,
        !old(tx)@.done && old(tx)@.write ==> {
            let stored = db@.snapshot(old(tx)@.version);
            &&& r is Err ==> r == Err::<(), Error>(Error::ValNotExpectedValue)
            &&& chk is None ==> (r is Ok <==> !stored.contains_key(key))
            &&& chk is Some && !stored.contains_key(key) ==> r is Err
            &&& chk is Some && stored.contains_key(key) ==> call_ensures(V::eq, (&chk->0, &stored[key]), r is Ok)
            &&& chk is Some && stored.contains_key(key) && V::obeys_eq_spec() ==> (r is Ok <==> chk->0.eq_spec(
                &stored[key],
            ))
        },
        r is Err ==> final(tx)@ == old(tx)@,
        r is Ok ==> final(tx)@.updates == old(tx)@.updates.insert(key, Some(val)),
        final(tx)@.done == old(tx)@.done,
        final(tx)@.write == old(tx)@.write,
        final(tx)@.commit == old(tx)@.commit,
        final(tx)@.version == old(tx)@.version,
{
}

/// `delc` writes as `del` does, but on an open and writeable transaction it fails, and writes
/// nothing, exactly if the committed value at the version of the transaction is not the
/// expected one.
pub proof fn law_delc_deletes_expected_values<K: Ord + Clone, V: Eq + Clone>(
    tx: &mut Transaction<K, V>,
    db: &Database<K, V>,
    key: K,
    chk: Option<V>,
    r: Result<(), Error>,
)
    requires
        call_ensures(Transaction::<K, V>::delc, (tx, db, key, chk), r),
    ensures
        final(tx).wf(),
        r == Err::<(), Error>(Error::TxClosed) <==> old(tx)@.done,
        r == Err::<(), Error>(Error::TxNotWritable) <==> !old(tx)@.done && !old(tx)@.write,
        !old(tx)@.done && old(tx)@.write ==> {
            let stored = db@.snapshot(old(tx)@.version);
            &&& r is Err ==> r == Err::<(), Error>(Error::ValNotExpectedValue)
            &&& chk is None ==> (r is Ok <==> !stored.contains_key(key))
            &&& chk is Some && !stored.contains_key(key) ==> r is Err
            &&& chk is Some && stored.contains_key(key) ==> call_ensures(V::eq, (&chk->0, &stored[key]), r is Ok)
            &&& chk is Some && stored.contains_key(key) && V::obeys_eq_spec() ==> (r is Ok <==> chk->0.eq_spec(
                &stored[key],
            ))
        },
        r is Err ==> final(tx)@ == old(tx)@,
        r is Ok ==> final(tx)@.updates == old(tx)@.updates.insert(key, None),
        final(tx)@.done == old(tx)@.done,
        final(tx)@.write == old(tx)@.write,
        final(tx)@.commit == old(tx)@.commit,
        final(tx)@.version == old(tx)@.version,
{
}

/// `commit` fails on a closed and on a read-only transaction, and does nothing there. It fails
/// on any other exactly if the commit queue has, behind the place of the transaction, a key
/// among its updates, and then changes no data. Otherwise it makes one version, in which each
/// key of the updates is as updated and every other key as before, and leaves the older
/// versions as they were.
pub proof fn law_commit_stores_the_updates_or_nothing<K: Ord + Clone, V: Eq + Clone>(
    tx: &mut Transaction<K, V>,
    db: &mut Database<K, V>,
    r: Result<(), Error>,
    key: K,
    version: u64,
)
    requires
        old(db).wf(),
        old(db)@.transaction_queue_id < u64::MAX,
        call_ensures(Transaction::<K, V>::commit, (tx, db), r),
    ensures
        final(tx).wf(),
        final(db).wf(),
        r == Err::<(), Error>(Error::TxClosed) <==> old(tx)@.done,
        r == Err::<(), Error>(Error::TxNotWritable) <==> !old(tx)@.done && !old(tx)@.write,
        r == Err::<(), Error>(Error::KeyWriteConflict) <==> !old(tx)@.done && old(tx)@.write && exists|id: u64, k: K|
            #![trigger old(db)@.transaction_commit_queue[id].keyset.contains(k)]
            old(db)@.transaction_commit_queue.contains_key(id) && old(tx)@.commit < id
                && old(db)@.transaction_commit_queue[id].keyset.contains(k) && old(tx)@.updates.contains_key(k),
        r is Err ==> r->Err_0 is TxClosed || r->Err_0 is TxNotWritable || r->Err_0 is KeyWriteConflict,
        old(tx)@.done || !old(tx)@.write ==> final(tx)@ == old(tx)@ && final(db)@ == old(db)@,
        !old(tx)@.done && old(tx)@.write ==> final(tx)@.done && final(db)@.transaction_queue_id
            == old(db)@.transaction_queue_id + 1,
        r is Err ==> {
            &&& final(db)@.sequence == old(db)@.sequence
            &&& final(db)@.datastore == old(db)@.datastore
            &&& final(db)@.transaction_commit_queue == old(db)@.transaction_commit_queue
            &&& final(tx)@.updates == old(tx)@.updates
        },
        r is Ok ==> {
            let newest = final(db)@.snapshot(final(db)@.sequence);
            let before = old(db)@.snapshot(old(db)@.sequence);
            let id = final(db)@.transaction_queue_id;
            &&& final(tx)@.updates == Map::<K, Option<V>>::empty()
            &&& final(db)@.sequence == old(db)@.sequence + 1
            &&& old(tx)@.updates.contains_key(key) ==> (newest.contains_key(key) <==> old(tx)@.updates[key] is Some)
            &&& old(tx)@.updates.contains_key(key) && newest.contains_key(key) ==> newest[key]
                == old(tx)@.updates[key]->0
            &&& !old(tx)@.updates.contains_key(key) ==> (newest.contains_key(key) <==> before.contains_key(key))
            &&& !old(tx)@.updates.contains_key(key) && newest.contains_key(key) ==> newest[key] == before[key]
            &&& version <= old(db)@.sequence ==> final(db)@.snapshot(version) == old(db)@.snapshot(version)
            &&& final(db)@.transaction_commit_queue.contains_key(id)
            &&& final(db)@.transaction_commit_queue[id].keyset == old(tx)@.updates.dom()
            &&& final(db)@.transaction_commit_queue.remove(id) == old(db)@.transaction_commit_queue.remove(id)
        },
        final(db)@.transactions == old(db)@.transactions,
        final(tx)@.write == old(tx)@.write,
        final(tx)@.commit == old(tx)@.commit,
        final(tx)@.version == old(tx)@.version,
{
    promises::law_commits_are_answered_by_the_queue(old(db)@, old(tx)@);
    promises::law_commit_stores_all_or_nothing(old(db)@, old(tx)@, false, key, version);
    promises::law_commit_leaves_its_keys_in_the_queue(old(db)@, old(tx)@, version, key);
}

/// `key_exists` and `get` fail exactly on a closed transaction. They speak of the update of the
/// key, where there is one, and otherwise of what was committed at the version of the
/// transaction. `get` hands out a clone.
pub proof fn law_reads_answer_what_was_written_last<K: Ord + Clone, V: Eq + Clone>(
    tx: &Transaction<K, V>,
    db: &Database<K, V>,
    key: K,
    found: Result<bool, Error>,
    value: Result<Option<V>, Error>,
)
    requires
        call_ensures(Transaction::<K, V>::key_exists, (tx, db, &key), found),
        call_ensures(Transaction::<K, V>::get, (tx, db, &key), value),
    ensures
        tx@.done ==> found == Err::<bool, Error>(Error::TxClosed),
        tx@.done ==> value == Err::<Option<V>, Error>(Error::TxClosed),
        !tx@.done ==> found is Ok && value is Ok,
        !tx@.done ==> (found->Ok_0 <==> value->Ok_0 is Some),
        !tx@.done && tx@.updates.contains_key(key) ==> (found->Ok_0 <==> tx@.updates[key] is Some),
        !tx@.done && !tx@.updates.contains_key(key) ==> (found->Ok_0 <==> db@.snapshot(tx@.version).contains_key(key)),
        !tx@.done && tx@.updates.contains_key(key) && found->Ok_0 ==> cloned(tx@.updates[key]->0, value->Ok_0->0),
        !tx@.done && !tx@.updates.contains_key(key) && found->Ok_0 ==> cloned(
            db@.snapshot(tx@.version)[key],
            value->Ok_0->0,
        ),
{
    promises::law_reads_are_own_writes_or_the_snapshot(db@, tx@, key);
}

/// `keys` fails exactly on a closed transaction. It lists keys that are not before the start of
/// the range, are before its end, and are read by the transaction, in strictly ascending
/// order. It lists no more than `limit`, and misses a key only where it lists as many, all of
/// which come first.
pub proof fn law_keys_lists_the_range<K: Ord + Clone, V: Eq + Clone>(
    tx: &Transaction<K, V>,
    db: &Database<K, V>,
    rng: Range<K>,
    limit: Option<usize>,
    r: Result<Vec<K>, Error>,
    i: int,
    j: int,
    key: K,
)
    requires
        call_ensures(Transaction::<K, V>::keys, (tx, db, rng, limit), r),
    ensures
        tx@.done ==> r == Err::<Vec<K>, Error>(Error::TxClosed),
        !tx@.done ==> {
            let keys = r->Ok_0@;
            &&& r is Ok
            &&& 0 <= i < j < keys.len() ==> order::before(keys[i], keys[j])
            &&& 0 <= i < keys.len() ==> !order::before(keys[i], rng.start) && order::before(keys[i], rng.end)
            &&& 0 <= i < keys.len() ==> tx@.contents(db@).contains_key(keys[i])
            &&& limit is Some ==> keys.len() <= limit->0
            &&& !order::before(key, rng.start) && order::before(key, rng.end) && tx@.contents(db@).contains_key(key)
                && !keys.contains(key) ==> {
                &&& limit is Some
                &&& keys.len() == limit->0
                &&& 0 <= i < keys.len() ==> order::before(keys[i], key)
            }
        },
{
    if !tx@.done {
        let range = tx@.range(db@, rng.start, rng.end);
        promises::law_range_reads_are_ordered_and_complete(
            Direction::Forward,
            r->Ok_0@,
            range.dom(),
            limit,
            i,
            j,
            key,
        );
    }
}

/// `keys_reverse` fails exactly on a closed transaction. It lists keys that are not before the start of
/// the range, are before its end, and are read by the transaction, in strictly descending
/// order. It lists no more than `limit`, and misses a key only where it lists as many, all of
/// which come first.
pub proof fn law_keys_reverse_lists_the_range_backwards<K: Ord + Clone, V: Eq + Clone>(
    tx: &Transaction<K, V>,
    db: &Database<K, V>,
    rng: Range<K>,
    limit: Option<usize>,
    r: Result<Vec<K>, Error>,
    i: int,
    j: int,
    key: K,
)
    requires
        call_ensures(Transaction::<K, V>::keys_reverse, (tx, db, rng, limit), r),
    ensures
        tx@.done ==> r == Err::<Vec<K>, Error>(Error::TxClosed),
        !tx@.done ==> {
            let keys = r->Ok_0@;
            &&& r is Ok
            &&& 0 <= i < j < keys.len() ==> order::before(keys[j], keys[i])
            &&& 0 <= i < keys.len() ==> !order::before(keys[i], rng.start) && order::before(keys[i], rng.end)
            &&& 0 <= i < keys.len() ==> tx@.contents(db@).contains_key(keys[i])
            &&& limit is Some ==> keys.len() <= limit->0
            &&& !order::before(key, rng.start) && order::before(key, rng.end) && tx@.contents(db@).contains_key(key)
                && !keys.contains(key) ==> {
                &&& limit is Some
                &&& keys.len() == limit->0
                &&& 0 <= i < keys.len() ==> order::before(key, keys[i])
            }
        },
{
    if !tx@.done {
        let range = tx@.range(db@, rng.start, rng.end);
        promises::law_range_reads_are_ordered_and_complete(
            Direction::Reverse,
            r->Ok_0@,
            range.dom(),
            limit,
            i,
            j,
            key,
        );
    }
}

/// `scan` fails exactly on a closed transaction. It lists keys that are not before the start of
/// the range, are before its end, and are read by the transaction, in strictly ascending
/// order, each with a clone of the value that is read. It lists no more than `limit`, and
/// misses a key only where it lists as many, all of which come first.
pub proof fn law_scan_lists_the_range_with_values<K: Ord + Clone, V: Eq + Clone>(
    tx: &Transaction<K, V>,
    db: &Database<K, V>,
    rng: Range<K>,
    limit: Option<usize>,
    r: Result<Vec<(K, V)>, Error>,
    i: int,
    j: int,
    key: K,
)
    requires
        call_ensures(Transaction::<K, V>::scan, (tx, db, rng, limit), r),
    ensures
        tx@.done ==> r == Err::<Vec<(K, V)>, Error>(Error::TxClosed),
        !tx@.done ==> {
            let keys = tx::keys_of(r->Ok_0@);
            &&& r is Ok
            &&& 0 <= i < j < keys.len() ==> order::before(keys[i], keys[j])
            &&& 0 <= i < keys.len() ==> !order::before(keys[i], rng.start) && order::before(keys[i], rng.end)
            &&& 0 <= i < keys.len() ==> tx@.contents(db@).contains_key(keys[i])
            &&& limit is Some ==> keys.len() <= limit->0
            &&& !order::before(key, rng.start) && order::before(key, rng.end) && tx@.contents(db@).contains_key(key)
                && !keys.contains(key) ==> {
                &&& limit is Some
                &&& keys.len() == limit->0
                &&& 0 <= i < keys.len() ==> order::before(keys[i], key)
            }
            &&& 0 <= i < keys.len() ==> r->Ok_0@[i].0 == keys[i]
            &&& 0 <= i < keys.len() ==> cloned(tx@.contents(db@)[keys[i]], r->Ok_0@[i].1)
            &&& r->Ok_0@.len() == keys.len()
        },
{
    if !tx@.done {
        let range = tx@.range(db@, rng.start, rng.end);
        promises::law_range_reads_are_ordered_and_complete(
            Direction::Forward,
            tx::keys_of(r->Ok_0@),
            range.dom(),
            limit,
            i,
            j,
            key,
        );
    }
}

/// `scan_reverse` fails exactly on a closed transaction. It lists keys that are not before the start of
/// the range, are before its end, and are read by the transaction, in strictly descending
/// order, each with a clone of the value that is read. It lists no more than `limit`, and
/// misses a key only where it lists as many, all of which come first.
pub proof fn law_scan_reverse_lists_the_range_backwards_with_values<K: Ord + Clone, V: Eq + Clone>(
    tx: &Transaction<K, V>,
    db: &Database<K, V>,
    rng: Range<K>,
    limit: Option<usize>,
    r: Result<Vec<(K, V)>, Error>,
    i: int,
    j: int,
    key: K,
)
    requires
        call_ensures(Transaction::<K, V>::scan_reverse, (tx, db, rng, limit), r),
    ensures
        tx@.done ==> r == Err::<Vec<(K, V)>, Error>(Error::TxClosed),
        !tx@.done ==> {
            let keys = tx::keys_of(r->Ok_0@);
            &&& r is Ok
            &&& 0 <= i < j < keys.len() ==> order::before(keys[j], keys[i])
            &&& 0 <= i < keys.len() ==> !order::before(keys[i], rng.start) && order::before(keys[i], rng.end)
            &&& 0 <= i < keys.len() ==> tx@.contents(db@).contains_key(keys[i])
            &&& limit is Some ==> keys.len() <= limit->0
            &&& !order::before(key, rng.start) && order::before(key, rng.end) && tx@.contents(db@).contains_key(key)
                && !keys.contains(key) ==> {
                &&& limit is Some
                &&& keys.len() == limit->0
                &&& 0 <= i < keys.len() ==> order::before(key, keys[i])
            }
            &&& 0 <= i < keys.len() ==> r->Ok_0@[i].0 == keys[i]
            &&& 0 <= i < keys.len() ==> cloned(tx@.contents(db@)[keys[i]], r->Ok_0@[i].1)
            &&& r->Ok_0@.len() == keys.len()
        },
{
    if !tx@.done {
        let range = tx@.range(db@, rng.start, rng.end);
        promises::law_range_reads_are_ordered_and_complete(
            Direction::Reverse,
            tx::keys_of(r->Ok_0@),
            range.dom(),
            limit,
            i,
            j,
            key,
        );
    }
}

/// A store can be made for any type of keys that has a total order, whose equality is equality
/// of values, and whose clones are the same value.
pub proof fn law_a_store_can_be_made<K: Ord + Clone, V>()
    requires
        order::key_laws::<K>(),
    ensures
        call_requires(Database::<K, V>::new, ()),
{
}

/// Every store takes every request to begin a transaction.
pub proof fn law_stores_take_transactions<K: Ord + Clone, V: Eq + Clone>(db: &mut Database<K, V>, write: bool)
    requires
        old(db).wf(),
    ensures
        call_requires(Transaction::<K, V>::read, (db,)),
        call_requires(Transaction::<K, V>::write, (db,)),
        call_requires(Database::<K, V>::begin, (db, write)),
{
}

/// Every store takes back every transaction that it has counted.
pub proof fn law_stores_take_transactions_back<K: Ord + Clone, V: Eq + Clone>(
    tx: Transaction<K, V>,
    db: &mut Database<K, V>,
)
    requires
        old(db).wf(),
        old(db)@.transactions.contains_key(tx@.version) ==> old(db)@.transactions[tx@.version] > 0,
    ensures
        call_requires(Transaction::<K, V>::drop, (tx, db)),
{
}

/// Every transaction takes every read, on every store. The one exception is a range that ends
/// before it starts, once the transaction has updates.
pub proof fn law_transactions_take_reads<K: Ord + Clone, V: Eq + Clone>(
    tx: &Transaction<K, V>,
    db: &Database<K, V>,
    key: K,
    rng: Range<K>,
    limit: Option<usize>,
    version: u64,
)
    requires
        tx.wf(),
        db.wf(),
    ensures
        call_requires(Transaction::<K, V>::version, (tx,)),
        call_requires(Transaction::<K, V>::closed, (tx,)),
        call_requires(Transaction::<K, V>::writable, (tx,)),
        call_requires(Transaction::<K, V>::has_updates, (tx,)),
        call_requires(Database::<K, V>::transaction_queue_id, (db,)),
        call_requires(Database::<K, V>::open_transactions, (db, version)),
        call_requires(Transaction::<K, V>::key_exists, (tx, db, &key)),
        call_requires(Transaction::<K, V>::get, (tx, db, &key)),
        tx@.done || tx@.updates == Map::<K, Option<V>>::empty() || !order::before(rng.end, rng.start) ==> {
            &&& call_requires(Transaction::<K, V>::keys, (tx, db, rng, limit))
            &&& call_requires(Transaction::<K, V>::keys_reverse, (tx, db, rng, limit))
            &&& call_requires(Transaction::<K, V>::scan, (tx, db, rng, limit))
            &&& call_requires(Transaction::<K, V>::scan_reverse, (tx, db, rng, limit))
        },
{
}

/// Every transaction takes every write and every request to cancel.
pub proof fn law_transactions_take_writes<K: Ord + Clone, V: Eq + Clone>(
    tx: &mut Transaction<K, V>,
    db: &Database<K, V>,
    key: K,
    val: V,
    chk: Option<V>,
)
    requires
        old(tx).wf(),
        db.wf(),
    ensures
        call_requires(Transaction::<K, V>::cancel, (tx,)),
        call_requires(Transaction::<K, V>::set, (tx, key, val)),
        call_requires(Transaction::<K, V>::put, (tx, db, key, val)),
        call_requires(Transaction::<K, V>::putc, (tx, db, key, val, chk)),
        call_requires(Transaction::<K, V>::del, (tx, key)),
        call_requires(Transaction::<K, V>::delc, (tx, db, key, chk)),
{
}

/// Every transaction takes every request to commit, on every store that has a number left for it.
pub proof fn law_transactions_take_commits<K: Ord + Clone, V: Eq + Clone>(
    tx: &mut Transaction<K, V>,
    db: &mut Database<K, V>,
)
    requires
        old(tx).wf(),
        old(db).wf(),
        !old(tx)@.done && old(tx)@.write ==> old(db)@.transaction_queue_id < u64::MAX,
    ensures
        call_requires(Transaction::<K, V>::commit, (tx, db)),
{
}

} // verus!
