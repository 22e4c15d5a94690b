//! What each operation promises its caller.
//!
//! The contracts of [`Transaction`](crate::tx::Transaction) and
//! [`Database`](crate::database::Database) speak of answers, of transactions and stores after a
//! call, and of what a transaction reads. The laws here say of each of these what it comes to:
//! which answer a caller gets, what is read after a call, and what has not changed. They hold of
//! every store and every transaction, at every version.

use crate::commit::CommitView;
use crate::database;
use crate::database::DatabaseView;
use crate::err::Error;
use crate::laws;
use crate::merge;
use crate::merge::Direction;
use crate::order;
use crate::tx;
use crate::tx::TransactionView;
use crate::version;
use vstd::laws_cmp::*;
use vstd::laws_eq::*;
use vstd::prelude::*;
use vstd::std_specs::cmp::*;

verus! {

/// Every type can be a key that has a total order, whose equality is equality of values, and
/// whose clones are the same value.
pub proof fn law_lawful_types_can_be_keys<K: Ord + Clone>()
    ensures
        order::key_laws::<K>() <==> obeys_cmp::<K>() && obeys_concrete_eq::<K>() && (forall|a: K, b: K| #[trigger]
            cloned(a, b) ==> a == b),
{
}

/// The order on keys is that of their `Ord`.
pub proof fn law_keys_are_in_their_own_order<K: Ord>(a: K, b: K)
    ensures
        order::before(a, b) <==> a.partial_cmp_spec(&b) == Some(core::cmp::Ordering::Less),
{
    reveal(order::before);
}

/// A store that is new has no data at any version, no open transaction, and an empty queue.
pub proof fn law_a_new_store_is_empty<K, V>(version: u64, key: K)
    ensures
        DatabaseView::<K, V>::init().sequence == 0,
        DatabaseView::<K, V>::init().transaction_queue_id == 0,
        !DatabaseView::<K, V>::init().snapshot(version).contains_key(key),
        DatabaseView::<K, V>::init().transactions == Map::<u64, u64>::empty(),
        DatabaseView::<K, V>::init().transaction_commit_queue == Map::<u64, CommitView<K>>::empty(),
        DatabaseView::<K, V>::init().datastore == Map::<K, Seq<(u64, Option<V>)>>::empty(),
{
}

/// A transaction begins open, with nothing written, at the current version and at the current
/// end of the commit queue, and it is writeable exactly if it was asked to be.
pub proof fn law_transactions_begin_as_asked<K, V>(db: DatabaseView<K, V>, write: bool)
    ensures
        !TransactionView::begin(db, write).done,
        TransactionView::begin(db, write).write == write,
        TransactionView::begin(db, write).commit == db.transaction_queue_id,
        TransactionView::begin(db, write).version == db.sequence,
        TransactionView::begin(db, write).updates == Map::<K, Option<V>>::empty(),
{
}

/// The beginning of a transaction is counted at the current version, and changes nothing else.
pub proof fn law_a_beginning_is_only_counted<K, V>(db: DatabaseView<K, V>, version: u64)
    ensures
        db.begun().sequence == db.sequence,
        db.begun().transaction_queue_id == db.transaction_queue_id,
        db.begun().transaction_commit_queue == db.transaction_commit_queue,
        db.begun().datastore == db.datastore,
        db.begun().transactions.contains_key(version) <==> db.transactions.contains_key(version) || version
            == db.sequence,
        version != db.sequence && db.transactions.contains_key(version) ==> db.begun().transactions[version]
            == db.transactions[version],
        db.transactions.contains_key(db.sequence) && db.transactions[db.sequence] < u64::MAX
            ==> db.begun().transactions[db.sequence] == db.transactions[db.sequence] + 1,
        db.transactions.contains_key(db.sequence) && db.transactions[db.sequence] == u64::MAX
            ==> db.begun().transactions[db.sequence] == 0,
        !db.transactions.contains_key(db.sequence) ==> db.begun().transactions[db.sequence] == 1,
{
}

/// The end of a transaction is counted at its version, and leaves the data, the numbers and
/// the other versions alone. The record of the version goes with its last transaction, once
/// the version is behind, and then the queue loses the numbers up to the version if that was
/// the oldest version on record, and none otherwise.
pub proof fn law_an_end_clears_what_nobody_needs<K, V>(db: DatabaseView<K, V>, version: u64, other: u64, id: u64)
    requires
        db.transactions.contains_key(version) ==> db.transactions[version] > 0,
    ensures
        db.released(version).sequence == db.sequence,
        db.released(version).transaction_queue_id == db.transaction_queue_id,
        db.released(version).datastore == db.datastore,
        !db.transactions.contains_key(version) ==> db.released(version) == db,
        other != version ==> (db.released(version).transactions.contains_key(other)
            <==> db.transactions.contains_key(other)),
        other != version && db.transactions.contains_key(other) ==> db.released(version).transactions[other]
            == db.transactions[other],
        db.released(version).transactions.contains_key(version) <==> db.transactions.contains_key(version) && !(
        db.transactions[version] == 1 && version < db.sequence),
        db.released(version).transactions.contains_key(version) ==> db.released(version).transactions[version]
            == db.transactions[version] - 1,
        db.released(version).transaction_commit_queue.contains_key(id) ==> db.transaction_commit_queue.contains_key(id)
            && db.released(version).transaction_commit_queue[id] == db.transaction_commit_queue[id],
        db.transaction_commit_queue.contains_key(id) ==> (db.released(version).transaction_commit_queue.contains_key(
            id,
        ) <==> version < id || db.released(version).transactions.contains_key(version)
            || !db.transactions.contains_key(version) || exists|v: u64|
            v < version && #[trigger] db.transactions.contains_key(v)),
{
    if exists|v: u64| v < version && #[trigger] db.transactions.contains_key(v) {
        let v = choose|v: u64| v < version && #[trigger] db.transactions.contains_key(v);
        assert(!db.oldest(version));
    }
}

/// A call on a transaction that is not closed is answered. A closed one answers that it is
/// closed. Writes are taken exactly by transactions that are open and writeable, and a closed
/// transaction says that it is closed before it says that it is read-only.
pub proof fn law_who_may_read_and_write<K, V>(tx: TransactionView<K, V>)
    ensures
        tx.done ==> tx.usable() == Err::<(), Error>(Error::TxClosed),
        !tx.done ==> tx.usable() is Ok,
        tx.done ==> tx.writable() == Err::<(), Error>(Error::TxClosed),
        !tx.done && !tx.write ==> tx.writable() == Err::<(), Error>(Error::TxNotWritable),
        !tx.done && tx.write ==> tx.writable() is Ok,
{
}

/// On a transaction that takes writes, a write is answered with the outcome of its check on the
/// committed data, whatever that is, and on any other transaction with the refusal. So `put`
/// fails exactly where the key has a committed value, and `set` and `del` never do.
pub proof fn law_writes_are_answered_by_their_check<K, V>(tx: TransactionView<K, V>, check: Result<(), Error>)
    ensures
        !tx.done && tx.write ==> tx.write_answer(check) == check,
        tx.done ==> tx.write_answer(check) == Err::<(), Error>(Error::TxClosed),
        !tx.done && !tx.write ==> tx.write_answer(check) == Err::<(), Error>(Error::TxNotWritable),
{
}

/// After a write that was answered with `Ok`, the transaction reads the value of that write,
/// which is none for a delete, whatever it read before, and reads every other key as before.
/// After a write that was refused, it reads everything as before.
pub proof fn law_the_last_write_is_read<K, V>(
    db: DatabaseView<K, V>,
    tx: TransactionView<K, V>,
    key: K,
    value: Option<V>,
    answer: Result<(), Error>,
    other: K,
)
    ensures
        answer is Ok ==> (tx.after_write(key, value, answer).contents(db).contains_key(key) <==> value is Some),
        answer is Ok && value is Some ==> tx.after_write(key, value, answer).contents(db)[key] == value->0,
        answer is Ok && other != key ==> (tx.after_write(key, value, answer).contents(db).contains_key(other)
            <==> tx.contents(db).contains_key(other)),
        answer is Ok && other != key && tx.contents(db).contains_key(other) ==> tx.after_write(
            key,
            value,
            answer,
        ).contents(db)[other] == tx.contents(db)[other],
        answer is Ok ==> tx.after_write(key, value, answer).updates == tx.updates.insert(key, value),
        answer is Err ==> tx.after_write(key, value, answer) == tx,
        tx.after_write(key, value, answer).done == tx.done,
        tx.after_write(key, value, answer).write == tx.write,
        tx.after_write(key, value, answer).commit == tx.commit,
        tx.after_write(key, value, answer).version == tx.version,
{
}

/// Of two writes of a key that are both answered with `Ok`, the second alone is what counts.
pub proof fn law_a_later_write_replaces_an_earlier_one<K, V>(
    tx: TransactionView<K, V>,
    key: K,
    earlier: Option<V>,
    later: Option<V>,
)
    ensures
        tx.after_write(key, earlier, Ok(())).after_write(key, later, Ok(())) == tx.after_write(key, later, Ok(())),
{
    assert(tx.updates.insert(key, earlier).insert(key, later) =~= tx.updates.insert(key, later));
}

/// A cancel closes an open transaction and drops what it wrote, so that it reads the snapshot
/// again. It does nothing to a closed one.
pub proof fn law_cancel_rolls_back<K, V>(db: DatabaseView<K, V>, tx: TransactionView<K, V>, key: K)
    ensures
        tx.after_cancel().done,
        tx.done ==> tx.after_cancel() == tx,
        !tx.done ==> tx.after_cancel().updates == Map::<K, Option<V>>::empty(),
        tx.after_cancel().write == tx.write,
        tx.after_cancel().commit == tx.commit,
        tx.after_cancel().version == tx.version,
        !tx.done ==> tx.after_cancel().contents(db) == db.snapshot(tx.version),
{
    if !tx.done {
        assert(tx.after_cancel().contents(db) =~= db.snapshot(tx.version));
    }
}

/// A transaction reads of a key what it wrote, if it wrote the key, and otherwise what was
/// committed at its version.
pub proof fn law_reads_are_own_writes_or_the_snapshot<K, V>(
    db: DatabaseView<K, V>,
    tx: TransactionView<K, V>,
    key: K,
)
    ensures
        tx.updates.contains_key(key) ==> (tx.contents(db).contains_key(key) <==> tx.updates[key] is Some),
        tx.updates.contains_key(key) && tx.updates[key] is Some ==> tx.contents(db)[key] == tx.updates[key]->0,
        !tx.updates.contains_key(key) ==> (tx.contents(db).contains_key(key) <==> db.snapshot(
            tx.version,
        ).contains_key(key)),
        !tx.updates.contains_key(key) && db.snapshot(tx.version).contains_key(key) ==> tx.contents(db)[key]
            == db.snapshot(tx.version)[key],
        tx.contents(db).contains_key(key) ==> database::lookup(tx.contents(db), key) == Some(tx.contents(db)[key]),
        !tx.contents(db).contains_key(key) ==> database::lookup(tx.contents(db), key) is None,
{
}

/// What is read of the versions of one key is the newest that is not later than the reader.
pub proof fn law_the_newest_version_is_read<V>(versions: Seq<(u64, Option<V>)>, version: u64)
    ensures
        forall|i: int|
            0 <= i < versions.len() && versions[i].0 <= version && (forall|j: int|
                i < j < versions.len() ==> version < (#[trigger] versions[j]).0) ==> version::value_at(
                versions,
                version,
            ) == (#[trigger] versions[i]).1,
        (forall|i: int| 0 <= i < versions.len() ==> version < (#[trigger] versions[i]).0) ==> version::value_at(
            versions,
            version,
        ) is None,
    decreases versions.len(),
{
    if versions.len() > 0 {
        let rest = versions.drop_last();
        let last = versions.len() - 1;
        law_the_newest_version_is_read(rest, version);
        assert forall|i: int|
            0 <= i < versions.len() && versions[i].0 <= version && (forall|j: int|
                i < j < versions.len() ==> version < (#[trigger] versions[j]).0) implies version::value_at(
            versions,
            version,
        ) == (#[trigger] versions[i]).1 by {
            if i < last {
                assert(version < versions[last].0);
                assert(rest[i] == versions[i]);
                assert forall|j: int| i < j < rest.len() implies version < (#[trigger] rest[j]).0 by {
                    assert(rest[j] == versions[j]);
                }
            }
        }
        if forall|i: int| 0 <= i < versions.len() ==> version < (#[trigger] versions[i]).0 {
            assert(version < versions[last].0);
            assert forall|i: int| 0 <= i < rest.len() implies version < (#[trigger] rest[i]).0 by {
                assert(rest[i] == versions[i]);
            }
        }
    }
}

/// The snapshot of a version has of each key the newest version of it that is not later. A
/// key is absent where that is a delete, or where there is none.
pub proof fn law_snapshots_hold_the_newest_versions<K, V>(db: DatabaseView<K, V>, version: u64, key: K, i: int)
    ensures
        !db.datastore.contains_key(key) ==> !db.snapshot(version).contains_key(key),
        db.datastore.contains_key(key) && 0 <= i < db.datastore[key].len() && db.datastore[key][i].0 <= version && (
        forall|j: int| i < j < db.datastore[key].len() ==> version < (#[trigger] db.datastore[key][j]).0) ==> {
            &&& db.snapshot(version).contains_key(key) <==> db.datastore[key][i].1 is Some
            &&& db.datastore[key][i].1 is Some ==> db.snapshot(version)[key] == db.datastore[key][i].1->0
        },
        db.datastore.contains_key(key) && (forall|j: int|
            0 <= j < db.datastore[key].len() ==> version < (#[trigger] db.datastore[key][j]).0)
            ==> !db.snapshot(version).contains_key(key),
{
    law_the_newest_version_is_read(db.versions_of(key), version);
}

/// What a request to commit is answered. An open and writeable transaction meets a conflict
/// exactly if the commit queue holds, behind the place of the transaction, a key that the
/// transaction wrote. Otherwise it commits.
pub proof fn law_commits_are_answered_by_the_queue<K, V>(db: DatabaseView<K, V>, tx: TransactionView<K, V>)
    ensures
        tx.done ==> tx.commit_answer(db) == Err::<(), Error>(Error::TxClosed),
        !tx.done && !tx.write ==> tx.commit_answer(db) == Err::<(), Error>(Error::TxNotWritable),
        !tx.done && tx.write && (exists|id: u64, k: K|
            #![trigger db.transaction_commit_queue[id].keyset.contains(k)]
            db.transaction_commit_queue.contains_key(id) && tx.commit < id
                && db.transaction_commit_queue[id].keyset.contains(k) && tx.updates.contains_key(k))
            ==> tx.commit_answer(db) == Err::<(), Error>(Error::KeyWriteConflict),
        !tx.done && tx.write && (forall|id: u64, k: K|
            #![trigger db.transaction_commit_queue[id].keyset.contains(k)]
            db.transaction_commit_queue.contains_key(id) && tx.commit < id
                && db.transaction_commit_queue[id].keyset.contains(k) ==> !tx.updates.contains_key(k))
            ==> tx.commit_answer(db) is Ok,
{
    let keys = tx.updates.dom();
    if exists|id: u64, k: K|
        #![trigger db.transaction_commit_queue[id].keyset.contains(k)]
        db.transaction_commit_queue.contains_key(id) && tx.commit < id
            && db.transaction_commit_queue[id].keyset.contains(k) && tx.updates.contains_key(k) {
        let (id, k) = choose|id: u64, k: K|
            #![trigger db.transaction_commit_queue[id].keyset.contains(k)]
            db.transaction_commit_queue.contains_key(id) && tx.commit < id
                && db.transaction_commit_queue[id].keyset.contains(k) && tx.updates.contains_key(k);
        assert(keys.contains(k));
        assert(!db.transaction_commit_queue[id].keyset.disjoint(keys));
        assert(db.conflicts(tx.commit, keys));
    }
    if db.conflicts(tx.commit, keys) {
        let id = choose|id: u64|
            #![trigger db.transaction_commit_queue.contains_key(id)]
            db.transaction_commit_queue.contains_key(id) && tx.commit < id
                && !db.transaction_commit_queue[id].keyset.disjoint(keys);
        let k = choose|k: K| db.transaction_commit_queue[id].keyset.contains(k) && keys.contains(k);
        assert(db.transaction_commit_queue[id].keyset.contains(k) && tx.updates.contains_key(k));
    }
}

/// A commit that is answered with `Ok` stores every update and nothing else. The store that it
/// leaves has one version more. A transaction that begins there reads of each key the update,
/// where there is one, and otherwise what the store held before. A commit that is answered
/// with an error leaves the data of every version as it was, and adds no version.
pub proof fn law_commit_stores_all_or_nothing<K, V>(
    db: DatabaseView<K, V>,
    tx: TransactionView<K, V>,
    write: bool,
    key: K,
    version: u64,
)
    requires
        db.consistent(),
        db.transaction_queue_id < u64::MAX,
    ensures
        tx.commit_answer(db) is Ok ==> {
            let after = tx.store_after_commit(db);
            let reader = TransactionView::begin(after, write);
            &&& after.sequence == db.sequence + 1
            &&& tx.updates.contains_key(key) ==> {
                &&& reader.contents(after).contains_key(key) <==> tx.updates[key] is Some
                &&& tx.updates[key] is Some ==> reader.contents(after)[key] == tx.updates[key]->0
            }
            &&& !tx.updates.contains_key(key) ==> {
                &&& reader.contents(after).contains_key(key) <==> db.snapshot(db.sequence).contains_key(key)
                &&& db.snapshot(db.sequence).contains_key(key) ==> reader.contents(after)[key] == db.snapshot(
                    db.sequence,
                )[key]
            }
            &&& version <= db.sequence ==> after.snapshot(version) == db.snapshot(version)
        },
        tx.commit_answer(db) is Err ==> {
            let after = tx.store_after_commit(db);
            &&& after.sequence == db.sequence
            &&& after.snapshot(version) == db.snapshot(version)
            &&& TransactionView::begin(after, write).contents(after) == TransactionView::begin(db, write).contents(db)
        },
{
    let after = tx.store_after_commit(db);
    if tx.commit_answer(db) is Ok {
        laws::law_commit_stores_the_updates(db, tx.updates, write);
        if version <= db.sequence {
            laws::law_snapshots_are_stable(db, version, tx.updates, 0);
        }
    } else {
        assert(after.datastore == db.datastore);
        assert forall|v: u64| #[trigger] after.snapshot(v) == db.snapshot(v) by {
            assert forall|k: K| #[trigger] after.versions_of(k) == db.versions_of(k) by {}
            assert(after.snapshot(v) =~= db.snapshot(v));
        }
        laws::law_a_new_transaction_reads_the_latest_data(db, write);
        laws::law_a_new_transaction_reads_the_latest_data(after, write);
    }
}

/// What a request to commit leaves in the commit queue and of the versions. A commit adds its
/// keys at the end of the queue, and one version to each key that it writes. One that meets a
/// conflict takes a number and adds nothing. One that is refused does nothing at all. None of
/// them touches the count of open transactions.
pub proof fn law_commit_leaves_its_keys_in_the_queue<K, V>(
    db: DatabaseView<K, V>,
    tx: TransactionView<K, V>,
    id: u64,
    key: K,
)
    requires
        db.consistent(),
        db.transaction_queue_id < u64::MAX,
    ensures
        tx.store_after_commit(db).transactions == db.transactions,
        tx.commit_answer(db) is Ok ==> {
            let after = tx.store_after_commit(db);
            let new = (db.transaction_queue_id + 1) as u64;
            &&& after.transaction_queue_id == new
            &&& after.transaction_commit_queue.contains_key(new)
            &&& after.transaction_commit_queue[new].done
            &&& after.transaction_commit_queue[new].keyset.contains(key) <==> tx.updates.contains_key(key)
            &&& id != new ==> (after.transaction_commit_queue.contains_key(id)
                <==> db.transaction_commit_queue.contains_key(id))
            &&& id != new && db.transaction_commit_queue.contains_key(id) ==> after.transaction_commit_queue[id]
                == db.transaction_commit_queue[id]
            &&& after.datastore.contains_key(key) <==> db.datastore.contains_key(key) || tx.updates.contains_key(key)
            &&& tx.updates.contains_key(key) && db.datastore.contains_key(key) ==> after.datastore[key]
                == db.datastore[key].push(((db.sequence + 1) as u64, tx.updates[key]))
            &&& tx.updates.contains_key(key) && !db.datastore.contains_key(key) ==> after.datastore[key]
                == seq![((db.sequence + 1) as u64, tx.updates[key])]
            &&& !tx.updates.contains_key(key) && db.datastore.contains_key(key) ==> after.datastore[key]
                == db.datastore[key]
        },
        tx.commit_answer(db) == Err::<(), Error>(Error::KeyWriteConflict) ==> tx.store_after_commit(db) == (
        DatabaseView { transaction_queue_id: (db.transaction_queue_id + 1) as u64, ..db }),
        tx.done || !tx.write ==> tx.store_after_commit(db) == db,
{
    if tx.commit_answer(db) is Ok && tx.updates.contains_key(key) && !db.datastore.contains_key(key) {
        assert(tx.store_after_commit(db).datastore[key] =~= seq![((db.sequence + 1) as u64, tx.updates[key])]);
    }
}

/// A commit and a conflict close the transaction, a refusal does not. A commit has no updates
/// left to store, and a conflict keeps them.
pub proof fn law_commit_closes_the_transaction<K, V>(db: DatabaseView<K, V>, tx: TransactionView<K, V>)
    ensures
        tx.commit_answer(db) is Ok ==> tx.after_commit(db).done && tx.after_commit(db).updates == Map::<
            K,
            Option<V>,
        >::empty(),
        tx.commit_answer(db) == Err::<(), Error>(Error::KeyWriteConflict) ==> tx.after_commit(db).done
            && tx.after_commit(db).updates == tx.updates,
        tx.done || !tx.write ==> tx.after_commit(db) == tx,
        tx.after_commit(db).write == tx.write,
        tx.after_commit(db).commit == tx.commit,
        tx.after_commit(db).version == tx.version,
{
}

/// Whether the stored value is the expected one is decided by the `==` of the value type, where
/// both are there. Where `==` is specified, `putc` and `delc` succeed exactly if the two
/// values, as options, are equal: both absent, or both present and equal.
pub proof fn law_expected_values_decide<V: Eq>(chk: Option<V>, stored: Option<V>, equal: bool)
    requires
        tx::compared(chk, stored, equal),
    ensures
        V::obeys_eq_spec() ==> (equal <==> (chk is None && stored is None) || (chk is Some && stored is Some
            && chk->0.eq_spec(&stored->0))),
        chk is None && stored is None ==> equal,
        chk is None && stored is Some ==> !equal,
        chk is Some && stored is None ==> !equal,
        chk is Some && stored is Some ==> call_ensures(V::eq, (&chk->0, &stored->0), equal),
{
}

/// A read hands out a clone of the value that it found, and nothing where it found none.
pub proof fn law_reads_hand_out_clones<V: Clone>(value: Option<V>, copy: Option<V>)
    requires
        tx::copied(value, copy),
    ensures
        value is Some <==> copy is Some,
        value is Some ==> cloned(value->0, copy->0),
{
}

/// A range has a key exactly if the key is not before `start`, is before `end`, and is read by
/// the transaction, with the value that the transaction reads.
pub proof fn law_ranges_hold_what_is_read<K: Ord, V>(
    db: DatabaseView<K, V>,
    tx: TransactionView<K, V>,
    start: K,
    end: K,
    key: K,
)
    ensures
        tx.range(db, start, end).contains_key(key) <==> !order::before(key, start) && order::before(key, end)
            && tx.contents(db).contains_key(key),
        tx.range(db, start, end).contains_key(key) ==> tx.range(db, start, end)[key] == tx.contents(db)[key],
{
}

/// A range read hands out keys in strictly ascending order, or in strictly descending order if
/// it runs in reverse. It hands out keys of the range only, no more than were asked for, and
/// leaves out a key only where it has as many as were asked for, all of which come first.
pub proof fn law_range_reads_are_ordered_and_complete<K: Ord>(
    dir: Direction,
    keys: Seq<K>,
    domain: Set<K>,
    limit: Option<usize>,
    i: int,
    j: int,
    key: K,
)
    requires
        merge::lists(dir, keys, domain, limit),
    ensures
        dir is Forward && 0 <= i < j < keys.len() ==> order::before(keys[i], keys[j]),
        dir is Reverse && 0 <= i < j < keys.len() ==> order::before(keys[j], keys[i]),
        0 <= i < keys.len() ==> domain.contains(keys[i]),
        limit is Some ==> keys.len() <= limit->0,
        domain.contains(key) && limit is None ==> keys.contains(key),
        domain.contains(key) && limit is Some && keys.len() < limit->0 ==> keys.contains(key),
        domain.contains(key) && !keys.contains(key) && 0 <= i < keys.len() ==> match dir {
            Direction::Forward => order::before(keys[i], key),
            Direction::Reverse => order::before(key, keys[i]),
        },
{
}

/// The entries of a scan have the keys that the range read lists, each with a clone of the
/// value that the range has for it.
pub proof fn law_scans_hand_out_clones<K, V: Clone>(entries: Seq<(K, V)>, range: Map<K, V>, i: int)
    requires
        tx::values_from(entries, range),
    ensures
        tx::keys_of(entries).len() == entries.len(),
        0 <= i < entries.len() ==> tx::keys_of(entries)[i] == entries[i].0,
        0 <= i < entries.len() ==> cloned(range[entries[i].0], entries[i].1),
{
}

} // verus!
