//! What holds of the store and its transactions across several calls.
//!
//! The laws speak of the values in which the contracts of [`Database`](crate::database::Database)
//! and [`Transaction`](crate::tx::Transaction) are stated: a store after `begin` is
//! [`begun`](DatabaseView::begun), after a commit [`committed`](DatabaseView::committed) or
//! [`rejected`](DatabaseView::rejected), and after a transaction is gone
//! [`released`](DatabaseView::released).

use crate::database;
use crate::database::DatabaseView;
use crate::err::Error;
use crate::event;
use crate::event::Event;
use crate::merge;
use crate::merge::Direction;
use crate::order;
use crate::tx::TransactionView;
use crate::version;
use vstd::prelude::*;

verus! {

/// The empty store is consistent, and every event keeps the store so.
pub proof fn law_consistency_is_kept<K, V>(db: DatabaseView<K, V>, event: Event<K, V>)
    requires
        db.consistent(),
        event::numbered(db, event),
    ensures
        DatabaseView::<K, V>::init().consistent(),
        event::after_event(db, event).consistent(),
{
    let after = event::after_event(db, event);
    match event {
        Event::Commit { updates } => {
            db.lemma_committed_consistent(updates);
            let middle = DatabaseView { sequence: after.sequence, datastore: after.datastore, ..db };
            assert forall|k: K| #[trigger] after.datastore.contains_key(k) implies after.versions_consistent(k) by {
                assert(db.written(after.sequence, updates).contains_key(k));
                assert(middle.versions_consistent(k));
            }
        },
        _ => {
            assert forall|k: K| #[trigger] after.datastore.contains_key(k) implies after.versions_consistent(k) by {
                assert(db.versions_consistent(k));
            }
        },
    }
}

/// The store counts its open transactions: one more at the current version for each that
/// begins, and one less at its version for each that ends.
pub proof fn law_open_transactions_are_counted<K, V>(
    db: DatabaseView<K, V>,
    updates: Map<K, Option<V>>,
    ended: u64,
    version: u64,
)
    requires
        db.open_at(db.sequence) < u64::MAX,
        db.open_at(ended) > 0,
    ensures
        db.begun().open_at(version) == db.open_at(version) + (if version == db.sequence { 1int } else { 0 }),
        db.released(ended).open_at(version) == db.open_at(version) - (if version == ended { 1int } else { 0 }),
        db.committed(updates).open_at(version) == db.open_at(version),
        db.rejected().open_at(version) == db.open_at(version),
{
}

/// Snapshots are stable: what was committed at a version reads the same ever after, whatever
/// other transactions begin, commit, fail to commit, or end.
pub proof fn law_snapshots_are_stable<K, V>(
    db: DatabaseView<K, V>,
    version: u64,
    updates: Map<K, Option<V>>,
    other: u64,
)
    requires
        version <= db.sequence < u64::MAX,
    ensures
        db.begun().snapshot(version) == db.snapshot(version),
        db.committed(updates).snapshot(version) == db.snapshot(version),
        db.rejected().snapshot(version) == db.snapshot(version),
        db.released(other).snapshot(version) == db.snapshot(version),
{
    let after = db.committed(updates);
    assert forall|k: K| version::value_at(#[trigger] after.versions_of(k), version) == version::value_at(
        db.versions_of(k),
        version,
    ) by {
        if updates.contains_key(k) {
            assert(after.versions_of(k).drop_last() =~= db.versions_of(k));
        }
    }
    assert forall|k: K| #[trigger] db.begun().versions_of(k) == db.versions_of(k) by {}
    assert forall|k: K| #[trigger] db.rejected().versions_of(k) == db.versions_of(k) by {}
    assert forall|k: K| #[trigger] db.released(other).versions_of(k) == db.versions_of(k) by {}
    assert(db.begun().snapshot(version) =~= db.snapshot(version));
    assert(after.snapshot(version) =~= db.snapshot(version));
    assert(db.rejected().snapshot(version) =~= db.snapshot(version));
    assert(db.released(other).snapshot(version) =~= db.snapshot(version));
}

/// Reads are repeatable: while it runs, a transaction reads the same whatever other
/// transactions do, key by key and range by range.
pub proof fn law_reads_are_repeatable<K: Ord, V>(
    db: DatabaseView<K, V>,
    tx: TransactionView<K, V>,
    updates: Map<K, Option<V>>,
    other: u64,
    start: K,
    end: K,
)
    requires
        tx.version <= db.sequence < u64::MAX,
    ensures
        tx.contents(db.begun()) == tx.contents(db),
        tx.contents(db.committed(updates)) == tx.contents(db),
        tx.contents(db.rejected()) == tx.contents(db),
        tx.contents(db.released(other)) == tx.contents(db),
        tx.range(db.begun(), start, end) == tx.range(db, start, end),
        tx.range(db.committed(updates), start, end) == tx.range(db, start, end),
        tx.range(db.rejected(), start, end) == tx.range(db, start, end),
        tx.range(db.released(other), start, end) == tx.range(db, start, end),
{
    law_snapshots_are_stable(db, tx.version, updates, other);
    assert(tx.range(db.begun(), start, end) =~= tx.range(db, start, end));
    assert(tx.range(db.committed(updates), start, end) =~= tx.range(db, start, end));
    assert(tx.range(db.rejected(), start, end) =~= tx.range(db, start, end));
    assert(tx.range(db.released(other), start, end) =~= tx.range(db, start, end));
}

/// Where no version of a key is later than `from`, the key reads the same at `from` and at
/// any later version.
proof fn lemma_value_unchanged<V>(versions: Seq<(u64, Option<V>)>, from: u64, to: u64)
    requires
        from <= to,
        forall|i: int| 0 <= i < versions.len() ==> (#[trigger] versions[i]).0 <= from,
    ensures
        version::value_at(versions, from) == version::value_at(versions, to),
{
    if versions.len() > 0 {
        assert(versions[versions.len() - 1].0 <= from);
    }
}

/// A commit stores the updates, all of them and nothing else: the data of the new version is
/// that of the version before with the updates written over it, and that is what a
/// transaction reads that begins then.
pub proof fn law_commit_stores_the_updates<K, V>(db: DatabaseView<K, V>, updates: Map<K, Option<V>>, write: bool)
    requires
        db.consistent(),
        db.sequence < u64::MAX,
    ensures
        db.committed(updates).snapshot((db.sequence + 1) as u64) == database::overlay(
            db.snapshot(db.sequence),
            updates,
        ),
        TransactionView::begin(db.committed(updates), write).contents(db.committed(updates)) == database::overlay(
            db.snapshot(db.sequence),
            updates,
        ),
{
    let after = db.committed(updates);
    let version = (db.sequence + 1) as u64;
    assert forall|k: K| version::value_at(#[trigger] after.versions_of(k), version) == (if updates.contains_key(k) {
        updates[k]
    } else {
        version::value_at(db.versions_of(k), db.sequence)
    }) by {
        if updates.contains_key(k) {
            assert(after.versions_of(k).last() == (version, updates[k]));
        } else {
            if db.datastore.contains_key(k) {
                assert(db.versions_consistent(k));
            }
            lemma_value_unchanged(db.versions_of(k), db.sequence, version);
        }
    }
    assert(after.snapshot(version) =~= database::overlay(db.snapshot(db.sequence), updates));
    let tx = TransactionView::begin(after, write);
    assert(tx.contents(after) =~= after.snapshot(version));
}

/// The store after commits of each of `history`, one after the other.
pub open spec fn commit_all<K, V>(db: DatabaseView<K, V>, history: Seq<Map<K, Option<V>>>) -> DatabaseView<K, V>
    decreases history.len(),
{
    if history.len() == 0 {
        db
    } else {
        commit_all(db, history.drop_last()).committed(history.last())
    }
}

/// The map `m` with each of `history` written over it, one after the other.
pub open spec fn overlay_all<K, V>(m: Map<K, V>, history: Seq<Map<K, Option<V>>>) -> Map<K, V>
    decreases history.len(),
{
    if history.len() == 0 {
        m
    } else {
        database::overlay(overlay_all(m, history.drop_last()), history.last())
    }
}

/// Commits take effect one after the other: `n` commits on, the data is what the first `n`
/// commits wrote, each over those before it, and every version stays there to be read.
pub proof fn law_history_is_serial<K, V>(db: DatabaseView<K, V>, history: Seq<Map<K, Option<V>>>, n: int)
    requires
        db.consistent(),
        db.transaction_queue_id + history.len() <= u64::MAX,
        0 <= n <= history.len(),
    ensures
        commit_all(db, history).snapshot((db.sequence + n) as u64) == overlay_all(
            db.snapshot(db.sequence),
            history.take(n),
        ),
        commit_all(db, history).sequence == db.sequence + history.len(),
        commit_all(db, history).transaction_queue_id == db.transaction_queue_id + history.len(),
        commit_all(db, history).consistent(),
    decreases history.len(),
{
    if history.len() > 0 {
        let rest = history.drop_last();
        let before = commit_all(db, rest);
        if n < history.len() {
            law_history_is_serial(db, rest, n);
            assert(rest.take(n) =~= history.take(n));
            law_snapshots_are_stable(before, (db.sequence + n) as u64, history.last(), 0);
        } else {
            law_history_is_serial(db, rest, n - 1);
            assert(rest.take(n - 1) =~= rest);
            assert(history.take(n) =~= history);
            law_commit_stores_the_updates(before, history.last(), true);
        }
        law_consistency_is_kept(before, Event::Commit { updates: history.last() });
    } else {
        assert(history.take(n) =~= history);
    }
}

/// What a transaction wrote and committed, a transaction that begins after it reads.
pub proof fn law_committed_writes_are_read<K, V>(
    db: DatabaseView<K, V>,
    tx: TransactionView<K, V>,
    key: K,
    write: bool,
)
    requires
        db.consistent(),
        db.sequence < u64::MAX,
        tx.commit_answer(db) is Ok,
        tx.updates.contains_key(key),
    ensures
        database::lookup(
            TransactionView::begin(db.committed(tx.updates), write).contents(db.committed(tx.updates)),
            key,
        ) == tx.updates[key],
{
    law_commit_stores_the_updates(db, tx.updates, write);
}

/// A transaction reads its own writes, and a write changes what it reads of one key only.
pub proof fn law_own_writes_are_read<K, V>(
    db: DatabaseView<K, V>,
    tx: TransactionView<K, V>,
    key: K,
    value: Option<V>,
    other: K,
)
    ensures
        database::lookup(tx.update(key, value).contents(db), key) == value,
        other != key ==> database::lookup(tx.update(key, value).contents(db), other) == database::lookup(
            tx.contents(db),
            other,
        ),
{
}

/// A transaction that has not written reads the data as it was when it began.
pub proof fn law_a_new_transaction_reads_the_latest_data<K, V>(db: DatabaseView<K, V>, write: bool)
    ensures
        TransactionView::begin(db, write).contents(db) == db.snapshot(db.sequence),
{
    assert(TransactionView::begin(db, write).contents(db) =~= db.snapshot(db.sequence));
}

/// A transaction in the commit queue behind place `since` wrote `k`.
pub open spec fn queued_since<K, V>(db: DatabaseView<K, V>, since: u64, k: K) -> bool {
    exists|id: u64|
        #![trigger db.transaction_commit_queue.contains_key(id)]
        db.transaction_commit_queue.contains_key(id) && since < id && db.transaction_commit_queue[id].keyset.contains(
            k,
        )
}

/// A conflict is a key in the commit queue.
pub proof fn law_conflicts_are_queued_keys<K, V>(db: DatabaseView<K, V>, since: u64, keys: Set<K>)
    ensures
        db.conflicts(since, keys) <==> exists|k: K| keys.contains(k) && #[trigger] queued_since(db, since, k),
{
    if db.conflicts(since, keys) {
        let id = choose|id: u64|
            #![trigger db.transaction_commit_queue.contains_key(id)]
            db.transaction_commit_queue.contains_key(id) && since < id
                && !db.transaction_commit_queue[id].keyset.disjoint(keys);
        let k = choose|k: K| db.transaction_commit_queue[id].keyset.contains(k) && keys.contains(k);
        assert(queued_since(db, since, k));
    }
    if exists|k: K| keys.contains(k) && #[trigger] queued_since(db, since, k) {
        let k = choose|k: K| keys.contains(k) && #[trigger] queued_since(db, since, k);
        let id = choose|id: u64|
            #![trigger db.transaction_commit_queue.contains_key(id)]
            db.transaction_commit_queue.contains_key(id) && since < id
                && db.transaction_commit_queue[id].keyset.contains(k);
        assert(!db.transaction_commit_queue[id].keyset.disjoint(keys));
    }
}

/// `before` and `after` have the same entries in the commit queue behind place `since`.
pub open spec fn same_queue<K, V>(before: DatabaseView<K, V>, after: DatabaseView<K, V>, since: u64) -> bool {
    forall|id: u64|
        #![trigger before.transaction_commit_queue.contains_key(id)]
        #![trigger after.transaction_commit_queue.contains_key(id)]
        since < id ==> database::lookup(before.transaction_commit_queue, id) == database::lookup(
            after.transaction_commit_queue,
            id,
        )
}

/// The same queue has the same keys.
proof fn lemma_same_queue<K, V>(before: DatabaseView<K, V>, after: DatabaseView<K, V>, since: u64)
    requires
        same_queue(before, after, since),
    ensures
        forall|k: K|
            #![trigger queued_since(before, since, k)]
            #![trigger queued_since(after, since, k)]
            queued_since(before, since, k) <==> queued_since(after, since, k),
        forall|keys: Set<K>|
            #![trigger before.conflicts(since, keys)]
            #![trigger after.conflicts(since, keys)]
            before.conflicts(since, keys) <==> after.conflicts(since, keys),
{
    assert forall|k: K|
        #![trigger queued_since(before, since, k)]
        #![trigger queued_since(after, since, k)]
        queued_since(before, since, k) <==> queued_since(after, since, k) by {}
    assert forall|keys: Set<K>|
        #![trigger before.conflicts(since, keys)]
        #![trigger after.conflicts(since, keys)]
        before.conflicts(since, keys) <==> after.conflicts(since, keys) by {
        law_conflicts_are_queued_keys(before, since, keys);
        law_conflicts_are_queued_keys(after, since, keys);
    }
}

/// A commit puts its own keys into the queue, and leaves the others there.
proof fn lemma_committed_queue<K, V>(db: DatabaseView<K, V>, updates: Map<K, Option<V>>, since: u64)
    requires
        db.consistent(),
        db.transaction_queue_id < u64::MAX,
    ensures
        forall|k: K|
            #![trigger queued_since(db, since, k)]
            #![trigger queued_since(db.committed(updates), since, k)]
            queued_since(db.committed(updates), since, k) <==> queued_since(db, since, k) || (since
                <= db.transaction_queue_id && updates.contains_key(k)),
{
    let after = db.committed(updates);
    let new = after.transaction_queue_id;
    assert forall|k: K|
        #![trigger queued_since(db, since, k)]
        #![trigger queued_since(after, since, k)]
        queued_since(after, since, k) <==> queued_since(db, since, k) || (since <= db.transaction_queue_id
            && updates.contains_key(k)) by {
        if queued_since(db, since, k) {
            let id = choose|id: u64|
                #![trigger db.transaction_commit_queue.contains_key(id)]
                db.transaction_commit_queue.contains_key(id) && since < id
                    && db.transaction_commit_queue[id].keyset.contains(k);
            assert(after.transaction_commit_queue.contains_key(id));
        }
        if since <= db.transaction_queue_id && updates.contains_key(k) {
            assert(after.transaction_commit_queue.contains_key(new));
        }
        if queued_since(after, since, k) && !updates.contains_key(k) {
            let id = choose|id: u64|
                #![trigger after.transaction_commit_queue.contains_key(id)]
                after.transaction_commit_queue.contains_key(id) && since < id
                    && after.transaction_commit_queue[id].keyset.contains(k);
            assert(db.transaction_commit_queue.contains_key(id));
        }
    }
}

/// The first transaction to commit wins: once `first` has committed a write of `key`, a
/// transaction that was open then and wrote `key` too meets a conflict.
pub proof fn law_first_committer_wins<K, V>(
    db: DatabaseView<K, V>,
    first: TransactionView<K, V>,
    second: TransactionView<K, V>,
    key: K,
)
    requires
        db.transaction_queue_id < u64::MAX,
        first.commit_answer(db) is Ok,
        first.updates.contains_key(key),
        second.writable() is Ok,
        second.commit <= db.transaction_queue_id,
        second.updates.contains_key(key),
    ensures
        second.commit_answer(db.committed(first.updates)) == Err::<(), Error>(Error::KeyWriteConflict),
{
    let after = db.committed(first.updates);
    let id = after.transaction_queue_id;
    assert(after.transaction_commit_queue.contains_key(id));
    assert(after.transaction_commit_queue[id].keyset.contains(key));
    assert(second.updates.dom().contains(key));
}

/// Transactions that write no key in common do not get in each other's way: the commit of
/// one does not change the answer that the other gets.
pub proof fn law_disjoint_writers_do_not_conflict<K, V>(
    db: DatabaseView<K, V>,
    first: TransactionView<K, V>,
    second: TransactionView<K, V>,
)
    requires
        db.consistent(),
        db.transaction_queue_id < u64::MAX,
        first.updates.dom().disjoint(second.updates.dom()),
    ensures
        second.commit_answer(db.committed(first.updates)) == second.commit_answer(db),
        second.commit_answer(db.rejected()) == second.commit_answer(db),
{
    let after = db.committed(first.updates);
    let keys = second.updates.dom();
    let since = second.commit;
    lemma_same_queue(db, db.rejected(), since);
    lemma_committed_queue(db, first.updates, since);
    law_conflicts_are_queued_keys(db, since, keys);
    law_conflicts_are_queued_keys(after, since, keys);
    assert forall|k: K| keys.contains(k) implies queued_since(db, since, k) == #[trigger] queued_since(
        after,
        since,
        k,
    ) by {
        assert(!first.updates.dom().contains(k));
    }
    if db.conflicts(since, keys) {
        let k = choose|k: K| keys.contains(k) && #[trigger] queued_since(db, since, k);
        assert(queued_since(after, since, k));
    }
}

/// A conflict stays: a transaction that could not commit now cannot commit later either,
/// whichever others begin, commit or fail to commit.
pub proof fn law_conflicts_stay<K, V>(
    db: DatabaseView<K, V>,
    tx: TransactionView<K, V>,
    updates: Map<K, Option<V>>,
)
    requires
        db.consistent(),
        db.transaction_queue_id < u64::MAX,
        tx.commit_answer(db) == Err::<(), Error>(Error::KeyWriteConflict),
    ensures
        tx.commit_answer(db.begun()) == Err::<(), Error>(Error::KeyWriteConflict),
        tx.commit_answer(db.committed(updates)) == Err::<(), Error>(Error::KeyWriteConflict),
        tx.commit_answer(db.rejected()) == Err::<(), Error>(Error::KeyWriteConflict),
{
    let keys = tx.updates.dom();
    let after = db.committed(updates);
    lemma_same_queue(db, db.begun(), tx.commit);
    lemma_same_queue(db, db.rejected(), tx.commit);
    lemma_committed_queue(db, updates, tx.commit);
    law_conflicts_are_queued_keys(db, tx.commit, keys);
    law_conflicts_are_queued_keys(after, tx.commit, keys);
    let k = choose|k: K| keys.contains(k) && #[trigger] queued_since(db, tx.commit, k);
    assert(queued_since(after, tx.commit, k));
}

/// Reading is no reason for a conflict: a transaction that has written nothing commits.
pub proof fn law_readers_do_not_conflict<K, V>(db: DatabaseView<K, V>, tx: TransactionView<K, V>)
    requires
        tx.writable() is Ok,
        tx.updates.dom().is_empty(),
    ensures
        tx.commit_answer(db) is Ok,
{
}

/// A commit after `version` wrote `k`.
pub open spec fn written_since<K, V>(db: DatabaseView<K, V>, version: u64, k: K) -> bool {
    exists|i: int| 0 <= i < db.versions_of(k).len() && version < (#[trigger] db.versions_of(k)[i]).0
}

/// `tx` runs on `db`: it is on record there, and the keys in the commit queue behind its place
/// are those that commits wrote since it began.
pub open spec fn running<K, V>(db: DatabaseView<K, V>, tx: TransactionView<K, V>) -> bool {
    &&& tx.version <= db.sequence
    &&& tx.version <= tx.commit <= db.transaction_queue_id
    &&& db.open_at(tx.version) > 0
    &&& forall|k: K|
        #![trigger written_since(db, tx.version, k)]
        #![trigger queued_since(db, tx.commit, k)]
        written_since(db, tx.version, k) <==> queued_since(db, tx.commit, k)
}

/// The keys written since a version are those of the commits since: a commit adds the keys
/// that it writes, and no other event adds or takes away any.
pub proof fn law_commits_write_their_keys<K, V>(db: DatabaseView<K, V>, event: Event<K, V>, version: u64, k: K)
    requires
        db.consistent(),
        event::numbered(db, event),
        version <= db.sequence,
    ensures
        written_since(event::after_event(db, event), version, k) <==> written_since(db, version, k)
            || event::commits_key(event, k),
{
    let after = event::after_event(db, event);
    if event::commits_key(event, k) {
        let i = db.versions_of(k).len() as int;
        assert(after.versions_of(k)[i].0 == after.sequence);
    } else {
        assert(after.versions_of(k) == db.versions_of(k));
    }
}

/// A transaction runs from the moment it begins, and nothing is written since then.
pub proof fn law_transactions_run_from_their_beginning<K, V>(db: DatabaseView<K, V>, write: bool)
    requires
        db.consistent(),
        db.open_at(db.sequence) < u64::MAX,
    ensures
        running(db.begun(), TransactionView::begin(db, write)),
        forall|k: K| !#[trigger] written_since(db.begun(), db.sequence, k),
{
    let tx = TransactionView::begin(db, write);
    let after = db.begun();
    assert forall|k: K|
        #![trigger written_since(after, tx.version, k)]
        #![trigger queued_since(after, tx.commit, k)]
        written_since(after, tx.version, k) <==> queued_since(after, tx.commit, k) by {
        if db.datastore.contains_key(k) {
            assert(db.versions_consistent(k));
        }
        if queued_since(after, tx.commit, k) {
            let id = choose|id: u64|
                #![trigger after.transaction_commit_queue.contains_key(id)]
                after.transaction_commit_queue.contains_key(id) && tx.commit < id
                    && after.transaction_commit_queue[id].keyset.contains(k);
            assert(db.transaction_commit_queue.contains_key(id));
        }
    }
}

/// The end of one transaction takes nothing from the commit queue that another one needs: the
/// other gets the same answer when it asks to commit.
pub proof fn law_clean_up_is_safe<K, V>(db: DatabaseView<K, V>, tx: TransactionView<K, V>, ended: u64)
    requires
        db.consistent(),
        running(db, tx),
        db.open_at(ended) > 0,
        ended == tx.version ==> db.open_at(ended) > 1,
    ensures
        same_queue(db, db.released(ended), tx.commit),
        tx.commit_answer(db.released(ended)) == tx.commit_answer(db),
{
    assert(db.oldest(ended) ==> ended <= tx.version);
    assert(same_queue(db, db.released(ended), tx.commit));
    lemma_same_queue(db, db.released(ended), tx.commit);
}

/// A transaction keeps running while others begin, commit, fail to commit and end.
pub proof fn law_transactions_keep_running<K, V>(
    db: DatabaseView<K, V>,
    tx: TransactionView<K, V>,
    event: Event<K, V>,
)
    requires
        db.consistent(),
        running(db, tx),
        event::possible(db, event),
        event::spares(db, event, tx),
    ensures
        running(event::after_event(db, event), tx),
{
    let after = event::after_event(db, event);
    match event {
        Event::Commit { updates } => {
            lemma_committed_queue(db, updates, tx.commit);
        },
        Event::End { version } => {
            law_clean_up_is_safe(db, tx, version);
            lemma_same_queue(db, after, tx.commit);
        },
        _ => {
            lemma_same_queue(db, after, tx.commit);
        },
    }
    assert forall|k: K|
        #![trigger written_since(after, tx.version, k)]
        #![trigger queued_since(after, tx.commit, k)]
        written_since(after, tx.version, k) <==> queued_since(after, tx.commit, k) by {
        law_commits_write_their_keys(db, event, tx.version, k);
        assert(written_since(db, tx.version, k) <==> queued_since(db, tx.commit, k));
    }
}

/// A commit meets a conflict exactly where a commit since the transaction began wrote one of
/// its keys. What the transaction read, what was committed before it began, and what was
/// cancelled or refused does not matter.
pub proof fn law_conflict_iff_written_since<K, V>(db: DatabaseView<K, V>, tx: TransactionView<K, V>)
    requires
        running(db, tx),
        tx.writable() is Ok,
    ensures
        tx.commit_answer(db) == Err::<(), Error>(Error::KeyWriteConflict) <==> exists|k: K|
            tx.updates.contains_key(k) && #[trigger] written_since(db, tx.version, k),
        tx.commit_answer(db) is Ok <==> forall|k: K|
            tx.updates.contains_key(k) ==> !#[trigger] written_since(db, tx.version, k),
{
    let keys = tx.updates.dom();
    law_conflicts_are_queued_keys(db, tx.commit, keys);
    if db.conflicts(tx.commit, keys) {
        let k = choose|k: K| keys.contains(k) && #[trigger] queued_since(db, tx.commit, k);
        assert(tx.updates.contains_key(k) && written_since(db, tx.version, k));
    }
    assert forall|k: K| tx.updates.contains_key(k) && #[trigger] written_since(db, tx.version, k) implies db.conflicts(
        tx.commit,
        keys,
    ) by {
        assert(keys.contains(k) && queued_since(db, tx.commit, k));
    }
}

/// What a transaction writes does not matter to whether it runs.
pub proof fn law_writing_transactions_keep_running<K, V>(
    db: DatabaseView<K, V>,
    tx: TransactionView<K, V>,
    key: K,
    value: Option<V>,
)
    requires
        running(db, tx),
    ensures
        running(db, tx.update(key, value)),
{
}

/// No update is lost: where a running transaction may commit, each key that it writes still
/// has the value that it had when the transaction began.
pub proof fn law_no_update_is_lost<K, V>(db: DatabaseView<K, V>, tx: TransactionView<K, V>, key: K)
    requires
        db.consistent(),
        running(db, tx),
        tx.commit_answer(db) is Ok,
        tx.updates.contains_key(key),
    ensures
        database::lookup(db.snapshot(db.sequence), key) == database::lookup(db.snapshot(tx.version), key),
{
    law_conflict_iff_written_since(db, tx);
    lemma_unwritten_key_is_current(db, tx.version, key);
}

/// A key that was not written since `version` has the value that it had then.
proof fn lemma_unwritten_key_is_current<K, V>(db: DatabaseView<K, V>, version: u64, key: K)
    requires
        version <= db.sequence,
        !written_since(db, version, key),
    ensures
        database::lookup(db.snapshot(db.sequence), key) == database::lookup(db.snapshot(version), key),
{
    lemma_value_unchanged(db.versions_of(key), version, db.sequence);
}

/// `tx`, had it begun on `db` as it is now, and written what it wrote.
pub open spec fn begun_now<K, V>(db: DatabaseView<K, V>, tx: TransactionView<K, V>) -> TransactionView<K, V> {
    TransactionView { commit: db.transaction_queue_id, version: db.sequence, ..tx }
}

/// Transactions are serializable as far as nobody overwrites what they read: a running
/// transaction that may commit does so as if all of it ran at that moment. It read what it
/// would read if it began now, unless a key that it read was committed since with another
/// value, and what is stored then is what it would read of the store if it began now.
pub proof fn law_serializable_if_reads_are_current<K, V>(
    db: DatabaseView<K, V>,
    tx: TransactionView<K, V>,
    reads: Set<K>,
    key: K,
)
    requires
        db.consistent(),
        db.sequence < u64::MAX,
        running(db, tx),
        tx.commit_answer(db) is Ok,
        forall|k: K| #[trigger]
            reads.contains(k) && written_since(db, tx.version, k) ==> database::lookup(db.snapshot(db.sequence), k)
                == database::lookup(db.snapshot(tx.version), k),
        reads.contains(key),
    ensures
        database::lookup(tx.contents(db), key) == database::lookup(begun_now(db, tx).contents(db), key),
        begun_now(db, tx).commit_answer(db) is Ok,
        db.committed(tx.updates).snapshot((db.sequence + 1) as u64) == begun_now(db, tx).contents(db),
{
    if !written_since(db, tx.version, key) {
        lemma_unwritten_key_is_current(db, tx.version, key);
    }
    assert(database::lookup(db.snapshot(db.sequence), key) == database::lookup(db.snapshot(tx.version), key));
    law_commit_stores_the_updates(db, tx.updates, true);
}

/// A transaction that ends at the version at which it began leaves the counters as they were
/// before it began, and nothing else changed.
pub proof fn law_end_undoes_beginning<K, V>(db: DatabaseView<K, V>, version: u64)
    requires
        db.open_at(db.sequence) < u64::MAX,
    ensures
        db.begun().released(db.sequence).open_at(version) == db.open_at(version),
        db.begun().released(db.sequence) == (DatabaseView {
            transactions: db.transactions.insert(db.sequence, db.open_at(db.sequence)),
            ..db
        }),
{
    assert(db.begun().released(db.sequence) =~= DatabaseView {
        transactions: db.transactions.insert(db.sequence, db.open_at(db.sequence)),
        ..db
    });
}

/// `key_exists` and `get` agree: a key exists exactly where it has a value.
pub proof fn law_existing_keys_have_values<K, V>(db: DatabaseView<K, V>, tx: TransactionView<K, V>, key: K)
    ensures
        tx.contents(db).contains_key(key) <==> database::lookup(tx.contents(db), key) is Some,
        tx.contents(db).contains_key(key) <==> if tx.updates.contains_key(key) {
            tx.updates[key] is Some
        } else {
            db.snapshot(tx.version).contains_key(key)
        },
{
}

/// A range read agrees with `get`: a key that is not before `start` and is before `end` has in
/// the range what the transaction reads of it, and no other key is in the range.
pub proof fn law_ranges_agree_with_reads<K: Ord, V>(
    db: DatabaseView<K, V>,
    tx: TransactionView<K, V>,
    start: K,
    end: K,
    key: K,
)
    ensures
        database::lookup(tx.range(db, start, end), key) == if !order::before(key, start) && order::before(key, end) {
            database::lookup(tx.contents(db), key)
        } else {
            None
        },
{
}

/// A range read without a limit, in either direction, lists exactly the keys from `start` up
/// to, but not including, `end` of which the transaction reads a value, and none twice.
pub proof fn law_unlimited_ranges_are_complete<K: Ord + Clone, V>(
    db: DatabaseView<K, V>,
    tx: TransactionView<K, V>,
    start: K,
    end: K,
    dir: Direction,
    keys: Seq<K>,
    key: K,
)
    requires
        order::key_laws::<K>(),
        merge::lists(dir, keys, tx.range(db, start, end).dom(), None),
    ensures
        keys.contains(key) <==> !order::before(key, start) && order::before(key, end) && database::lookup(
            tx.contents(db),
            key,
        ) is Some,
        keys.no_duplicates(),
        !order::before(start, end) ==> keys.len() == 0,
{
    order::lemma_before_is_total_order::<K>();
    let domain = tx.range(db, start, end).dom();
    if keys.contains(key) {
        let i = keys.index_of(key);
        assert(keys[i] == key);
        assert(domain.contains(keys[i]));
    } else {
        assert(!domain.contains(key));
    }
    if keys.len() > 0 {
        assert(domain.contains(keys[0]));
    }
}

/// Where two listings of one domain both have `n` keys, the first `n` are the same.
proof fn lemma_same_until<K: Ord + Clone>(
    dir: Direction,
    a: Seq<K>,
    b: Seq<K>,
    domain: Set<K>,
    limit_a: Option<usize>,
    limit_b: Option<usize>,
    n: int,
)
    requires
        order::key_laws::<K>(),
        merge::lists(dir, a, domain, limit_a),
        merge::lists(dir, b, domain, limit_b),
        0 <= n <= a.len(),
        n <= b.len(),
    ensures
        a.take(n) == b.take(n),
    decreases n,
{
    order::lemma_before_is_total_order::<K>();
    if n > 0 {
        lemma_same_until(dir, a, b, domain, limit_a, limit_b, n - 1);
        let i = n - 1;
        assert forall|x: int| 0 <= x < i implies a[x] == b[x] by {
            assert(a.take(i)[x] == b.take(i)[x]);
        }
        lemma_not_sooner(dir, a, b, domain, limit_b, i);
        lemma_not_sooner(dir, b, a, domain, limit_a, i);
        assert(a.take(n) =~= b.take(n));
    }
}

/// Where two listings of a domain agree up to a position, neither is ahead of the other there.
proof fn lemma_not_sooner<K: Ord + Clone>(
    dir: Direction,
    a: Seq<K>,
    b: Seq<K>,
    domain: Set<K>,
    limit_b: Option<usize>,
    i: int,
)
    requires
        order::key_laws::<K>(),
        merge::ordered(dir, a),
        forall|x: int| 0 <= x < a.len() ==> domain.contains(#[trigger] a[x]),
        merge::lists(dir, b, domain, limit_b),
        0 <= i < a.len(),
        i < b.len(),
        forall|x: int| 0 <= x < i ==> a[x] == b[x],
    ensures
        !merge::sooner(dir, a[i], b[i]),
{
    order::lemma_before_is_total_order::<K>();
    if merge::sooner(dir, a[i], b[i]) {
        assert(domain.contains(a[i]));
        if b.contains(a[i]) {
            let p = b.index_of(a[i]);
            assert(b[p] == a[i]);
            if p < i {
                assert(a[p] == b[p]);
                assert(merge::sooner(dir, a[p], a[i]));
            } else if p > i {
                assert(merge::sooner(dir, b[i], b[p]));
            }
        } else {
            assert(merge::sooner(dir, b[i], a[i]));
        }
    }
}

/// A listing is determined by what it lists: two walks over the same keys, in the same
/// direction and with the same limit, meet the same keys. So `keys` returns the keys that
/// `scan` returns, and `keys_reverse` those of `scan_reverse`.
pub proof fn law_listings_are_unique<K: Ord + Clone>(
    dir: Direction,
    a: Seq<K>,
    b: Seq<K>,
    domain: Set<K>,
    limit: Option<usize>,
)
    requires
        order::key_laws::<K>(),
        merge::lists(dir, a, domain, limit),
        merge::lists(dir, b, domain, limit),
    ensures
        a == b,
{
    if a.len() <= b.len() {
        lemma_same_until(dir, a, b, domain, limit, limit, a.len() as int);
        lemma_no_longer(dir, a, b, domain, limit, limit);
    } else {
        lemma_same_until(dir, a, b, domain, limit, limit, b.len() as int);
        lemma_no_longer(dir, b, a, domain, limit, limit);
    }
    assert(a.take(a.len() as int) =~= a);
    assert(b.take(b.len() as int) =~= b);
}

/// A listing goes on beyond another one of the same domain only where that one is full.
proof fn lemma_no_longer<K: Ord + Clone>(
    dir: Direction,
    a: Seq<K>,
    b: Seq<K>,
    domain: Set<K>,
    limit_a: Option<usize>,
    limit_b: Option<usize>,
)
    requires
        order::key_laws::<K>(),
        merge::lists(dir, a, domain, limit_a),
        merge::lists(dir, b, domain, limit_b),
        a.len() <= b.len(),
        a.take(a.len() as int) == b.take(a.len() as int),
    ensures
        a.len() < b.len() ==> merge::full(a.len(), limit_a),
{
    order::lemma_before_is_total_order::<K>();
    if a.len() < b.len() {
        let k = b[a.len() as int];
        assert(domain.contains(k));
        if a.contains(k) {
            let p = a.index_of(k);
            assert(a[p] == k);
            assert(a.take(a.len() as int)[p] == a[p]);
            assert(b.take(a.len() as int)[p] == b[p]);
            assert(merge::sooner(dir, b[p], b[a.len() as int]));
        }
    }
}

/// A limit cuts a listing off, and does nothing else: a walk with a limit meets the first keys
/// of the walk without one.
pub proof fn law_limits_cut_off<K: Ord + Clone>(
    dir: Direction,
    all: Seq<K>,
    some: Seq<K>,
    domain: Set<K>,
    limit: usize,
)
    requires
        order::key_laws::<K>(),
        merge::lists(dir, all, domain, None),
        merge::lists(dir, some, domain, Some(limit)),
    ensures
        some == all.take(if limit < all.len() { limit as int } else { all.len() as int }),
{
    if some.len() <= all.len() {
        lemma_same_until(dir, some, all, domain, Some(limit), None, some.len() as int);
        lemma_no_longer(dir, some, all, domain, Some(limit), None);
    } else {
        lemma_same_until(dir, all, some, domain, None, Some(limit), all.len() as int);
        lemma_no_longer(dir, all, some, domain, None, Some(limit));
    }
    assert(some.take(some.len() as int) =~= some);
    assert(all.take(all.len() as int) =~= all);
}

/// A walk in reverse meets the keys of a walk forward, from the last to the first.
pub proof fn law_reverse_is_the_reverse<K: Ord + Clone>(forward: Seq<K>, reverse: Seq<K>, domain: Set<K>)
    requires
        order::key_laws::<K>(),
        merge::lists(Direction::Forward, forward, domain, None),
        merge::lists(Direction::Reverse, reverse, domain, None),
    ensures
        reverse == forward.reverse(),
{
    let turned = forward.reverse();
    assert forall|k: K| #[trigger] domain.contains(k) implies turned.contains(k) by {
        let p = forward.index_of(k);
        assert(forward[p] == k);
        assert(turned[forward.len() - 1 - p] == k);
    }
    assert(merge::lists(Direction::Reverse, turned, domain, None));
    law_listings_are_unique(Direction::Reverse, reverse, turned, domain, None);
}

} // verus!
