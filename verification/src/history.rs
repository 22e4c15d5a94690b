//! What holds of whole histories: of any sequence of calls on a transaction, and of any
//! sequence of events on the store.
//!
//! A [`Call`] stands for a call of a method of [`Transaction`](crate::tx::Transaction), and an
//! [`Event`] for what such a call does to the [`Database`](crate::database::Database). What
//! each does is what the contracts say: [`answer`] and [`after_call`] for a call, and
//! [`after_event`](event::after_event) for an event.

use crate::database::DatabaseView;
use crate::err::Error;
use crate::event;
use crate::event::Event;
use crate::laws;
use crate::tx::TransactionView;
use vstd::prelude::*;

verus! {

/// A call on a transaction.
#[verifier::reject_recursive_types(K)]
#[verifier::reject_recursive_types(V)]
pub enum Call<K, V> {
    /// A read: of a key, or of a range
    Read,
    /// `set`, `put` or `putc` with a value, or `del` or `delc` with none. What the call asks of
    /// the committed data is answered with `check`, which is `Ok` where it asks nothing
    Write { key: K, value: Option<V>, check: Result<(), Error> },
    /// `cancel`
    Cancel,
    /// `commit`, on the store as it is then
    Commit { db: DatabaseView<K, V> },
}

/// What a call answers, apart from what a read gives.
pub open spec fn answer<K, V>(tx: TransactionView<K, V>, call: Call<K, V>) -> Result<(), Error> {
    match call {
        Call::Read => tx.usable(),
        Call::Write { key, value, check } => tx.write_answer(check),
        Call::Cancel => tx.usable(),
        Call::Commit { db } => tx.commit_answer(db),
    }
}

/// The transaction after a call.
pub open spec fn after_call<K, V>(tx: TransactionView<K, V>, call: Call<K, V>) -> TransactionView<K, V> {
    match call {
        Call::Read => tx,
        Call::Write { key, value, check } => tx.after_write(key, value, tx.write_answer(check)),
        Call::Cancel => tx.after_cancel(),
        Call::Commit { db } => tx.after_commit(db),
    }
}

/// The transaction after calls, one after the other.
pub open spec fn after_calls<K, V>(tx: TransactionView<K, V>, calls: Seq<Call<K, V>>) -> TransactionView<K, V>
    decreases calls.len(),
{
    if calls.len() == 0 {
        tx
    } else {
        after_call(after_calls(tx, calls.drop_last()), calls.last())
    }
}

/// What the `i`th of the calls answers.
pub open spec fn answer_at<K, V>(tx: TransactionView<K, V>, calls: Seq<Call<K, V>>, i: int) -> Result<(), Error> {
    answer(after_calls(tx, calls.take(i)), calls[i])
}

/// The `i`th of the calls is a cancel that succeeds, or a commit that succeeds or meets a
/// conflict.
pub open spec fn closes_at<K, V>(tx: TransactionView<K, V>, calls: Seq<Call<K, V>>, i: int) -> bool {
    match calls[i] {
        Call::Cancel => answer_at(tx, calls, i) is Ok,
        Call::Commit { db } => answer_at(tx, calls, i) is Ok || answer_at(tx, calls, i) == Err::<(), Error>(
            Error::KeyWriteConflict,
        ),
        _ => false,
    }
}

/// The `i`th of the calls is a write of `key` that succeeds.
pub open spec fn writes_at<K, V>(tx: TransactionView<K, V>, calls: Seq<Call<K, V>>, i: int, key: K) -> bool {
    calls[i] matches Call::Write { key: k, value, check } && k == key && answer_at(tx, calls, i) is Ok
}

/// What the first calls answer does not depend on those that follow.
proof fn lemma_earlier_calls<K, V>(tx: TransactionView<K, V>, calls: Seq<Call<K, V>>)
    requires
        calls.len() > 0,
    ensures
        forall|i: int| 0 <= i < calls.len() - 1 ==> answer_at(tx, calls.drop_last(), i) == #[trigger] answer_at(
            tx,
            calls,
            i,
        ),
        answer_at(tx, calls, calls.len() - 1) == answer(after_calls(tx, calls.drop_last()), calls.last()),
{
    assert forall|i: int| 0 <= i < calls.len() - 1 implies answer_at(tx, calls.drop_last(), i)
        == #[trigger] answer_at(tx, calls, i) by {
        assert(calls.drop_last().take(i) =~= calls.take(i));
    }
    assert(calls.take(calls.len() - 1) =~= calls.drop_last());
}

/// A transaction is closed exactly after a cancel that succeeded, a commit that succeeded, or
/// a commit that met a conflict.
pub proof fn law_closed_iff_cancelled_or_committed<K, V>(
    db: DatabaseView<K, V>,
    write: bool,
    calls: Seq<Call<K, V>>,
)
    ensures
        after_calls(TransactionView::begin(db, write), calls).done <==> exists|i: int|
            0 <= i < calls.len() && #[trigger] closes_at(TransactionView::begin(db, write), calls, i),
    decreases calls.len(),
{
    let tx = TransactionView::begin(db, write);
    if calls.len() > 0 {
        let rest = calls.drop_last();
        let last = calls.len() - 1;
        law_closed_iff_cancelled_or_committed(db, write, rest);
        lemma_earlier_calls(tx, calls);
        assert forall|i: int| 0 <= i < last implies closes_at(tx, rest, i) == #[trigger] closes_at(tx, calls, i) by {
            assert(answer_at(tx, rest, i) == answer_at(tx, calls, i));
        }
        if after_calls(tx, rest).done {
            let i = choose|i: int| 0 <= i < rest.len() && #[trigger] closes_at(tx, rest, i);
            assert(closes_at(tx, calls, i));
        } else if after_calls(tx, calls).done {
            assert(closes_at(tx, calls, last));
        }
    }
}

/// A closed transaction stays as it is, and answers every call, also on a transaction that is
/// read-only, that it is closed.
pub proof fn law_closed_transactions_refuse<K, V>(tx: TransactionView<K, V>, calls: Seq<Call<K, V>>)
    requires
        tx.done,
    ensures
        after_calls(tx, calls) == tx,
        forall|i: int|
            0 <= i < calls.len() ==> #[trigger] answer_at(tx, calls, i) == Err::<(), Error>(Error::TxClosed),
    decreases calls.len(),
{
    if calls.len() > 0 {
        law_closed_transactions_refuse(tx, calls.drop_last());
        lemma_earlier_calls(tx, calls);
    }
}

/// A transaction keeps its version, its place in the commit queue, and whether it is
/// writeable, through every call on it.
pub proof fn law_version_is_kept<K, V>(tx: TransactionView<K, V>, calls: Seq<Call<K, V>>)
    ensures
        after_calls(tx, calls).version == tx.version,
        after_calls(tx, calls).commit == tx.commit,
        after_calls(tx, calls).write == tx.write,
    decreases calls.len(),
{
    if calls.len() > 0 {
        law_version_is_kept(tx, calls.drop_last());
    }
}

/// The updates of a transaction that is not closed are those of its writes that succeeded.
pub proof fn law_updates_are_the_writes<K, V>(
    db: DatabaseView<K, V>,
    write: bool,
    calls: Seq<Call<K, V>>,
    key: K,
)
    requires
        !after_calls(TransactionView::begin(db, write), calls).done,
    ensures
        after_calls(TransactionView::begin(db, write), calls).updates.contains_key(key) <==> exists|i: int|
            0 <= i < calls.len() && #[trigger] writes_at(TransactionView::begin(db, write), calls, i, key),
    decreases calls.len(),
{
    let tx = TransactionView::begin(db, write);
    if calls.len() > 0 {
        let rest = calls.drop_last();
        let last = calls.len() - 1;
        law_updates_are_the_writes(db, write, rest, key);
        lemma_earlier_calls(tx, calls);
        assert forall|i: int| 0 <= i < last implies writes_at(tx, rest, i, key) == #[trigger] writes_at(
            tx,
            calls,
            i,
            key,
        ) by {
            assert(answer_at(tx, rest, i) == answer_at(tx, calls, i));
        }
        if after_calls(tx, rest).updates.contains_key(key) {
            let i = choose|i: int| 0 <= i < rest.len() && #[trigger] writes_at(tx, rest, i, key);
            assert(writes_at(tx, calls, i, key));
        } else if after_calls(tx, calls).updates.contains_key(key) {
            assert(writes_at(tx, calls, last, key));
        }
        if exists|i: int| 0 <= i < calls.len() && #[trigger] writes_at(tx, calls, i, key) {
            let i = choose|i: int| 0 <= i < calls.len() && #[trigger] writes_at(tx, calls, i, key);
            if i < last {
                assert(writes_at(tx, rest, i, key));
            }
        }
    }
}

/// The update that a transaction has for a key is the value of its last write of the key that
/// succeeded, and that is what it reads of the key on any store.
pub proof fn law_the_last_successful_write_counts<K, V>(
    db: DatabaseView<K, V>,
    write: bool,
    calls: Seq<Call<K, V>>,
    key: K,
    i: int,
    store: DatabaseView<K, V>,
)
    requires
        !after_calls(TransactionView::begin(db, write), calls).done,
        0 <= i < calls.len(),
        writes_at(TransactionView::begin(db, write), calls, i, key),
        forall|j: int|
            i < j < calls.len() ==> !#[trigger] writes_at(TransactionView::begin(db, write), calls, j, key),
    ensures
        after_calls(TransactionView::begin(db, write), calls).updates.contains_key(key),
        after_calls(TransactionView::begin(db, write), calls).updates[key] == calls[i]->value,
        after_calls(TransactionView::begin(db, write), calls).contents(store).contains_key(key) <==> calls[i]->value
            is Some,
        calls[i]->value is Some ==> after_calls(TransactionView::begin(db, write), calls).contents(store)[key]
            == calls[i]->value->0,
    decreases calls.len(),
{
    let tx = TransactionView::begin(db, write);
    let rest = calls.drop_last();
    let last = calls.len() - 1;
    lemma_earlier_calls(tx, calls);
    assert(answer_at(tx, calls, last) == answer(after_calls(tx, rest), calls.last()));
    if i < last {
        assert(answer_at(tx, rest, i) == answer_at(tx, calls, i));
        assert(writes_at(tx, rest, i, key));
        assert forall|j: int| i < j < rest.len() implies !#[trigger] writes_at(tx, rest, j, key) by {
            assert(answer_at(tx, rest, j) == answer_at(tx, calls, j));
            assert(!writes_at(tx, calls, j, key));
        }
        law_the_last_successful_write_counts(db, write, rest, key, i, store);
        assert(!writes_at(tx, calls, last, key));
    }
}

/// A key that no call wrote with success is read as committed at the transaction's version.
pub proof fn law_unwritten_keys_are_read_as_committed<K, V>(
    db: DatabaseView<K, V>,
    write: bool,
    calls: Seq<Call<K, V>>,
    key: K,
    store: DatabaseView<K, V>,
)
    requires
        !after_calls(TransactionView::begin(db, write), calls).done,
        forall|j: int|
            0 <= j < calls.len() ==> !#[trigger] writes_at(TransactionView::begin(db, write), calls, j, key),
    ensures
        after_calls(TransactionView::begin(db, write), calls).contents(store).contains_key(key) <==> store.snapshot(
            db.sequence,
        ).contains_key(key),
        store.snapshot(db.sequence).contains_key(key) ==> after_calls(
            TransactionView::begin(db, write),
            calls,
        ).contents(store)[key] == store.snapshot(db.sequence)[key],
{
    law_updates_are_the_writes(db, write, calls, key);
    law_version_is_kept(TransactionView::begin(db, write), calls);
}

/// A transaction that was begun read-only never writes, whatever is called on it and on
/// whatever store. Every write and every commit is answered that it is not writeable, or that
/// it is closed once it is. It has no updates, and a request to commit leaves the store alone.
pub proof fn law_read_only_transactions_never_write<K, V>(
    db: DatabaseView<K, V>,
    calls: Seq<Call<K, V>>,
    check: Result<(), Error>,
    store: DatabaseView<K, V>,
)
    ensures
        after_calls(TransactionView::begin(db, false), calls).updates == Map::<K, Option<V>>::empty(),
        after_calls(TransactionView::begin(db, false), calls).write_answer(check) == Err::<(), Error>(
            if after_calls(TransactionView::begin(db, false), calls).done {
                Error::TxClosed
            } else {
                Error::TxNotWritable
            },
        ),
        after_calls(TransactionView::begin(db, false), calls).commit_answer(store) == Err::<(), Error>(
            if after_calls(TransactionView::begin(db, false), calls).done {
                Error::TxClosed
            } else {
                Error::TxNotWritable
            },
        ),
        after_calls(TransactionView::begin(db, false), calls).writable() is Err,
        after_calls(TransactionView::begin(db, false), calls).store_after_commit(store) == store,
        forall|i: int|
            0 <= i < calls.len() && (calls[i] is Write || calls[i] is Commit) ==> #[trigger] answer_at(
                TransactionView::begin(db, false),
                calls,
                i,
            ) is Err,
    decreases calls.len(),
{
    let tx = TransactionView::begin(db, false);
    law_version_is_kept(tx, calls);
    if calls.len() > 0 {
        let rest = calls.drop_last();
        law_read_only_transactions_never_write(db, rest, check, store);
        law_version_is_kept(tx, rest);
        lemma_earlier_calls(tx, calls);
    }
}

/// A transaction that was begun writeable takes every write, and gets the outcome of its check
/// for an answer, as long as it is not closed.
pub proof fn law_writeable_transactions_write_until_closed<K, V>(
    db: DatabaseView<K, V>,
    calls: Seq<Call<K, V>>,
    check: Result<(), Error>,
)
    requires
        !after_calls(TransactionView::begin(db, true), calls).done,
    ensures
        after_calls(TransactionView::begin(db, true), calls).writable() is Ok,
        after_calls(TransactionView::begin(db, true), calls).write_answer(check) == check,
{
    law_version_is_kept(TransactionView::begin(db, true), calls);
}

/// A request to commit is, for the store, a commit of the updates where it is answered with
/// `Ok`, a rejection where it meets a conflict, and no event at all otherwise.
pub proof fn law_requests_to_commit_are_events<K, V>(db: DatabaseView<K, V>, tx: TransactionView<K, V>)
    ensures
        tx.commit_answer(db) is Ok ==> tx.store_after_commit(db) == event::after_event(
            db,
            Event::Commit { updates: tx.updates },
        ),
        tx.commit_answer(db) == Err::<(), Error>(Error::KeyWriteConflict) ==> tx.store_after_commit(db)
            == event::after_event(db, Event::Reject),
        tx.done || !tx.write ==> tx.store_after_commit(db) == db,
{
}

/// The store after events, one after the other.
pub open spec fn after_events<K, V>(db: DatabaseView<K, V>, events: Seq<Event<K, V>>) -> DatabaseView<K, V>
    decreases events.len(),
{
    if events.len() == 0 {
        db
    } else {
        event::after_event(after_events(db, events.drop_last()), events.last())
    }
}

/// The events can take place one after the other.
pub open spec fn all_possible<K, V>(db: DatabaseView<K, V>, events: Seq<Event<K, V>>) -> bool
    decreases events.len(),
{
    events.len() > 0 ==> {
        &&& all_possible(db, events.drop_last())
        &&& event::possible(after_events(db, events.drop_last()), events.last())
    }
}

/// None of the events is the end of `tx`.
pub open spec fn all_spare<K, V>(
    db: DatabaseView<K, V>,
    events: Seq<Event<K, V>>,
    tx: TransactionView<K, V>,
) -> bool
    decreases events.len(),
{
    events.len() > 0 ==> {
        &&& all_spare(db, events.drop_last(), tx)
        &&& event::spares(after_events(db, events.drop_last()), events.last(), tx)
    }
}

/// The number of commits among the events. Beginnings, ends, and commits that met a conflict
/// are not counted.
pub open spec fn commits<K, V>(events: Seq<Event<K, V>>) -> nat
    decreases events.len(),
{
    if events.len() == 0 {
        0
    } else {
        commits(events.drop_last()) + (if events.last() is Commit {
            1nat
        } else {
            0
        })
    }
}

/// The store is consistent after any events that can take place.
pub proof fn law_histories_are_consistent<K, V>(db: DatabaseView<K, V>, events: Seq<Event<K, V>>)
    requires
        db.consistent(),
        all_possible(db, events),
    ensures
        after_events(db, events).consistent(),
    decreases events.len(),
{
    if events.len() > 0 {
        let before = after_events(db, events.drop_last());
        law_histories_are_consistent(db, events.drop_last());
        laws::law_consistency_is_kept(before, events.last());
    }
}

/// The version of a transaction is that of an earlier one plus the number of commits between
/// the two beginnings. Here `db` is the store on which the earlier one begins, and `events` is
/// what takes place until the later one begins, the beginning of the earlier one among it.
pub proof fn law_versions_count_commits<K, V>(
    db: DatabaseView<K, V>,
    events: Seq<Event<K, V>>,
    earlier: bool,
    later: bool,
)
    requires
        db.consistent(),
        all_possible(db, events),
    ensures
        TransactionView::begin(after_events(db, events), later).version == TransactionView::begin(db, earlier).version
            + commits(events),
    decreases events.len(),
{
    if events.len() > 0 {
        law_versions_count_commits(db, events.drop_last(), earlier, later);
        law_histories_are_consistent(db, events.drop_last());
    }
}

/// Fewer events have no more commits.
proof fn lemma_commits_grow<K, V>(events: Seq<Event<K, V>>, n: int)
    requires
        0 <= n <= events.len(),
    ensures
        commits(events.take(n)) <= commits(events),
    decreases events.len(),
{
    if n == events.len() {
        assert(events.take(n) =~= events);
    } else {
        lemma_commits_grow(events.drop_last(), n);
        assert(events.drop_last().take(n) =~= events.take(n));
    }
}

/// What a version has of a key is what the last commit of the key wrote that took place up to
/// that version: it reads that value, none where that was a delete, and none where no commit
/// wrote the key. Here `events` is all that took place since the store was new, and the
/// version of a commit is the number of commits up to it.
pub proof fn law_versions_hold_the_last_commits<K, V>(events: Seq<Event<K, V>>, version: u64, key: K)
    requires
        all_possible(DatabaseView::<K, V>::init(), events),
        version <= commits(events),
    ensures
        forall|i: int|
            0 <= i < events.len() && #[trigger] event::commits_key(events[i], key) && commits(events.take(i + 1))
                <= version && (forall|j: int|
                i < j < events.len() && #[trigger] event::commits_key(events[j], key) ==> version < commits(
                    events.take(j + 1),
                )) ==> {
                let snapshot = after_events(DatabaseView::<K, V>::init(), events).snapshot(version);
                &&& snapshot.contains_key(key) <==> events[i]->updates[key] is Some
                &&& events[i]->updates[key] is Some ==> snapshot[key] == events[i]->updates[key]->0
            },
        (forall|j: int|
            0 <= j < events.len() && #[trigger] event::commits_key(events[j], key) ==> version < commits(
                events.take(j + 1),
            )) ==> !after_events(DatabaseView::<K, V>::init(), events).snapshot(version).contains_key(key),
    decreases events.len(),
{
    let new = DatabaseView::<K, V>::init();
    if events.len() > 0 {
        let rest = events.drop_last();
        let last = events.len() - 1;
        let before = after_events(new, rest);
        let after = after_events(new, events);
        law_versions_count_commits(new, rest, false, false);
        law_histories_are_consistent(new, rest);
        assert(before.sequence == commits(rest));
        assert forall|j: int| 0 <= j < last implies #[trigger] event::commits_key(rest[j], key) == event::commits_key(
            events[j],
            key,
        ) && commits(rest.take(j + 1)) == commits(events.take(j + 1)) && commits(rest.take(j + 1)) <= commits(
            rest,
        ) by {
            assert(rest.take(j + 1) =~= events.take(j + 1));
            lemma_commits_grow(rest, j + 1);
        }
        assert(events.take(last + 1) =~= events);
        // The version at which the data was before the last event
        let earlier = if version <= commits(rest) {
            version
        } else {
            (version - 1) as u64
        };
        law_versions_hold_the_last_commits(rest, earlier, key);
        if event::commits_key(events[last], key) && version == commits(events) {
            laws::law_commit_stores_the_updates(before, events.last()->updates, false);
        } else if earlier == version {
            match events.last() {
                Event::Commit { updates } => {
                    laws::law_snapshots_are_stable(before, version, updates, 0);
                },
                _ => {
                    assert forall|k: K| #[trigger] after.versions_of(k) == before.versions_of(k) by {}
                    assert(after.snapshot(version) =~= before.snapshot(version));
                },
            }
        } else {
            laws::law_commit_stores_the_updates(before, events.last()->updates, false);
        }
        assert forall|i: int|
            0 <= i < events.len() && #[trigger] event::commits_key(events[i], key) && commits(events.take(i + 1))
                <= version && (forall|j: int|
                i < j < events.len() && #[trigger] event::commits_key(events[j], key) ==> version < commits(
                    events.take(j + 1),
                )) implies {
            let snapshot = after.snapshot(version);
            &&& snapshot.contains_key(key) <==> events[i]->updates[key] is Some
            &&& events[i]->updates[key] is Some ==> snapshot[key] == events[i]->updates[key]->0
        } by {
            if i < last {
                assert(event::commits_key(rest[i], key));
                assert forall|j: int|
                    i < j < rest.len() && #[trigger] event::commits_key(rest[j], key) implies earlier < commits(
                    rest.take(j + 1),
                ) by {
                    assert(event::commits_key(events[j], key));
                }
            }
        }
        if forall|j: int|
            0 <= j < events.len() && #[trigger] event::commits_key(events[j], key) ==> version < commits(
                events.take(j + 1),
            ) {
            assert forall|j: int|
                0 <= j < rest.len() && #[trigger] event::commits_key(rest[j], key) implies earlier < commits(
                rest.take(j + 1),
            ) by {
                assert(event::commits_key(events[j], key));
            }
            assert(!(event::commits_key(events[last], key) && version == commits(events)));
        }
    }
}

/// A transaction that runs goes on running through any events but its own end, and the keys
/// written since it began are those that the commits among the events wrote, besides those
/// that were written before them.
pub proof fn law_running_transactions_see_every_commit<K, V>(
    db: DatabaseView<K, V>,
    tx: TransactionView<K, V>,
    events: Seq<Event<K, V>>,
)
    requires
        db.consistent(),
        laws::running(db, tx),
        all_possible(db, events),
        all_spare(db, events, tx),
    ensures
        laws::running(after_events(db, events), tx),
        forall|k: K| #[trigger]
            laws::written_since(after_events(db, events), tx.version, k) <==> laws::written_since(db, tx.version, k) || (
            exists|i: int| 0 <= i < events.len() && #[trigger] event::commits_key(events[i], k)),
    decreases events.len(),
{
    if events.len() > 0 {
        let rest = events.drop_last();
        let before = after_events(db, rest);
        let after = after_events(db, events);
        law_running_transactions_see_every_commit(db, tx, rest);
        law_histories_are_consistent(db, rest);
        laws::law_transactions_keep_running(before, tx, events.last());
        assert forall|k: K| #[trigger]
            laws::written_since(after, tx.version, k) <==> laws::written_since(db, tx.version, k) || (exists|i: int|
                0 <= i < events.len() && #[trigger] event::commits_key(events[i], k)) by {
            laws::law_commits_write_their_keys(before, events.last(), tx.version, k);
            if laws::written_since(before, tx.version, k) && !laws::written_since(db, tx.version, k) {
                let i = choose|i: int| 0 <= i < rest.len() && #[trigger] event::commits_key(rest[i], k);
                assert(event::commits_key(events[i], k));
            }
            if event::commits_key(events.last(), k) {
                assert(event::commits_key(events[events.len() - 1], k));
            }
            if exists|i: int| 0 <= i < events.len() && #[trigger] event::commits_key(events[i], k) {
                let i = choose|i: int| 0 <= i < events.len() && #[trigger] event::commits_key(events[i], k);
                if i < rest.len() {
                    assert(event::commits_key(rest[i], k));
                }
            }
        }
    }
}

/// A commit meets a conflict exactly where, since the transaction began, another one committed
/// a write of a key that a call on this one wrote. Otherwise it succeeds. Here `db` is the
/// store on which the transaction began, `calls` are the calls on it, and `events` is what
/// took place on the store since.
pub proof fn law_commit_conflicts_iff_a_key_was_committed<K, V>(
    db: DatabaseView<K, V>,
    calls: Seq<Call<K, V>>,
    events: Seq<Event<K, V>>,
)
    requires
        db.consistent(),
        db.open_at(db.sequence) < u64::MAX,
        !after_calls(TransactionView::begin(db, true), calls).done,
        all_possible(db.begun(), events),
        all_spare(db.begun(), events, TransactionView::begin(db, true)),
    ensures
        after_calls(TransactionView::begin(db, true), calls).commit_answer(after_events(db.begun(), events)) == if exists|
            i: int,
            j: int,
            k: K,
        |
            0 <= i < events.len() && 0 <= j < calls.len() && #[trigger] event::commits_key(events[i], k)
                && #[trigger] writes_at(TransactionView::begin(db, true), calls, j, k) {
            Err::<(), Error>(Error::KeyWriteConflict)
        } else {
            Ok(())
        },
{
    let start = TransactionView::begin(db, true);
    let tx = after_calls(start, calls);
    let now = after_events(db.begun(), events);
    laws::law_transactions_run_from_their_beginning(db, true);
    laws::law_consistency_is_kept(db, Event::Begin);
    law_version_is_kept(start, calls);
    law_running_transactions_see_every_commit(db.begun(), start, events);
    laws::law_conflict_iff_written_since(now, tx);
    assert forall|k: K| #[trigger] laws::written_since(now, tx.version, k) <==> exists|i: int|
        0 <= i < events.len() && #[trigger] event::commits_key(events[i], k) by {
        assert(!laws::written_since(db.begun(), tx.version, k));
    }
    if tx.commit_answer(now) is Err {
        let k = choose|k: K| tx.updates.contains_key(k) && #[trigger] laws::written_since(now, tx.version, k);
        law_updates_are_the_writes(db, true, calls, k);
        let i = choose|i: int| 0 <= i < events.len() && #[trigger] event::commits_key(events[i], k);
        let j = choose|j: int| 0 <= j < calls.len() && #[trigger] writes_at(start, calls, j, k);
        assert(event::commits_key(events[i], k) && writes_at(start, calls, j, k));
    }
    if exists|i: int, j: int, k: K|
        0 <= i < events.len() && 0 <= j < calls.len() && #[trigger] event::commits_key(events[i], k) && #[trigger] writes_at(
            start,
            calls,
            j,
            k,
        ) {
        let (i, j, k) = choose|i: int, j: int, k: K|
            0 <= i < events.len() && 0 <= j < calls.len() && #[trigger] event::commits_key(events[i], k)
                && #[trigger] writes_at(start, calls, j, k);
        law_updates_are_the_writes(db, true, calls, k);
        assert(laws::written_since(now, tx.version, k));
    }
}

} // verus!
