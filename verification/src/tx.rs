//! Transactions.
//!
//! A transaction reads the store as it was when the transaction began, and keeps what it
//! writes to itself until it commits. It does not hold the store: every method that needs
//! the store is handed it. A transaction that is done with is handed back by
//! [`Transaction::drop`], so that the store can clear what it keeps for it.

use crate::database;
use crate::database::{Database, DatabaseView};
use crate::err::Error;
use crate::merge;
use crate::merge::Direction;
use crate::order;
use crate::ordered_map::OrderedMap;
use crate::version;
use std::ops::Range;
use vstd::prelude::*;
use vstd::std_specs::cmp::*;

verus! {

/// A snapshot isolated database transaction
///
/// As far as nobody overwrites what it reads, it is serializable too: see
/// [`law_serializable_if_reads_are_current`](crate::laws::law_serializable_if_reads_are_current).
pub struct Transaction<K, V> {
    /// Is the transaction complete?
    done: bool,
    /// Is the transaction writeable?
    write: bool,
    /// The number of the last request to commit before this transaction started
    commit: u64,
    /// The version at which this transaction started
    version: u64,
    /// The local set of updates and deletes
    updates: OrderedMap<K, Option<V>>,
}

/// A transaction as a mathematical value.
#[verifier::ext_equal]
#[verifier::reject_recursive_types(K)]
#[verifier::reject_recursive_types(V)]
pub struct TransactionView<K, V> {
    /// Is the transaction complete?
    pub done: bool,
    /// Is the transaction writeable?
    pub write: bool,
    /// The number of the last request to commit before this transaction started
    pub commit: u64,
    /// The version at which this transaction started
    pub version: u64,
    /// The local set of updates and deletes, where `None` is a delete
    pub updates: Map<K, Option<V>>,
}

impl<K, V> TransactionView<K, V> {
    /// A transaction that begins on `db`.
    pub open spec fn begin(db: DatabaseView<K, V>, write: bool) -> Self {
        TransactionView {
            done: false,
            write,
            commit: db.transaction_queue_id,
            version: db.sequence,
            updates: Map::empty(),
        }
    }

    /// The transaction after it has given `key` a value, or deleted it.
    pub open spec fn update(self, key: K, value: Option<V>) -> Self {
        TransactionView { updates: self.updates.insert(key, value), ..self }
    }

    /// Whether the transaction answers at all, and how it refuses otherwise.
    pub open spec fn usable(self) -> Result<(), Error> {
        if self.done {
            Err(Error::TxClosed)
        } else {
            Ok(())
        }
    }

    /// The transaction after a request to cancel it.
    pub open spec fn after_cancel(self) -> Self {
        if self.done {
            self
        } else {
            TransactionView { done: true, updates: Map::empty(), ..self }
        }
    }

    /// Whether the transaction takes writes, and how it refuses them otherwise.
    pub open spec fn writable(self) -> Result<(), Error> {
        if self.done {
            Err(Error::TxClosed)
        } else if !self.write {
            Err(Error::TxNotWritable)
        } else {
            Ok(())
        }
    }

    /// The answer to a write, where `check` is what the write asks of the committed data.
    pub open spec fn write_answer(self, check: Result<(), Error>) -> Result<(), Error> {
        if self.writable() is Err {
            self.writable()
        } else {
            check
        }
    }

    /// The transaction after a write that was answered with `answer`.
    pub open spec fn after_write(self, key: K, value: Option<V>, answer: Result<(), Error>) -> Self {
        if answer is Ok {
            self.update(key, value)
        } else {
            self
        }
    }

    /// The answer to a request to commit.
    pub open spec fn commit_answer(self, db: DatabaseView<K, V>) -> Result<(), Error> {
        if self.writable() is Err {
            self.writable()
        } else if db.conflicts(self.commit, self.updates.dom()) {
            Err(Error::KeyWriteConflict)
        } else {
            Ok(())
        }
    }

    /// The transaction after a request to commit.
    pub open spec fn after_commit(self, db: DatabaseView<K, V>) -> Self {
        match self.commit_answer(db) {
            Ok(_) => TransactionView { done: true, updates: Map::empty(), ..self },
            Err(Error::KeyWriteConflict) => TransactionView { done: true, ..self },
            Err(_) => self,
        }
    }

    /// The store after a request to commit.
    pub open spec fn store_after_commit(self, db: DatabaseView<K, V>) -> DatabaseView<K, V> {
        match self.commit_answer(db) {
            Ok(_) => db.committed(self.updates),
            Err(Error::KeyWriteConflict) => db.rejected(),
            Err(_) => db,
        }
    }

    /// What the transaction reads: the data as it was when the transaction began, with its
    /// own updates written over it.
    pub open spec fn contents(self, db: DatabaseView<K, V>) -> Map<K, V> {
        database::overlay(db.snapshot(self.version), self.updates)
    }
}

impl<K: Ord, V> TransactionView<K, V> {
    /// What the transaction reads from `start` up to, but not including, `end`.
    pub open spec fn range(self, db: DatabaseView<K, V>, start: K, end: K) -> Map<K, V> {
        Map::new(
            |k: K| !order::before(k, start) && order::before(k, end) && self.contents(db).contains_key(k),
            |k: K| self.contents(db)[k],
        )
    }
}

/// `copy` is `None` where `value` is, and a clone of what `value` holds otherwise.
pub open spec fn copied<V: Clone>(value: Option<V>, copy: Option<V>) -> bool {
    match (value, copy) {
        (Some(v), Some(c)) => cloned(v, c),
        (None, None) => true,
        _ => false,
    }
}

/// `equal` is the answer to whether the stored value is the expected one: neither is there,
/// or both are and `==` says so.
pub open spec fn compared<V: Eq>(chk: Option<V>, stored: Option<V>, equal: bool) -> bool {
    match (chk, stored) {
        (Some(c), Some(s)) => {
            &&& call_ensures(V::eq, (&c, &s), equal)
            &&& V::obeys_eq_spec() ==> equal == c.eq_spec(&s)
        },
        (None, None) => equal,
        _ => !equal,
    }
}

/// The keys of a sequence of entries.
pub open spec fn keys_of<K, V>(entries: Seq<(K, V)>) -> Seq<K> {
    entries.map_values(|e: (K, V)| e.0)
}

/// The value of each entry is a clone of the value that `m` has for its key.
pub open spec fn values_from<K, V: Clone>(entries: Seq<(K, V)>, m: Map<K, V>) -> bool {
    forall|i: int| 0 <= i < entries.len() ==> cloned(m[(#[trigger] entries[i]).0], entries[i].1)
}

/// The keys of a sequence of borrowed entries.
spec fn borrowed_keys<K, V>(entries: Seq<(&K, &V)>) -> Seq<K> {
    entries.map_values(|e: (&K, &V)| *e.0)
}

/// The positions between which a walk from `start` to `end` runs, among the committed keys
/// and among the updates.
ghost struct WalkBounds<K> {
    start: K,
    end: K,
    tree_lo: int,
    tree_hi: int,
    own_lo: int,
    own_hi: int,
}

impl<K: Ord> WalkBounds<K> {
    /// Between its bounds, each of `tree` and `own` has its keys from `start` up to, but not
    /// including, `end`.
    spec fn sound(self, tree: Seq<K>, own: Seq<K>) -> bool {
        &&& 0 <= self.tree_lo <= self.tree_hi <= tree.len()
        &&& 0 <= self.own_lo <= self.own_hi <= own.len()
        &&& forall|x: int| 0 <= x < tree.len() ==> (order::before(#[trigger] tree[x], self.start) <==> x < self.tree_lo)
        &&& forall|x: int| 0 <= x < tree.len() ==> (order::before(#[trigger] tree[x], self.end) <==> x < self.tree_hi)
        &&& forall|y: int| 0 <= y < own.len() ==> (order::before(#[trigger] own[y], self.start) <==> y < self.own_lo)
        &&& forall|y: int| 0 <= y < own.len() ==> (order::before(#[trigger] own[y], self.end) <==> y < self.own_hi)
    }
}

impl<K, V> View for Transaction<K, V> {
    type V = TransactionView<K, V>;

    closed spec fn view(&self) -> TransactionView<K, V> {
        TransactionView {
            done: self.done,
            write: self.write,
            commit: self.commit,
            version: self.version,
            updates: self.updates@,
        }
    }
}

impl<K: Ord + Clone, V: Eq + Clone> Transaction<K, V> {
    /// The updates are in the order of their keys.
    pub closed spec fn wf(self) -> bool {
        self.updates.wf()
    }

    /// End the transaction, and drop what the store keeps for it
    pub fn drop(self, db: &mut Database<K, V>)
        requires
            old(db).wf(),
            old(db)@.transactions.contains_key(self@.version) ==> old(db)@.transactions[self@.version] > 0,
        ensures
            final(db).wf(),
            final(db)@ == old(db)@.released(self@.version),
    {
        db.release(self.version);
    }

    /// Create a new read-only transaction
    pub fn read(db: &mut Database<K, V>) -> (tx: Self)
        requires
            old(db).wf(),
        ensures
            final(db).wf(),
            final(db)@ == old(db)@.begun(),
            tx.wf(),
            tx@ == TransactionView::begin(old(db)@, false),
    {
        let commit: u64 = db.transaction_queue_id;
        let version: u64 = db.sequence;
        db.register();
        Transaction { done: false, write: false, commit, version, updates: OrderedMap::new() }
    }

    /// Create a new writeable transaction
    pub fn write(db: &mut Database<K, V>) -> (tx: Self)
        requires
            old(db).wf(),
        ensures
            final(db).wf(),
            final(db)@ == old(db)@.begun(),
            tx.wf(),
            tx@ == TransactionView::begin(old(db)@, true),
    {
        let commit: u64 = db.transaction_queue_id;
        let version: u64 = db.sequence;
        db.register();
        Transaction { done: false, write: true, commit, version, updates: OrderedMap::new() }
    }

    /// Get the starting sequence number of this transaction
    pub fn version(&self) -> (r: u64)
        ensures
            r == self@.version,
    {
        self.version
    }

    /// Check if the transaction is closed
    pub fn closed(&self) -> (r: bool)
        ensures
            r == self@.done,
    {
        self.done
    }

    /// Check if the transaction takes writes
    pub fn writable(&self) -> (r: Result<(), Error>)
        ensures
            r == self@.writable(),
    {
        if self.done {
            return Err(Error::TxClosed);
        }
        if !self.write {
            return Err(Error::TxNotWritable);
        }
        Ok(())
    }

    /// Check if the transaction has updates that are not committed
    pub fn has_updates(&self) -> (r: bool)
        requires
            self.wf(),
        ensures
            r == !self@.updates.dom().is_empty(),
    {
        !self.updates.is_empty()
    }

    /// Cancel the transaction and rollback any changes
    pub fn cancel(&mut self) -> (r: Result<(), Error>)
        requires
            old(self).wf(),
        ensures
            final(self).wf(),
            r == old(self)@.usable(),
            final(self)@ == old(self)@.after_cancel(),
    {
        if self.done {
            return Err(Error::TxClosed);
        }
        self.done = true;
        self.updates.clear();
        Ok(())
    }

    /// Commit the transaction and store all changes
    ///
    /// The changes are stored unless a transaction that asked to commit since this one
    /// started wrote one of the same keys.
    pub fn commit(&mut self, db: &mut Database<K, V>) -> (r: Result<(), Error>)
        requires
            old(self).wf(),
            old(db).wf(),
            old(self)@.writable() is Ok ==> old(db)@.transaction_queue_id < u64::MAX,
        ensures
            final(self).wf(),
            final(db).wf(),
            r == old(self)@.commit_answer(old(db)@),
            final(self)@ == old(self)@.after_commit(old(db)@),
            final(db)@ == old(self)@.store_after_commit(old(db)@),
    {
        match self.writable() {
            Ok(_) => {},
            Err(e) => return Err(e),
        }
        // Mark this transaction as done
        self.done = true;
        // Insert this transaction into the commit queue
        let commit: u64 = db.enqueue(self.updates.cloned_keys());
        let ghost queued = db@;
        // Check all transactions committed since we began
        if db.has_conflict(self.commit, commit) {
            // Remove the transaction from the commit queue
            db.dequeue(commit);
            proof {
                assert(db@ =~= old(db)@.rejected());
                let other = choose|other: u64|
                    #![trigger queued.transaction_commit_queue.contains_key(other)]
                    queued.transaction_commit_queue.contains_key(other) && self.commit < other < commit
                        && !queued.transaction_commit_queue[other].keyset.disjoint(
                        queued.transaction_commit_queue[commit].keyset,
                    );
                assert(old(db)@.transaction_commit_queue.contains_key(other));
            }
            return Err(Error::KeyWriteConflict);
        }
        proof {
            if old(db)@.conflicts(self.commit, self.updates@.dom()) {
                let other = choose|other: u64|
                    #![trigger old(db)@.transaction_commit_queue.contains_key(other)]
                    old(db)@.transaction_commit_queue.contains_key(other) && self.commit < other
                        && !old(db)@.transaction_commit_queue[other].keyset.disjoint(self.updates@.dom());
                assert(queued.transaction_commit_queue.contains_key(other));
            }
        }
        // Write the updates to the datastore
        let mut updates = OrderedMap::new();
        std::mem::swap(&mut updates, &mut self.updates);
        db.install(updates);
        // Mark the transaction in the commit queue as done
        db.finish(commit);
        assert(db@ =~= old(db)@.committed(old(self)@.updates));
        Ok(())
    }

    /// Check if a key exists in the datastore only
    fn exists_in_datastore(&self, db: &Database<K, V>, key: &K) -> (r: bool)
        requires
            db.wf(),
        ensures
            r == db@.snapshot(self@.version).contains_key(*key),
    {
        db.value_at(key, self.version).is_some()
    }

    /// Check if a key equals a value in the datastore only
    fn equals_in_datastore(&self, db: &Database<K, V>, key: &K, chk: Option<V>) -> (r: bool)
        requires
            db.wf(),
        ensures
            compared(chk, database::lookup(db@.snapshot(self@.version), *key), r),
    {
        match (chk, db.value_at(key, self.version)) {
            (Some(c), Some(s)) => c.eq(s),
            (None, None) => true,
            _ => false,
        }
    }

    /// Check if a key exists in the database
    pub fn key_exists(&self, db: &Database<K, V>, key: &K) -> (r: Result<bool, Error>)
        requires
            self.wf(),
            db.wf(),
        ensures
            self@.done ==> r == Err::<bool, Error>(Error::TxClosed),
            !self@.done ==> r == Ok::<bool, Error>(self@.contents(db@).contains_key(*key)),
    {
        if self.done {
            return Err(Error::TxClosed);
        }
        let res = match self.updates.get(key) {
            // The key exists in the writeset, unless it is deleted there
            Some(update) => update.is_some(),
            // Check for the key in the tree
            None => self.exists_in_datastore(db, key),
        };
        Ok(res)
    }

    /// Fetch a key from the database
    pub fn get(&self, db: &Database<K, V>, key: &K) -> (r: Result<Option<V>, Error>)
        requires
            self.wf(),
            db.wf(),
        ensures
            self@.done ==> r == Err::<Option<V>, Error>(Error::TxClosed),
            !self@.done ==> r is Ok && copied(database::lookup(self@.contents(db@), *key), r->Ok_0),
    {
        if self.done {
            return Err(Error::TxClosed);
        }
        let found = match self.updates.get(key) {
            Some(update) => update.as_ref(),
            None => db.value_at(key, self.version),
        };
        match found {
            Some(v) => Ok(Some(v.clone())),
            None => Ok(None),
        }
    }

    /// Insert or update a key in the database
    pub fn set(&mut self, key: K, val: V) -> (r: Result<(), Error>)
        requires
            old(self).wf(),
        ensures
            final(self).wf(),
            r == old(self)@.writable(),
            final(self)@ == old(self)@.after_write(key, Some(val), r),
    {
        match self.writable() {
            Ok(_) => {},
            Err(e) => return Err(e),
        }
        self.updates.insert(key, Some(val));
        Ok(())
    }

    /// Insert a key if it doesn't exist in the database
    pub fn put(&mut self, db: &Database<K, V>, key: K, val: V) -> (r: Result<(), Error>)
        requires
            old(self).wf(),
            db.wf(),
        ensures
            final(self).wf(),
            r == old(self)@.write_answer(
                if db@.snapshot(old(self)@.version).contains_key(key) {
                    Err(Error::KeyAlreadyExists)
                } else {
                    Ok(())
                },
            ),
            final(self)@ == old(self)@.after_write(key, Some(val), r),
    {
        match self.writable() {
            Ok(_) => {},
            Err(e) => return Err(e),
        }
        if self.exists_in_datastore(db, &key) {
            return Err(Error::KeyAlreadyExists);
        }
        self.updates.insert(key, Some(val));
        Ok(())
    }

    /// Insert a key if it matches a value
    pub fn putc(&mut self, db: &Database<K, V>, key: K, val: V, chk: Option<V>) -> (r: Result<(), Error>)
        requires
            old(self).wf(),
            db.wf(),
        ensures
            final(self).wf(),
            old(self)@.writable() is Err ==> r == old(self)@.writable(),
            old(self)@.writable() is Ok ==> r is Ok || r == Err::<(), Error>(Error::ValNotExpectedValue),
            old(self)@.writable() is Ok ==> compared(
                chk,
                database::lookup(db@.snapshot(old(self)@.version), key),
                r is Ok,
            ),
            final(self)@ == old(self)@.after_write(key, Some(val), r),
    {
        match self.writable() {
            Ok(_) => {},
            Err(e) => return Err(e),
        }
        if !self.equals_in_datastore(db, &key, chk) {
            return Err(Error::ValNotExpectedValue);
        }
        self.updates.insert(key, Some(val));
        Ok(())
    }

    /// Delete a key from the database
    pub fn del(&mut self, key: K) -> (r: Result<(), Error>)
        requires
            old(self).wf(),
        ensures
            final(self).wf(),
            r == old(self)@.writable(),
            final(self)@ == old(self)@.after_write(key, None, r),
    {
        match self.writable() {
            Ok(_) => {},
            Err(e) => return Err(e),
        }
        self.updates.insert(key, None);
        Ok(())
    }

    /// Delete a key if it matches a value
    pub fn delc(&mut self, db: &Database<K, V>, key: K, chk: Option<V>) -> (r: Result<(), Error>)
        requires
            old(self).wf(),
            db.wf(),
        ensures
            final(self).wf(),
            old(self)@.writable() is Err ==> r == old(self)@.writable(),
            old(self)@.writable() is Ok ==> r is Ok || r == Err::<(), Error>(Error::ValNotExpectedValue),
            old(self)@.writable() is Ok ==> compared(
                chk,
                database::lookup(db@.snapshot(old(self)@.version), key),
                r is Ok,
            ),
            final(self)@ == old(self)@.after_write(key, None, r),
    {
        match self.writable() {
            Ok(_) => {},
            Err(e) => return Err(e),
        }
        if !self.equals_in_datastore(db, &key, chk) {
            return Err(Error::ValNotExpectedValue);
        }
        self.updates.insert(key, None);
        Ok(())
    }

    /// The runs that a walk merges cover what the transaction reads in the range.
    proof fn lemma_walk_begins(self, db: &Database<K, V>, bounds: WalkBounds<K>, dir: Direction)
        requires
            self.wf(),
            db.wf(),
            bounds.sound(db.datastore.keys@, self.updates.keys@),
        ensures
            merge::merging(
                dir,
                merge::run(dir, db.datastore.keys@, bounds.tree_lo, bounds.tree_hi),
                merge::run(dir, self.updates.keys@, bounds.own_lo, bounds.own_hi),
                0,
                0,
                Seq::empty(),
                self@.range(db@, bounds.start, bounds.end).dom(),
            ),
    {
        order::lemma_before_is_total_order::<K>();
        db.lemma_positions();
        let tree = db.datastore.keys@;
        let own = self.updates.keys@;
        let t = merge::run(dir, tree, bounds.tree_lo, bounds.tree_hi);
        let u = merge::run(dir, own, bounds.own_lo, bounds.own_hi);
        let domain = self@.range(db@, bounds.start, bounds.end).dom();
        assert forall|k: K| #[trigger] domain.contains(k) implies merge::ahead(t, 0, k) || merge::ahead(u, 0, k) by {
            if own.contains(k) {
                let y = own.index_of(k);
                assert(own[y] == k);
                let n = match dir {
                    Direction::Forward => y - bounds.own_lo,
                    Direction::Reverse => bounds.own_hi - 1 - y,
                };
                assert(u[n] == k);
            } else {
                assert(db@.snapshot(self@.version).contains_key(k));
                let x = tree.index_of(k);
                assert(tree[x] == k);
                let n = match dir {
                    Direction::Forward => x - bounds.tree_lo,
                    Direction::Reverse => bounds.tree_hi - 1 - x,
                };
                assert(t[n] == k);
            }
        }
    }

    /// A committed key that no update hides is read as committed.
    proof fn lemma_committed_entry(self, db: &Database<K, V>, bounds: WalkBounds<K>, dir: Direction, p: int)
        requires
            self.wf(),
            db.wf(),
            bounds.sound(db.datastore.keys@, self.updates.keys@),
            bounds.tree_lo <= p < bounds.tree_hi,
            !merge::run(dir, self.updates.keys@, bounds.own_lo, bounds.own_hi).contains(db.datastore.keys@[p]),
        ensures
            database::lookup(self@.range(db@, bounds.start, bounds.end), db.datastore.keys@[p])
                == version::value_at(db.datastore.values@[p]@, self@.version),
    {
        order::lemma_before_is_total_order::<K>();
        db.lemma_positions();
        let k = db.datastore.keys@[p];
        let own = self.updates.keys@;
        if own.contains(k) {
            let y = own.index_of(k);
            assert(own[y] == k);
            let n = match dir {
                Direction::Forward => y - bounds.own_lo,
                Direction::Reverse => bounds.own_hi - 1 - y,
            };
            assert(merge::run(dir, own, bounds.own_lo, bounds.own_hi)[n] == k);
        }
    }

    /// A key of the range that the transaction has written is read as written.
    proof fn lemma_own_entry(self, db: &Database<K, V>, bounds: WalkBounds<K>, q: int)
        requires
            self.wf(),
            db.wf(),
            bounds.sound(db.datastore.keys@, self.updates.keys@),
            bounds.own_lo <= q < bounds.own_hi,
        ensures
            database::lookup(self@.range(db@, bounds.start, bounds.end), self.updates.keys@[q])
                == self.updates.values@[q],
    {
        order::lemma_before_is_total_order::<K>();
        self.updates.lemma_entry(q);
    }

    /// What the transaction reads from `start` to `end`, in the order of a walk and up to
    /// `limit` entries.
    ///
    /// The walk merges the committed keys with the updates: an update hides what is
    /// committed for its key.
    fn walk<'a>(
        &'a self,
        db: &'a Database<K, V>,
        start: &K,
        end: &K,
        limit: Option<usize>,
        dir: Direction,
    ) -> (hits: Vec<(&'a K, &'a V)>)
        requires
            self.wf(),
            db.wf(),
        ensures
            merge::lists(dir, borrowed_keys(hits@), self@.range(db@, *start, *end).dom(), limit),
            forall|h: int|
                0 <= h < hits@.len() ==> self@.range(db@, *start, *end)[*(#[trigger] hits@[h]).0] == *hits@[h].1,
    {
        let tree = &db.datastore;
        let own = &self.updates;
        let ghost range = self@.range(db@, *start, *end);
        let mut hits: Vec<(&'a K, &'a V)> = Vec::new();
        proof {
            order::lemma_before_is_total_order::<K>();
            assert(borrowed_keys(hits@) =~= Seq::<K>::empty());
        }
        // A range that ends before it starts is empty
        if order::precedes(end, start) {
            return hits;
        }
        let tree_lo: usize = tree.seek(start);
        let tree_hi: usize = tree.seek(end);
        let own_lo: usize = own.seek(start);
        let own_hi: usize = own.seek(end);
        let ghost bounds = WalkBounds {
            start: *start,
            end: *end,
            tree_lo: tree_lo as int,
            tree_hi: tree_hi as int,
            own_lo: own_lo as int,
            own_hi: own_hi as int,
        };
        proof {
            if tree_hi < tree_lo {
                assert(order::before(tree.keys@[tree_hi as int], *start));
            }
            if own_hi < own_lo {
                assert(order::before(own.keys@[own_hi as int], *start));
            }
            assert(bounds.sound(tree.keys@, own.keys@));
        }
        let ghost t = merge::run(dir, tree.keys@, tree_lo as int, tree_hi as int);
        let ghost u = merge::run(dir, own.keys@, own_lo as int, own_hi as int);
        let mut i: usize = 0;
        let mut j: usize = 0;
        proof {
            self.lemma_walk_begins(db, bounds, dir);
        }
        loop
            invariant
                self.wf(),
                db.wf(),
                tree == &db.datastore,
                own == &self.updates,
                range == self@.range(db@, *start, *end),
                tree_lo <= tree_hi <= tree.keys@.len(),
                own_lo <= own_hi <= own.keys@.len(),
                t == merge::run(dir, tree.keys@, tree_lo as int, tree_hi as int),
                u == merge::run(dir, own.keys@, own_lo as int, own_hi as int),
                bounds == (WalkBounds {
                    start: *start,
                    end: *end,
                    tree_lo: tree_lo as int,
                    tree_hi: tree_hi as int,
                    own_lo: own_lo as int,
                    own_hi: own_hi as int,
                }),
                bounds.sound(tree.keys@, own.keys@),
                merge::merging(dir, t, u, i as int, j as int, borrowed_keys(hits@), range.dom()),
                merge::within(hits@.len(), limit),
                forall|h: int| 0 <= h < hits@.len() ==> range[*(#[trigger] hits@[h]).0] == *hits@[h].1,
            ensures
                merge::lists(dir, borrowed_keys(hits@), range.dom(), limit),
                forall|h: int| 0 <= h < hits@.len() ==> range[*(#[trigger] hits@[h]).0] == *hits@[h].1,
            decreases t.len() - i + u.len() - j,
        {
            let enough = match limit {
                Some(l) => hits.len() >= l,
                None => false,
            };
            let left = i < tree_hi - tree_lo;
            let right = j < own_hi - own_lo;
            if enough || (!left && !right) {
                proof {
                    merge::lemma_merged(dir, t, u, i as int, j as int, borrowed_keys(hits@), range.dom(), limit);
                }
                break;
            }
            let ghost seen = hits@;
            let ghost n: int = i as int;
            let ghost m: int = j as int;
            let from_tree = left && (!right || merge::comes_sooner(
                dir,
                &tree.keys[merge::position(dir, tree_lo, tree_hi, i)],
                &own.keys[merge::position(dir, own_lo, own_hi, j)],
            ));
            if from_tree {
                let p: usize = merge::position(dir, tree_lo, tree_hi, i);
                proof {
                    db.lemma_positions();
                    merge::lemma_take_left(dir, t, u, n, m, borrowed_keys(seen), range.dom());
                    self.lemma_committed_entry(db, bounds, dir, p as int);
                }
                // Add this entry if it is not a delete
                match tree.values[p].at(self.version) {
                    Some(v) => {
                        hits.push((&tree.keys[p], v));
                    },
                    None => {},
                }
                i = i + 1;
                assert(borrowed_keys(hits@) =~= merge::reported(borrowed_keys(seen), range.dom(), t[n]));
            } else {
                let q: usize = merge::position(dir, own_lo, own_hi, j);
                proof {
                    order::lemma_before_is_total_order::<K>();
                    merge::lemma_take_right(dir, t, u, n, m, borrowed_keys(seen), range.dom());
                    self.lemma_own_entry(db, bounds, q as int);
                }
                // Advance the tree if the keys match
                if left && !merge::comes_sooner(
                    dir,
                    &own.keys[q],
                    &tree.keys[merge::position(dir, tree_lo, tree_hi, i)],
                ) {
                    i = i + 1;
                }
                // Add this entry if it is not a delete
                match &own.values[q] {
                    Some(v) => {
                        hits.push((&own.keys[q], v));
                    },
                    None => {},
                }
                j = j + 1;
                assert(borrowed_keys(hits@) =~= merge::reported(borrowed_keys(seen), range.dom(), u[m]));
            }
        }
        hits
    }

    /// Retrieve a range of keys from the databases
    ///
    /// The range holds the keys from `rng.start` up to, but not including, `rng.end`. Once the
    /// transaction has updates, the range must not end before it starts.
    pub fn keys(&self, db: &Database<K, V>, rng: Range<K>, limit: Option<usize>) -> (r: Result<Vec<K>, Error>)
        requires
            self.wf(),
            db.wf(),
            !self@.done && !self@.updates.dom().is_empty() ==> !order::before(rng.end, rng.start),
        ensures
            self@.done ==> r == Err::<Vec<K>, Error>(Error::TxClosed),
            !self@.done ==> r is Ok && merge::lists(
                Direction::Forward,
                r->Ok_0@,
                self@.range(db@, rng.start, rng.end).dom(),
                limit,
            ),
    {
        if self.done {
            return Err(Error::TxClosed);
        }
        let hits = self.walk(db, &rng.start, &rng.end, limit, Direction::Forward);
        Ok(clone_keys(&hits))
    }

    /// Retrieve a range of keys from the databases in reverse order
    ///
    /// The range holds the keys from `rng.start` up to, but not including, `rng.end`. Once the
    /// transaction has updates, the range must not end before it starts.
    pub fn keys_reverse(&self, db: &Database<K, V>, rng: Range<K>, limit: Option<usize>) -> (r: Result<Vec<K>, Error>)
        requires
            self.wf(),
            db.wf(),
            !self@.done && !self@.updates.dom().is_empty() ==> !order::before(rng.end, rng.start),
        ensures
            self@.done ==> r == Err::<Vec<K>, Error>(Error::TxClosed),
            !self@.done ==> r is Ok && merge::lists(
                Direction::Reverse,
                r->Ok_0@,
                self@.range(db@, rng.start, rng.end).dom(),
                limit,
            ),
    {
        if self.done {
            return Err(Error::TxClosed);
        }
        let hits = self.walk(db, &rng.start, &rng.end, limit, Direction::Reverse);
        Ok(clone_keys(&hits))
    }

    /// Retrieve a range of keys and values from the databases
    ///
    /// The range holds the keys from `rng.start` up to, but not including, `rng.end`. Once the
    /// transaction has updates, the range must not end before it starts.
    pub fn scan(&self, db: &Database<K, V>, rng: Range<K>, limit: Option<usize>) -> (r: Result<
        Vec<(K, V)>,
        Error,
    >)
        requires
            self.wf(),
            db.wf(),
            !self@.done && !self@.updates.dom().is_empty() ==> !order::before(rng.end, rng.start),
        ensures
            self@.done ==> r == Err::<Vec<(K, V)>, Error>(Error::TxClosed),
            !self@.done ==> r is Ok && merge::lists(
                Direction::Forward,
                keys_of(r->Ok_0@),
                self@.range(db@, rng.start, rng.end).dom(),
                limit,
            ) && values_from(r->Ok_0@, self@.range(db@, rng.start, rng.end)),
    {
        if self.done {
            return Err(Error::TxClosed);
        }
        let hits = self.walk(db, &rng.start, &rng.end, limit, Direction::Forward);
        Ok(clone_entries(&hits))
    }

    /// Retrieve a range of keys and values from the databases in reverse order
    ///
    /// The range holds the keys from `rng.start` up to, but not including, `rng.end`. Once the
    /// transaction has updates, the range must not end before it starts.
    pub fn scan_reverse(&self, db: &Database<K, V>, rng: Range<K>, limit: Option<usize>) -> (r: Result<
        Vec<(K, V)>,
        Error,
    >)
        requires
            self.wf(),
            db.wf(),
            !self@.done && !self@.updates.dom().is_empty() ==> !order::before(rng.end, rng.start),
        ensures
            self@.done ==> r == Err::<Vec<(K, V)>, Error>(Error::TxClosed),
            !self@.done ==> r is Ok && merge::lists(
                Direction::Reverse,
                keys_of(r->Ok_0@),
                self@.range(db@, rng.start, rng.end).dom(),
                limit,
            ) && values_from(r->Ok_0@, self@.range(db@, rng.start, rng.end)),
    {
        if self.done {
            return Err(Error::TxClosed);
        }
        let hits = self.walk(db, &rng.start, &rng.end, limit, Direction::Reverse);
        Ok(clone_entries(&hits))
    }
}

/// A clone of each key.
fn clone_keys<K: Ord + Clone, V>(hits: &Vec<(&K, &V)>) -> (keys: Vec<K>)
    requires
        order::key_laws::<K>(),
    ensures
        keys@ == borrowed_keys(hits@),
{
    let mut keys: Vec<K> = Vec::new();
    let mut i: usize = 0;
    while i < hits.len()
        invariant
            order::key_laws::<K>(),
            i <= hits@.len(),
            keys@ == borrowed_keys(hits@).take(i as int),
        decreases hits@.len() - i,
    {
        let key = hits[i].0.clone();
        assert(cloned(*hits@[i as int].0, key));
        keys.push(key);
        i = i + 1;
        assert(keys@ =~= borrowed_keys(hits@).take(i as int));
    }
    assert(borrowed_keys(hits@).take(i as int) =~= borrowed_keys(hits@));
    keys
}

/// A clone of each key and value.
fn clone_entries<K: Ord + Clone, V: Clone>(hits: &Vec<(&K, &V)>) -> (entries: Vec<(K, V)>)
    requires
        order::key_laws::<K>(),
    ensures
        keys_of(entries@) == borrowed_keys(hits@),
        entries@.len() == hits@.len(),
        forall|i: int|
            0 <= i < entries@.len() ==> (#[trigger] entries@[i]).0 == *hits@[i].0 && cloned(
                *hits@[i].1,
                entries@[i].1,
            ),
{
    let mut entries: Vec<(K, V)> = Vec::new();
    let mut i: usize = 0;
    while i < hits.len()
        invariant
            order::key_laws::<K>(),
            i <= hits@.len(),
            entries@.len() == i,
            keys_of(entries@) == borrowed_keys(hits@).take(i as int),
            forall|h: int|
                0 <= h < i ==> (#[trigger] entries@[h]).0 == *hits@[h].0 && cloned(*hits@[h].1, entries@[h].1),
        decreases hits@.len() - i,
    {
        let key = hits[i].0.clone();
        assert(cloned(*hits@[i as int].0, key));
        let value = hits[i].1.clone();
        assert(cloned(*hits@[i as int].1, value));
        entries.push((key, value));
        i = i + 1;
        assert(keys_of(entries@) =~= borrowed_keys(hits@).take(i as int));
    }
    assert(borrowed_keys(hits@).take(i as int) =~= borrowed_keys(hits@));
    entries
}

} // verus!
