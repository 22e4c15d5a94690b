//! The store that transactions run against.

use crate::commit::{Commit, CommitView};
use crate::order;
use crate::ordered_map::OrderedMap;
use crate::tx::{Transaction, TransactionView};
use crate::version;
use crate::version::Versions;
use vstd::prelude::*;

verus! {

/// The committed data, and the record of the transactions that run beside each other.
pub struct Database<K, V> {
    /// The number of transactions that have committed, which numbers the versions
    pub(crate) sequence: u64,
    /// The number of transactions that have asked to commit
    pub(crate) transaction_queue_id: u64,
    /// What the committed transactions wrote, by the order in which they asked to commit
    pub(crate) transaction_commit_queue: OrderedMap<u64, Commit<K>>,
    /// The number of open transactions at each version
    pub(crate) transactions: OrderedMap<u64, u64>,
    /// The versions of each key
    pub(crate) datastore: OrderedMap<K, Versions<V>>,
}

/// The store as a mathematical value.
#[verifier::ext_equal]
#[verifier::reject_recursive_types(K)]
#[verifier::reject_recursive_types(V)]
pub struct DatabaseView<K, V> {
    /// The number of transactions that have committed, which numbers the versions
    pub sequence: u64,
    /// The number of transactions that have asked to commit
    pub transaction_queue_id: u64,
    /// What the committed transactions wrote, by the order in which they asked to commit
    pub transaction_commit_queue: Map<u64, CommitView<K>>,
    /// The number of open transactions at each version
    pub transactions: Map<u64, u64>,
    /// The versions of each key, from the oldest to the newest
    pub datastore: Map<K, Seq<(u64, Option<V>)>>,
}

/// The value of `k` in `m`, if it has one.
pub open spec fn lookup<K, V>(m: Map<K, V>, k: K) -> Option<V> {
    if m.contains_key(k) {
        Some(m[k])
    } else {
        None
    }
}

/// The map `m` with `updates` written over it, where `None` deletes a key.
pub open spec fn overlay<K, V>(m: Map<K, V>, updates: Map<K, Option<V>>) -> Map<K, V> {
    Map::new(
        |k: K| if updates.contains_key(k) { updates[k] is Some } else { m.contains_key(k) },
        |k: K| if updates.contains_key(k) { updates[k]->0 } else { m[k] },
    )
}

impl<K, V> DatabaseView<K, V> {
    /// The store before any transaction.
    pub open spec fn init() -> Self {
        DatabaseView {
            sequence: 0,
            transaction_queue_id: 0,
            transaction_commit_queue: Map::empty(),
            transactions: Map::empty(),
            datastore: Map::empty(),
        }
    }

    /// What every operation keeps: no more transactions have committed than have asked to,
    /// nothing bears a number that was not given out yet, and the versions of each key are
    /// in the order of their numbers.
    pub open spec fn consistent(self) -> bool {
        &&& self.sequence <= self.transaction_queue_id
        &&& forall|id: u64| #[trigger]
            self.transaction_commit_queue.contains_key(id) ==> 0 < id <= self.transaction_queue_id
        &&& forall|version: u64| #[trigger] self.transactions.contains_key(version) ==> version <= self.sequence
        &&& forall|k: K| #[trigger] self.datastore.contains_key(k) ==> self.versions_consistent(k)
    }

    /// The versions of `k` are numbered in ascending order, by commits that took place.
    pub open spec fn versions_consistent(self, k: K) -> bool {
        let versions = self.datastore[k];
        &&& versions.len() > 0
        &&& forall|i: int|
            0 <= i < versions.len() ==> 0 < (#[trigger] versions[i]).0 <= self.sequence
        &&& forall|i: int, j: int|
            #![trigger versions[i], versions[j]]
            0 <= i < j < versions.len() ==> versions[i].0 < versions[j].0
    }

    /// The versions of `k`, of which there are none where the store has not seen `k`.
    pub open spec fn versions_of(self, k: K) -> Seq<(u64, Option<V>)> {
        if self.datastore.contains_key(k) {
            self.datastore[k]
        } else {
            Seq::empty()
        }
    }

    /// The committed data as it was at `version`.
    pub open spec fn snapshot(self, version: u64) -> Map<K, V> {
        Map::new(
            |k: K| version::value_at(self.versions_of(k), version) is Some,
            |k: K| version::value_at(self.versions_of(k), version)->0,
        )
    }

    /// The number of open transactions at `version`.
    pub open spec fn open_at(self, version: u64) -> u64 {
        if self.transactions.contains_key(version) {
            self.transactions[version]
        } else {
            0
        }
    }

    /// The store after a transaction began. The counter of the version is a machine counter,
    /// which starts over at zero.
    pub open spec fn begun(self) -> Self {
        let open = self.open_at(self.sequence);
        DatabaseView {
            transactions: self.transactions.insert(
                self.sequence,
                if open < u64::MAX { (open + 1) as u64 } else { 0 },
            ),
            ..self
        }
    }

    /// A transaction that asked to commit after number `since` wrote one of `keys`.
    pub open spec fn conflicts(self, since: u64, keys: Set<K>) -> bool {
        exists|id: u64|
            #![trigger self.transaction_commit_queue.contains_key(id)]
            self.transaction_commit_queue.contains_key(id) && since < id
                && !self.transaction_commit_queue[id].keyset.disjoint(keys)
    }

    /// The versions of each key once a commit numbered `version` has written `updates`.
    pub open spec fn written(self, version: u64, updates: Map<K, Option<V>>) -> Map<K, Seq<(u64, Option<V>)>> {
        Map::new(
            |k: K| self.datastore.contains_key(k) || updates.contains_key(k),
            |k: K|
                if updates.contains_key(k) {
                    self.versions_of(k).push((version, updates[k]))
                } else {
                    self.datastore[k]
                },
        )
    }

    /// The store after a commit of `updates`.
    pub open spec fn committed(self, updates: Map<K, Option<V>>) -> Self {
        let id = (self.transaction_queue_id + 1) as u64;
        let version = (self.sequence + 1) as u64;
        DatabaseView {
            sequence: version,
            transaction_queue_id: id,
            transaction_commit_queue: self.transaction_commit_queue.insert(
                id,
                CommitView { done: true, keyset: updates.dom() },
            ),
            datastore: self.written(version, updates),
            ..self
        }
    }

    /// The store after a commit that met a conflict.
    pub open spec fn rejected(self) -> Self {
        DatabaseView { transaction_queue_id: (self.transaction_queue_id + 1) as u64, ..self }
    }

    /// No transaction has begun at a version before `version` that is still on record.
    pub open spec fn oldest(self, version: u64) -> bool {
        forall|v: u64| #[trigger] self.transactions.contains_key(v) ==> version <= v
    }

    /// The store after a transaction that began at `version` is gone. With the last
    /// transaction of a version that is behind, the record of that version goes, and if no
    /// older version is on record, so does the start of the commit queue.
    pub open spec fn released(self, version: u64) -> Self {
        if !self.transactions.contains_key(version) {
            self
        } else if self.transactions[version] == 1 && version < self.sequence {
            DatabaseView {
                transactions: self.transactions.remove(version),
                transaction_commit_queue: if self.oldest(version) {
                    self.transaction_commit_queue.restrict(Set::new(|id: u64| version < id))
                } else {
                    self.transaction_commit_queue
                },
                ..self
            }
        } else {
            DatabaseView {
                transactions: self.transactions.insert(version, (self.transactions[version] - 1) as u64),
                ..self
            }
        }
    }
}

impl<K, V> DatabaseView<K, V> {
    /// Writing one more update adds one version.
    proof fn lemma_written_one(self, version: u64, updates: Map<K, Option<V>>, key: K, value: Option<V>)
        requires
            !updates.contains_key(key),
        ensures
            self.written(version, updates.insert(key, value)) == self.written(version, updates).insert(
                key,
                self.versions_of(key).push((version, value)),
            ),
    {
        assert(self.written(version, updates.insert(key, value)) =~= self.written(version, updates).insert(
            key,
            self.versions_of(key).push((version, value)),
        ));
    }

    /// The versions of each key stay in order when a commit adds to them.
    pub proof fn lemma_committed_consistent(self, updates: Map<K, Option<V>>)
        requires
            self.consistent(),
            self.sequence < u64::MAX,
        ensures
            forall|k: K| #[trigger]
                self.written((self.sequence + 1) as u64, updates).contains_key(k) ==> (DatabaseView {
                    sequence: (self.sequence + 1) as u64,
                    datastore: self.written((self.sequence + 1) as u64, updates),
                    ..self
                }).versions_consistent(k),
    {
        let version = (self.sequence + 1) as u64;
        let after = DatabaseView { sequence: version, datastore: self.written(version, updates), ..self };
        assert forall|k: K| #[trigger] self.written(version, updates).contains_key(k) implies after.versions_consistent(
            k,
        ) by {
            if self.datastore.contains_key(k) {
                assert(self.versions_consistent(k));
            }
        }
    }
}

impl<K, V> View for Database<K, V> {
    type V = DatabaseView<K, V>;

    open(crate) spec fn view(&self) -> DatabaseView<K, V> {
        DatabaseView {
            sequence: self.sequence,
            transaction_queue_id: self.transaction_queue_id,
            transaction_commit_queue: self.transaction_commit_queue@.map_values(|c: Commit<K>| c@),
            transactions: self.transactions@,
            datastore: self.datastore@.map_values(|v: Versions<V>| v@),
        }
    }
}

impl<K: Ord + Clone, V> Database<K, V> {
    /// The store is consistent, and so is what it is made of.
    pub open(crate) spec fn wf(self) -> bool {
        &&& self.transaction_commit_queue.wf()
        &&& self.transactions.wf()
        &&& self.datastore.wf()
        &&& forall|id: u64| #[trigger]
            self.transaction_commit_queue@.contains_key(id) ==> self.transaction_commit_queue@[id].wf()
        &&& forall|k: K| #[trigger] self.datastore@.contains_key(k) ==> self.datastore@[k].wf()
        &&& self@.consistent()
    }

    /// What [`Database::wf`] says of the store as a mathematical value.
    pub proof fn lemma_consistent(self)
        requires
            self.wf(),
        ensures
            self@.consistent(),
            order::key_laws::<K>(),
    {
    }

    /// The key at a position of the store has the versions at that position, and no key
    /// elsewhere has a committed value.
    pub(crate) proof fn lemma_positions(self)
        requires
            self.wf(),
        ensures
            forall|x: int|
                #![trigger self.datastore.values@[x]]
                #![trigger self.datastore.keys@[x]]
                0 <= x < self.datastore.keys@.len() ==> {
                    &&& self.datastore.values@[x].wf()
                    &&& self.datastore.values@[x]@ == self@.versions_of(self.datastore.keys@[x])
                },
            forall|k: K, version: u64| #[trigger]
                self@.snapshot(version).contains_key(k) ==> self.datastore.keys@.contains(k),
    {
        assert forall|x: int|
            #![trigger self.datastore.values@[x]]
            #![trigger self.datastore.keys@[x]]
            0 <= x < self.datastore.keys@.len() implies {
            &&& self.datastore.values@[x].wf()
            &&& self.datastore.values@[x]@ == self@.versions_of(self.datastore.keys@[x])
        } by {
            self.datastore.lemma_entry(x);
        }
    }

    /// An empty store.
    pub fn new() -> (db: Self)
        requires
            order::key_laws::<K>(),
        ensures
            db.wf(),
            db@ == DatabaseView::<K, V>::init(),
    {
        proof {
            order::lemma_u64_keys();
        }
        let db = Database {
            sequence: 0,
            transaction_queue_id: 0,
            transaction_commit_queue: OrderedMap::new(),
            transactions: OrderedMap::new(),
            datastore: OrderedMap::new(),
        };
        assert(db@ =~= DatabaseView::<K, V>::init());
        db
    }

    /// The number of transactions that have asked to commit.
    pub fn transaction_queue_id(&self) -> (r: u64)
        ensures
            r == self@.transaction_queue_id,
    {
        self.transaction_queue_id
    }

    /// The number of open transactions at `version`, if that version is on record.
    pub fn open_transactions(&self, version: u64) -> (r: Option<u64>)
        requires
            self.wf(),
        ensures
            r == lookup(self@.transactions, version),
    {
        match self.transactions.get(&version) {
            Some(count) => Some(*count),
            None => None,
        }
    }

    /// Starts a new transaction, writeable or read-only.
    pub fn begin(&mut self, write: bool) -> (tx: Transaction<K, V>)
        where
            V: Eq + Clone,
        requires
            old(self).wf(),
        ensures
            final(self).wf(),
            final(self)@ == old(self)@.begun(),
            tx.wf(),
            tx@ == TransactionView::begin(old(self)@, write),
    {
        if write {
            Transaction::write(self)
        } else {
            Transaction::read(self)
        }
    }

    /// Counts one more open transaction at the current version.
    pub(crate) fn register(&mut self)
        requires
            old(self).wf(),
        ensures
            final(self).wf(),
            final(self)@ == old(self)@.begun(),
    {
        let open: u64 = match self.transactions.get(&self.sequence) {
            Some(count) => *count,
            None => 0,
        };
        self.transactions.insert(self.sequence, open.wrapping_add(1));
        assert(self@ =~= old(self)@.begun());
    }

    /// Counts one open transaction less at `version`, and clears what is kept for that
    /// version once nothing needs it.
    pub(crate) fn release(&mut self, version: u64)
        requires
            old(self).wf(),
            old(self)@.transactions.contains_key(version) ==> old(self)@.transactions[version] > 0,
        ensures
            final(self).wf(),
            final(self)@ == old(self)@.released(version),
    {
        proof {
            order::lemma_u64_keys();
        }
        match self.transactions.find(&version) {
            Some(i) => {
                proof {
                    self.transactions.lemma_entry(i as int);
                }
                // Decrement the transaction counter for this snapshot version
                let total: u64 = self.transactions.values[i] - 1;
                // Check if we can clear up the transaction counter for this snapshot version
                if total == 0 && self.sequence > version {
                    // Check if there are previous transactions
                    if i == 0 {
                        // Remove the entries from the commit queue up to this version
                        self.transaction_commit_queue.remove_through(&version);
                    }
                    // Remove the transaction entry for this snapshot version
                    self.transactions.remove(&version);
                } else {
                    self.transactions.insert(version, total);
                }
                proof {
                    let keys = old(self).transactions.keys@;
                    if i == 0 {
                        assert forall|v: u64| #[trigger] old(self)@.transactions.contains_key(v) implies version <= v by {
                            let x = keys.index_of(v);
                            assert(keys[x] == v);
                            if x > 0 {
                                assert(order::before(keys[0], keys[x]));
                            }
                        }
                    } else {
                        old(self).transactions.lemma_entry(0);
                        assert(order::before(keys[0], keys[i as int]));
                        assert(old(self)@.transactions.contains_key(keys[0]));
                    }
                    assert(self@ =~= old(self)@.released(version));
                }
            },
            None => {},
        }
    }

    /// The committed value of `key` at `version`.
    pub(crate) fn value_at(&self, key: &K, version: u64) -> (value: Option<&V>)
        requires
            self.wf(),
        ensures
            match value {
                Some(v) => lookup(self@.snapshot(version), *key) == Some(*v),
                None => lookup(self@.snapshot(version), *key) is None,
            },
    {
        match self.datastore.get(key) {
            Some(versions) => versions.at(version),
            None => None,
        }
    }

    /// Takes a transaction that wrote `keyset` into the commit queue, and returns its number.
    pub(crate) fn enqueue(&mut self, keyset: Vec<K>) -> (id: u64)
        requires
            old(self).wf(),
            old(self)@.transaction_queue_id < u64::MAX,
            order::ascending(keyset@),
        ensures
            final(self).wf(),
            id == old(self)@.transaction_queue_id + 1,
            final(self)@ == (DatabaseView {
                transaction_queue_id: id,
                transaction_commit_queue: old(self)@.transaction_commit_queue.insert(
                    id,
                    CommitView { done: false, keyset: keyset@.to_set() },
                ),
                ..old(self)@
            }),
    {
        let id: u64 = self.transaction_queue_id + 1;
        self.transaction_queue_id = id;
        self.transaction_commit_queue.insert(id, Commit { done: false, keyset });
        assert(self@.transaction_commit_queue =~= old(self)@.transaction_commit_queue.insert(
            id,
            CommitView { done: false, keyset: keyset@.to_set() },
        ));
        id
    }

    /// Whether a transaction that came into the commit queue after number `since` and before
    /// number `id` wrote a key that the transaction of number `id` wrote.
    pub(crate) fn has_conflict(&self, since: u64, id: u64) -> (r: bool)
        requires
            self.wf(),
            self@.transaction_commit_queue.contains_key(id),
        ensures
            r == exists|other: u64|
                #![trigger self@.transaction_commit_queue.contains_key(other)]
                self@.transaction_commit_queue.contains_key(other) && since < other < id
                    && !self@.transaction_commit_queue[other].keyset.disjoint(
                    self@.transaction_commit_queue[id].keyset,
                ),
    {
        let queue = &self.transaction_commit_queue;
        proof {
            order::lemma_u64_keys();
        }
        match queue.get(&id) {
            Some(entry) => {
                let mut i: usize = queue.seek_past(&since);
                while i < queue.keys.len() && queue.keys[i] < id
                    invariant
                        self.wf(),
                        queue == &self.transaction_commit_queue,
                        queue@.contains_key(id),
                        *entry == queue@[id],
                        forall|a: u64, b: u64| #[trigger] order::before(a, b) <==> a < b,
                        i <= queue.keys@.len(),
                        forall|x: int| i <= x < queue.keys@.len() ==> since < #[trigger] queue.keys@[x],
                        forall|x: int|
                            #![trigger queue.keys@[x]]
                            0 <= x < i && since < queue.keys@[x] ==> queue.keys@[x] < id
                                && queue@[queue.keys@[x]]@.keyset.disjoint(entry@.keyset),
                    decreases queue.keys@.len() - i,
                {
                    proof {
                        queue.lemma_entry(i as int);
                    }
                    if !queue.values[i].is_disjoint(entry) {
                        proof {
                            let other = queue.keys@[i as int];
                            assert(self@.transaction_commit_queue.contains_key(other));
                        }
                        return true;
                    }
                    i = i + 1;
                }
                proof {
                    assert forall|other: u64|
                        #![trigger self@.transaction_commit_queue.contains_key(other)]
                        self@.transaction_commit_queue.contains_key(other) && since < other < id implies
                        self@.transaction_commit_queue[other].keyset.disjoint(
                        self@.transaction_commit_queue[id].keyset,
                    ) by {
                        let x = queue.keys@.index_of(other);
                        assert(queue.keys@[x] == other);
                        if x > i {
                            assert(order::before(queue.keys@[i as int], queue.keys@[x]));
                        }
                    }
                }
                false
            },
            None => false,
        }
    }

    /// Takes the transaction of number `id` out of the commit queue.
    pub(crate) fn dequeue(&mut self, id: u64)
        requires
            old(self).wf(),
        ensures
            final(self).wf(),
            final(self)@ == (DatabaseView {
                transaction_commit_queue: old(self)@.transaction_commit_queue.remove(id),
                ..old(self)@
            }),
    {
        self.transaction_commit_queue.remove(&id);
        assert(self@.transaction_commit_queue =~= old(self)@.transaction_commit_queue.remove(id));
    }

    /// Marks the transaction of number `id` in the commit queue as done.
    pub(crate) fn finish(&mut self, id: u64)
        requires
            old(self).wf(),
            old(self)@.transaction_commit_queue.contains_key(id),
        ensures
            final(self).wf(),
            final(self)@ == (DatabaseView {
                transaction_commit_queue: old(self)@.transaction_commit_queue.insert(
                    id,
                    CommitView { done: true, ..old(self)@.transaction_commit_queue[id] },
                ),
                ..old(self)@
            }),
    {
        match self.transaction_commit_queue.get_mut(&id) {
            Some(entry) => {
                entry.done = true;
            },
            None => {},
        }
        assert(self@.transaction_commit_queue =~= old(self)@.transaction_commit_queue.insert(
            id,
            CommitView { done: true, ..old(self)@.transaction_commit_queue[id] },
        ));
    }

    /// Writes `updates` into the store, as the versions of the next sequence number.
    pub(crate) fn install(&mut self, updates: OrderedMap<K, Option<V>>)
        requires
            old(self).wf(),
            old(self)@.sequence < old(self)@.transaction_queue_id,
            updates.wf(),
        ensures
            final(self).wf(),
            final(self)@ == (DatabaseView {
                sequence: (old(self)@.sequence + 1) as u64,
                datastore: old(self)@.written((old(self)@.sequence + 1) as u64, updates@),
                ..old(self)@
            }),
    {
        let ghost all = updates@;
        let ghost before = old(self)@;
        let version: u64 = self.sequence + 1;
        self.sequence = version;
        proof {
            assert forall|i: int|
                #![trigger updates.keys@[i]]
                0 <= i < updates.keys@.len() implies all.contains_key(updates.keys@[i]) && all[updates.keys@[i]]
                == updates.values@[i] by {
                updates.lemma_entry(i);
            }
        }
        let OrderedMap { mut keys, mut values } = updates;
        assert(all.remove_keys(keys@.to_set()) =~= Map::<K, Option<V>>::empty());
        assert(self@.datastore =~= before.written(version, all.remove_keys(keys@.to_set())));
        while keys.len() > 0
            invariant
                before.consistent(),
                version == before.sequence + 1,
                self.datastore.wf(),
                forall|k: K| #[trigger] self.datastore@.contains_key(k) ==> self.datastore@[k].wf(),
                self@ == (DatabaseView {
                    sequence: version,
                    datastore: before.written(version, all.remove_keys(keys@.to_set())),
                    ..before
                }),
                self.transaction_commit_queue == old(self).transaction_commit_queue,
                self.transactions == old(self).transactions,
                order::ascending(keys@),
                keys@.len() == values@.len(),
                forall|i: int|
                    #![trigger keys@[i]]
                    0 <= i < keys@.len() ==> all.contains_key(keys@[i]) && all[keys@[i]] == values@[i],
            decreases keys@.len(),
        {
            let ghost ks = keys@;
            let ghost left = all.remove_keys(ks.to_set());
            let ghost store = self@.datastore;
            match (keys.pop(), values.pop()) {
                (Some(key), Some(value)) => {
                    proof {
                        lemma_last_key(ks, all);
                        assert(ks.contains(key));
                        assert(before.versions_of(key) == self@.versions_of(key));
                        if before.datastore.contains_key(key) {
                            assert(before.versions_consistent(key));
                        }
                        before.lemma_written_one(version, left, key, value);
                    }
                    match self.datastore.get_mut(&key) {
                        Some(versions) => {
                            versions.push(version, value);
                        },
                        None => {
                            self.datastore.insert(key, Versions::new(version, value));
                        },
                    }
                    proof {
                        assert(self@.datastore =~= store.insert(
                            key,
                            before.versions_of(key).push((version, value)),
                        ));
                    }
                },
                _ => {},
            }
        }
        proof {
            assert(all.remove_keys(keys@.to_set()) =~= all);
            before.lemma_committed_consistent(all);
        }
    }
}

/// The updates that are in the store once the last of `keys` is written too.
proof fn lemma_last_key<K: Ord + Clone, T>(keys: Seq<K>, all: Map<K, T>)
    requires
        order::key_laws::<K>(),
        order::ascending(keys),
        keys.len() > 0,
        all.contains_key(keys.last()),
    ensures
        !all.remove_keys(keys.to_set()).contains_key(keys.last()),
        all.remove_keys(keys.drop_last().to_set()) == all.remove_keys(keys.to_set()).insert(
            keys.last(),
            all[keys.last()],
        ),
{
    let rest = keys.drop_last();
    let key = keys.last();
    assert(keys[keys.len() - 1] == key);
    assert(keys.contains(key));
    assert forall|k: K| #[trigger] keys.contains(k) <==> (rest.contains(k) || k == key) by {
        if keys.contains(k) && k != key {
            let i = keys.index_of(k);
            assert(keys[i] == k);
            assert(rest[i] == k);
        }
        if rest.contains(k) {
            let i = rest.index_of(k);
            assert(rest[i] == k);
            assert(keys[i] == k);
        }
    }
    if rest.contains(key) {
        let i = rest.index_of(key);
        assert(rest[i] == key);
        assert(keys[i] == key);
        order::lemma_before_is_total_order::<K>();
        assert(order::before(keys[i], keys[keys.len() - 1]));
    }
    assert(all.remove_keys(rest.to_set()) =~= all.remove_keys(keys.to_set()).insert(key, all[key]));
}

} // verus!
