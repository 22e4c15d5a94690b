//! What a committed transaction leaves behind for the transactions that run beside it.

use crate::order;
use vstd::prelude::*;

verus! {

/// An entry of the commit queue.
pub struct Commit<K> {
    /// Are the changes of the transaction in the store?
    pub(crate) done: bool,
    /// The keys that the transaction wrote, in ascending order
    pub(crate) keyset: Vec<K>,
}

/// An entry of the commit queue, with its keys as a set.
#[verifier::ext_equal]
#[verifier::reject_recursive_types(K)]
pub struct CommitView<K> {
    /// Are the changes of the transaction in the store?
    pub done: bool,
    /// The keys that the transaction wrote
    pub keyset: Set<K>,
}

impl<K> View for Commit<K> {
    type V = CommitView<K>;

    open(crate) spec fn view(&self) -> CommitView<K> {
        CommitView { done: self.done, keyset: self.keyset@.to_set() }
    }
}

impl<K: Ord + Clone> Commit<K> {
    /// The keys are in ascending order.
    pub open(crate) spec fn wf(self) -> bool {
        order::ascending(self.keyset@)
    }

    /// Whether this transaction and `other` wrote no key in common.
    pub fn is_disjoint(&self, other: &Commit<K>) -> (r: bool)
        requires
            order::key_laws::<K>(),
            self.wf(),
            other.wf(),
        ensures
            r == self@.keyset.disjoint(other@.keyset),
    {
        let a = &self.keyset;
        let b = &other.keyset;
        let mut i: usize = 0;
        let mut j: usize = 0;
        while i < a.len() && j < b.len()
            invariant
                order::key_laws::<K>(),
                order::ascending(a@),
                order::ascending(b@),
                i <= a@.len(),
                j <= b@.len(),
                a@ == self.keyset@,
                b@ == other.keyset@,
                forall|x: int, y: int|
                    #![trigger a@[x], b@[y]]
                    0 <= x < a@.len() && 0 <= y < b@.len() && (x < i || y < j) ==> a@[x] != b@[y],
            decreases a@.len() - i + b@.len() - j,
        {
            proof {
                order::lemma_before_is_total_order::<K>();
            }
            if order::precedes(&a[i], &b[j]) {
                i = i + 1;
            } else if order::precedes(&b[j], &a[i]) {
                j = j + 1;
            } else {
                assert(a@.to_set().contains(a@[i as int]));
                assert(b@.to_set().contains(a@[i as int]));
                return false;
            }
        }
        assert forall|k: K| a@.to_set().contains(k) implies !b@.to_set().contains(k) by {
            let x = a@.index_of(k);
            assert(a@[x] == k);
            if b@.contains(k) {
                let y = b@.index_of(k);
                assert(b@[y] == k);
            }
        }
        true
    }
}

} // verus!
