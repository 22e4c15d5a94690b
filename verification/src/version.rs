//! The versions of one key.
//!
//! Every commit that writes a key adds a version to it: the number of the commit and the
//! value that it wrote, or `None` where it deleted the key. The version numbers are held in
//! a [`SortedVec`], and the values in a vector beside it, at the positions that the sorted
//! vector gives.

use sorted_vec::SortedVec;
use vstd::prelude::*;

verus! {

/// A vector of `sorted_vec` that keeps its elements sorted.
#[verifier::external_type_specification]
#[verifier::external_body]
#[verifier::reject_recursive_types(T)]
pub struct ExSortedVec<T: Ord>(SortedVec<T>);

/// The elements of a sorted vector, in the order in which it holds them.
pub uninterp spec fn sorted_elements(s: SortedVec<u64>) -> Seq<u64>;

/// No number of `s` is followed by a smaller one.
pub open spec fn non_decreasing(s: Seq<u64>) -> bool {
    forall|i: int, j: int| #![trigger s[i], s[j]] 0 <= i <= j < s.len() ==> s[i] <= s[j]
}

/// Calls `SortedVec::from` on a vector of numbers: the result holds the same numbers, each
/// as often, in sorted order.
#[verifier::external_body]
fn sorted_from(numbers: Vec<u64>) -> (s: SortedVec<u64>)
    ensures
        non_decreasing(sorted_elements(s)),
        sorted_elements(s).to_multiset() == numbers@.to_multiset(),
{
    SortedVec::from(numbers)
}

/// Calls `SortedVec::push` on a vector whose elements are sorted: the number is put at a
/// position that keeps them so, and that position is returned. It is the one behind all
/// elements if none of them is greater.
#[verifier::external_body]
fn sorted_push(s: &mut SortedVec<u64>, number: u64) -> (pos: usize)
    requires
        non_decreasing(sorted_elements(*old(s))),
    ensures
        pos <= sorted_elements(*old(s)).len(),
        sorted_elements(*final(s)) == sorted_elements(*old(s)).insert(pos as int, number),
        non_decreasing(sorted_elements(*final(s))),
        (forall|i: int|
            0 <= i < sorted_elements(*old(s)).len() ==> #[trigger] sorted_elements(*old(s))[i] <= number)
            ==> pos == sorted_elements(*old(s)).len(),
{
    s.push(number)
}

/// Calls `SortedVec::deref`: the elements as a plain vector.
#[verifier::external_body]
fn sorted_deref(s: &SortedVec<u64>) -> (numbers: &Vec<u64>)
    ensures
        numbers@ == sorted_elements(*s),
{
    std::ops::Deref::deref(s)
}

/// The versions of one key, from the oldest to the newest.
pub struct Versions<V> {
    numbers: SortedVec<u64>,
    values: Vec<Option<V>>,
}

/// The value that a reader at `version` sees: that of the last entry whose number is at most
/// `version`, where `None` stands for a key that is absent.
pub open spec fn value_at<V>(versions: Seq<(u64, Option<V>)>, version: u64) -> Option<V>
    decreases versions.len(),
{
    if versions.len() == 0 {
        None
    } else if versions.last().0 <= version {
        versions.last().1
    } else {
        value_at(versions.drop_last(), version)
    }
}

impl<V> View for Versions<V> {
    type V = Seq<(u64, Option<V>)>;

    closed spec fn view(&self) -> Seq<(u64, Option<V>)> {
        Seq::new(self.values@.len(), |i: int| (sorted_elements(self.numbers)[i], self.values@[i]))
    }
}

impl<V> Versions<V> {
    /// Every number has its value, and the numbers are sorted.
    pub closed spec fn wf(self) -> bool {
        &&& sorted_elements(self.numbers).len() == self.values@.len()
        &&& non_decreasing(sorted_elements(self.numbers))
    }

    /// A key with its first version.
    pub fn new(version: u64, value: Option<V>) -> (r: Self)
        ensures
            r.wf(),
            r@ == seq![(version, value)],
    {
        let first: Vec<u64> = vec![version];
        assert(first@ =~= seq![version]);
        let numbers = sorted_from(first);
        let mut values: Vec<Option<V>> = Vec::new();
        values.push(value);
        let r = Versions { numbers, values };
        proof {
            broadcast use vstd::multiset::group_multiset_axioms;
            let s = sorted_elements(r.numbers);
            vstd::seq_lib::to_multiset_len(s);
            vstd::seq_lib::to_multiset_len(seq![version]);
            assert(s.contains(s[0]));
            vstd::seq_lib::to_multiset_contains(s, s[0]);
            vstd::seq_lib::to_multiset_contains(seq![version], s[0]);
            assert(r@ =~= seq![(version, value)]);
        }
        r
    }

    /// Adds a version that is not older than those that the key has.
    pub fn push(&mut self, version: u64, value: Option<V>)
        requires
            old(self).wf(),
            forall|i: int| 0 <= i < old(self)@.len() ==> (#[trigger] old(self)@[i]).0 <= version,
        ensures
            final(self).wf(),
            final(self)@ == old(self)@.push((version, value)),
    {
        let ghost numbers = sorted_elements(self.numbers);
        assert forall|i: int| 0 <= i < numbers.len() implies #[trigger] numbers[i] <= version by {
            assert(self@[i].0 == numbers[i]);
        }
        let pos: usize = sorted_push(&mut self.numbers, version);
        self.values.insert(pos, value);
        assert(self@ =~= old(self)@.push((version, value)));
    }

    /// The value that a reader at `version` sees.
    pub fn at(&self, version: u64) -> (value: Option<&V>)
        requires
            self.wf(),
        ensures
            match value {
                Some(v) => value_at(self@, version) == Some(*v),
                None => value_at(self@, version) is None,
            },
    {
        let numbers = sorted_deref(&self.numbers);
        let mut i: usize = numbers.len();
        assert(self@.take(i as int) =~= self@);
        while i > 0
            invariant
                self.wf(),
                numbers@ == sorted_elements(self.numbers),
                i <= numbers@.len(),
                value_at(self@, version) == value_at(self@.take(i as int), version),
            decreases i,
        {
            i = i - 1;
            assert(self@.take(i as int + 1).drop_last() =~= self@.take(i as int));
            if numbers[i] <= version {
                return self.values[i].as_ref();
            }
        }
        None
    }
}

} // verus!
