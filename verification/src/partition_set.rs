//! A set of partition indices with constant-time membership, insertion and
//! size. The partition index is the stable key of every per-partition table
//! kept by a task.

use vstd::prelude::*;

verus! {

/// A subset of the partitions `0 .. capacity`.
pub struct PartitionSet {
    member: Vec<bool>,
    count: usize,
}

impl PartitionSet {
    /// The indices that belong to the set.
    pub closed spec fn view(&self) -> Set<int> {
        Set::new(|i: int| 0 <= i < self.member@.len() && self.member@[i])
    }

    /// The number of partitions that the set ranges over.
    pub closed spec fn capacity(&self) -> nat {
        self.member@.len()
    }

    /// The stored size agrees with the members.
    pub closed spec fn wf(&self) -> bool {
        &&& self@.finite()
        &&& self.count == self@.len()
    }

    /// Every member is a partition index below the capacity, so the set never
    /// has more members than partitions.
    pub proof fn lemma_bounded(&self)
        requires
            self.wf(),
        ensures
            self@.finite(),
            self@.subset_of(vstd::set_lib::set_int_range(0, self.capacity() as int)),
            self@.len() <= self.capacity(),
            forall|i: int| self@.contains(i) ==> 0 <= i < self.capacity(),
    {
        let range = vstd::set_lib::set_int_range(0, self.capacity() as int);
        vstd::set_lib::lemma_int_range(0, self.capacity() as int);
        vstd::set_lib::lemma_len_subset(self@, range);
    }

    /// The empty set over `capacity` partitions.
    pub fn new(capacity: usize) -> (s: Self)
        ensures
            s.wf(),
            s.capacity() == capacity,
            s@ =~= Set::<int>::empty(),
    {
        let mut member: Vec<bool> = Vec::new();
        let mut i: usize = 0;
        while i < capacity
            invariant
                i <= capacity,
                member@.len() == i,
                forall|j: int| 0 <= j < i ==> !member@[j],
            decreases capacity - i,
        {
            member.push(false);
            i += 1;
        }
        let s = PartitionSet { member, count: 0 };
        assert(s@ =~= Set::<int>::empty());
        s
    }

    /// Whether `idx` belongs to the set. An index past the capacity never does.
    pub fn contains(&self, idx: usize) -> (b: bool)
        ensures
            b == self@.contains(idx as int),
    {
        idx < self.member.len() && self.member[idx]
    }

    /// The number of members.
    pub fn len(&self) -> (n: usize)
        requires
            self.wf(),
        ensures
            n == self@.len(),
    {
        self.count
    }

    /// Whether the set has no member.
    pub fn is_empty(&self) -> (b: bool)
        requires
            self.wf(),
        ensures
            b == (self@ =~= Set::<int>::empty()),
            b == (self@.len() == 0),
    {
        proof {
            if self@.len() == 0 {
                self@.lemma_len0_is_empty();
            }
        }
        self.count == 0
    }

    /// The number of partitions that the set ranges over.
    pub fn partitions(&self) -> (n: usize)
        ensures
            n == self.capacity(),
    {
        self.member.len()
    }

    /// Adds `idx`; answers whether it was new. The size grows by one exactly
    /// then.
    pub fn insert(&mut self, idx: usize) -> (added: bool)
        requires
            old(self).wf(),
            idx < old(self).capacity(),
        ensures
            final(self).wf(),
            final(self).capacity() == old(self).capacity(),
            final(self)@ =~= old(self)@.insert(idx as int),
            added == !old(self)@.contains(idx as int),
            final(self)@.len() == old(self)@.len() + (if added { 1int } else { 0int }),
    {
        if self.member[idx] {
            assert(self@.insert(idx as int) =~= self@);
            return false;
        }
        proof {
            self.lemma_bounded();
            let range = vstd::set_lib::set_int_range(0, self.capacity() as int);
            vstd::set_lib::lemma_int_range(0, self.capacity() as int);
            assert(range.contains(idx as int));
            assert(self@.subset_of(range.remove(idx as int)));
            assert(range.remove(idx as int).len() == range.len() - 1);
            vstd::set_lib::lemma_len_subset(self@, range.remove(idx as int));
        }
        let ghost before = self@;
        let capacity: usize = self.member.len();
        assert(self.count < capacity);
        self.member.set(idx, true);
        self.count = self.count + 1;
        assert(self@ =~= before.insert(idx as int));
        true
    }

    /// Removes every member.
    pub fn clear(&mut self)
        requires
            old(self).wf(),
        ensures
            final(self).wf(),
            final(self).capacity() == old(self).capacity(),
            final(self)@ =~= Set::<int>::empty(),
    {
        let n: usize = self.member.len();
        let mut i: usize = 0;
        while i < n
            invariant
                i <= n,
                self.member@.len() == n,
                forall|j: int| 0 <= j < i ==> !self.member@[j],
            decreases n - i,
        {
            self.member.set(i, false);
            i += 1;
        }
        self.count = 0;
        assert(self@ =~= Set::<int>::empty());
    }
}

} // verus!
