//! Barrier alignment: which input partitions have delivered the barrier of the
//! checkpoint that is being aligned.

use crate::message::CheckpointBarrier;
use crate::partition_set::PartitionSet;
use vstd::prelude::*;

verus! {

/// The alignment state of one task over its input partitions.
pub struct CheckpointCounter {
    aligned: PartitionSet,
    epoch: Option<u32>,
}

impl CheckpointCounter {
    /// The partitions that have delivered the barrier and are withheld until
    /// the others have.
    pub closed spec fn view(&self) -> Set<int> {
        self.aligned@
    }

    /// The number of input partitions.
    pub closed spec fn partitions(&self) -> nat {
        self.aligned.capacity()
    }

    /// The epoch of the first barrier of the alignment in progress.
    pub closed spec fn epoch(&self) -> Option<u32> {
        self.epoch
    }

    /// Fewer partitions are withheld than there are, all of them known, and
    /// an epoch is recorded exactly while some partition is withheld.
    pub closed spec fn wf(&self) -> bool {
        &&& self.aligned.wf()
        &&& self.aligned@.len() <= self.aligned.capacity()
        &&& self.aligned.capacity() > 0 ==> self.aligned@.len() < self.aligned.capacity()
        &&& self.epoch.is_none() <==> self.aligned@.len() == 0
    }

    /// What `wf` means for the withheld partitions.
    pub proof fn lemma_wf(&self)
        requires
            self.wf(),
        ensures
            self@.finite(),
            forall|i: int| self@.contains(i) ==> 0 <= i < self.partitions(),
            self.partitions() > 0 ==> self@.len() < self.partitions(),
            self.partitions() == 0 ==> self@ =~= Set::<int>::empty(),
            self.epoch().is_none() <==> self@ =~= Set::<int>::empty(),
    {
        self.aligned.lemma_bounded();
        if self@.len() == 0 {
            self@.lemma_len0_is_empty();
        }
    }

    /// Whether a barrier of `epoch` belongs to the alignment in progress: it
    /// does where none is in progress, and else where it carries the epoch
    /// of the barrier that began it.
    pub open spec fn admits(&self, epoch: u32) -> bool {
        self.epoch().is_none() || self.epoch() == Some(epoch)
    }

    /// Whether the barrier of `idx`, not yet withheld, is the last one missing.
    pub open spec fn completes(&self, idx: int) -> bool {
        !self@.contains(idx) && self@.len() + 1 == self.partitions()
    }

    /// A barrier completes the alignment exactly when its partition is the
    /// only one that has not delivered yet: the last of the distinct
    /// partitions to report.
    pub proof fn lemma_completes_with_last(&self, idx: int)
        requires
            self.wf(),
            0 <= idx < self.partitions(),
        ensures
            self.completes(idx) <==> (!self@.contains(idx) && forall|i: int|
                0 <= i < self.partitions() && i != idx ==> self@.contains(i)),
    {
        self.lemma_wf();
        let all = vstd::set_lib::set_int_range(0, self.partitions() as int);
        vstd::set_lib::lemma_int_range(0, self.partitions() as int);
        if !self@.contains(idx) {
            let with = self@.insert(idx);
            assert(with.subset_of(all));
            if self.completes(idx) {
                vstd::set_lib::lemma_subset_equality(with, all);
                assert forall|i: int| 0 <= i < self.partitions() && i != idx implies self@.contains(
                    i,
                ) by {
                    assert(all.contains(i));
                    assert(with.contains(i));
                }
            }
            if forall|i: int| 0 <= i < self.partitions() && i != idx ==> self@.contains(i) {
                assert(with =~= all);
            }
        }
    }

    /// A counter over `size` partitions, none of them withheld.
    pub fn new(size: usize) -> (c: Self)
        ensures
            c.wf(),
            c.partitions() == size,
            c@ =~= Set::<int>::empty(),
            c.epoch().is_none(),
    {
        CheckpointCounter { aligned: PartitionSet::new(size), epoch: None }
    }

    /// The number of input partitions.
    pub fn size(&self) -> (n: usize)
        ensures
            n == self.partitions(),
    {
        self.aligned.partitions()
    }

    /// Whether `idx` has delivered the barrier and is withheld.
    pub fn is_blocked(&self, idx: usize) -> (b: bool)
        ensures
            b == self@.contains(idx as int),
    {
        self.aligned.contains(idx)
    }

    /// The epoch of the alignment in progress, if one is.
    pub fn current_epoch(&self) -> (e: Option<u32>)
        ensures
            e == self.epoch(),
    {
        self.epoch
    }

    /// Whether no partition is withheld.
    pub fn all_clear(&self) -> (b: bool)
        requires
            self.wf(),
        ensures
            b == (self@ =~= Set::<int>::empty()),
            b == (self@.len() == 0),
    {
        self.aligned.is_empty()
    }

    /// Records that `idx` delivered `checkpoint`. Answers `true` exactly when
    /// `idx` was not withheld and every other partition was: then nobody is
    /// withheld any more. A partition that is withheld already changes nothing.
    /// Otherwise `idx` joins the withheld, and the first to join sets the epoch.
    /// Every barrier of one alignment carries that epoch: a barrier of another
    /// epoch is not to be marked, and `admits` tells them apart.
    pub fn mark(&mut self, idx: usize, checkpoint: &CheckpointBarrier) -> (done: bool)
        requires
            old(self).wf(),
            idx < old(self).partitions(),
            old(self).admits(checkpoint.epoch),
        ensures
            final(self).wf(),
            final(self).partitions() == old(self).partitions(),
            done == old(self).completes(idx as int),
            !done ==> final(self).epoch() == Some(checkpoint.epoch),
            done ==> final(self)@ =~= Set::<int>::empty() && final(self).epoch().is_none(),
            !done ==> final(self)@ =~= old(self)@.insert(idx as int),
            !done ==> final(self).epoch() == (if old(self)@.len() == 0 {
                Some(checkpoint.epoch)
            } else {
                old(self).epoch()
            }),
    {
        if self.aligned.contains(idx) {
            assert(self@.insert(idx as int) =~= self@);
            proof {
                self.aligned.lemma_bounded();
                if self@.len() == 0 {
                    self@.lemma_len0_is_empty();
                }
            }
            return false;
        }
        let first: bool = self.aligned.is_empty();
        if self.aligned.len() == self.aligned.partitions() - 1 {
            self.aligned.clear();
            self.epoch = None;
            return true;
        }
        self.aligned.insert(idx);
        if first {
            self.epoch = Some(checkpoint.epoch);
        }
        false
    }
}

} // verus!
