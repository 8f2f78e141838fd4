//! The last watermark of each input partition and their merge.

use crate::message::{advances, progress, Watermark};
use vstd::prelude::*;

verus! {

/// Whether `m` is the merge of the slots `s`: unknown while no partition has
/// reported, else the least of the reported watermarks in the order of
/// progress.
pub open spec fn is_merged(s: Seq<Option<Watermark>>, m: Option<Watermark>) -> bool {
    match m {
        None => forall|i: int| 0 <= i < s.len() ==> (#[trigger] s[i]).is_none(),
        Some(w) => {
            &&& exists|i: int| 0 <= i < s.len() && #[trigger] s[i] == Some(w)
            &&& forall|j: int|
                0 <= j < s.len() && (#[trigger] s[j]).is_some() ==> w.rank() <= s[j].unwrap().rank()
        },
    }
}

/// The slots have one merge only.
pub proof fn lemma_merge_unique(s: Seq<Option<Watermark>>, a: Option<Watermark>, b: Option<Watermark>)
    requires
        is_merged(s, a),
        is_merged(s, b),
    ensures
        a == b,
{
    if a.is_some() && b.is_some() {
        let i = choose|i: int| 0 <= i < s.len() && #[trigger] s[i] == a;
        let j = choose|j: int| 0 <= j < s.len() && #[trigger] s[j] == b;
        assert(s[i].is_some() && s[j].is_some());
        assert(a.unwrap().rank() == b.unwrap().rank());
    } else if a.is_some() {
        let i = choose|i: int| 0 <= i < s.len() && #[trigger] s[i] == a;
        assert(s[i].is_some());
    } else if b.is_some() {
        let j = choose|j: int| 0 <= j < s.len() && #[trigger] s[j] == b;
        assert(s[j].is_some());
    }
}

/// The merge of the slots, as a value.
pub open spec fn merge(s: Seq<Option<Watermark>>) -> Option<Watermark> {
    choose|m: Option<Watermark>| is_merged(s, m)
}

/// Every sequence of slots has a merge.
pub proof fn lemma_merge_exists(s: Seq<Option<Watermark>>)
    ensures
        is_merged(s, merge(s)),
    decreases s.len(),
{
    if s.len() == 0 {
        assert(is_merged(s, None));
    } else {
        let t = s.drop_last();
        lemma_merge_exists(t);
        let m = merge(t);
        let last = s.last();
        assert(forall|j: int| 0 <= j < t.len() ==> t[j] == s[j]);
        let lower = last.is_some() && (m.is_none() || last.unwrap().rank() < m.unwrap().rank());
        if lower {
            assert(s[s.len() - 1] == last);
            assert(is_merged(s, last));
        } else {
            if m.is_some() {
                let i = choose|i: int| 0 <= i < t.len() && #[trigger] t[i] == m;
                assert(s[i] == m);
            }
            assert(is_merged(s, m));
        }
    }
}

/// Whatever merges the slots is their merge.
pub proof fn lemma_merge_is(s: Seq<Option<Watermark>>, m: Option<Watermark>)
    requires
        is_merged(s, m),
    ensures
        merge(s) == m,
{
    lemma_merge_unique(s, m, merge(s));
}

/// Merges the slots by one pass over them.
fn merge_slots(slots: &Vec<Option<Watermark>>) -> (m: Option<Watermark>)
    ensures
        is_merged(slots@, m),
{
    let mut cur: Option<Watermark> = None;
    let mut i: usize = 0;
    while i < slots.len()
        invariant
            i <= slots.len(),
            is_merged(slots@.take(i as int), cur),
        decreases slots.len() - i,
    {
        let ghost before = slots@.take(i as int);
        let ghost after = slots@.take(i as int + 1);
        let ghost prev = cur;
        assert(forall|j: int| 0 <= j < i ==> after[j] == before[j]);
        assert(after[i as int] == slots@[i as int]);
        match slots[i] {
            None => {
                proof {
                    if prev.is_some() {
                        let k = choose|k: int| 0 <= k < before.len() && #[trigger] before[k] == prev;
                        assert(after[k] == prev);
                    }
                }
            },
            Some(w) => {
                let lower: bool = match cur {
                    None => true,
                    Some(c) => !c.at_most(w),
                };
                if lower {
                    cur = Some(w);
                    assert(after[i as int] == Some(w));
                } else {
                    proof {
                        let k = choose|k: int| 0 <= k < before.len() && #[trigger] before[k] == prev;
                        assert(after[k] == prev);
                    }
                }
            },
        }
        assert(is_merged(after, cur));
        i += 1;
    }
    assert(slots@.take(slots@.len() as int) =~= slots@);
    cur
}

/// The watermark state of one task.
pub struct WatermarkHolder {
    watermarks: Vec<Option<Watermark>>,
    cur_watermark: Option<Watermark>,
}

impl WatermarkHolder {
    /// The last watermark of each partition; `None` where none has arrived.
    pub closed spec fn view(&self) -> Seq<Option<Watermark>> {
        self.watermarks@
    }

    /// The merged watermark.
    pub closed spec fn merged(&self) -> Option<Watermark> {
        self.cur_watermark
    }

    /// The merged watermark is the merge of the slots.
    pub closed spec fn wf(&self) -> bool {
        is_merged(self.watermarks@, self.cur_watermark)
    }

    /// What `wf` says, for callers.
    pub proof fn lemma_wf(&self)
        requires
            self.wf(),
        ensures
            is_merged(self@, self.merged()),
            self.merged() == merge(self@),
            self@.len() <= usize::MAX,
    {
        lemma_merge_is(self@, self.merged());
        assert(self.watermarks.len() == self.watermarks@.len());
    }

    /// A holder over the given slots, merged.
    pub fn new(watermarks: Vec<Option<Watermark>>) -> (h: Self)
        ensures
            h.wf(),
            h@ == watermarks@,
            is_merged(watermarks@, h.merged()),
    {
        let cur_watermark = merge_slots(&watermarks);
        WatermarkHolder { watermarks, cur_watermark }
    }

    /// A holder over `partitions` partitions, none of which has reported.
    pub fn with_partitions(partitions: usize) -> (h: Self)
        ensures
            h.wf(),
            h@.len() == partitions,
            forall|i: int| 0 <= i < partitions ==> (#[trigger] h@[i]).is_none(),
            h.merged().is_none(),
    {
        let mut watermarks: Vec<Option<Watermark>> = Vec::new();
        let mut i: usize = 0;
        while i < partitions
            invariant
                i <= partitions,
                watermarks@.len() == i,
                forall|j: int| 0 <= j < i ==> (#[trigger] watermarks@[j]).is_none(),
            decreases partitions - i,
        {
            watermarks.push(None);
            i += 1;
        }
        WatermarkHolder { watermarks, cur_watermark: None }
    }

    /// The number of partitions.
    pub fn partitions(&self) -> (n: usize)
        ensures
            n == self@.len(),
    {
        self.watermarks.len()
    }

    /// The merged watermark.
    pub fn watermark(&self) -> (w: Option<Watermark>)
        ensures
            w == self.merged(),
    {
        self.cur_watermark
    }

    /// Stores `watermark` as the last one of `idx` and merges anew. Answers
    /// the new merged watermark where it lies strictly past the one before,
    /// and nothing where it does not. A watermark below the partition's last
    /// one is stored like any other.
    pub fn set(&mut self, idx: usize, watermark: Watermark) -> (r: Option<Watermark>)
        requires
            old(self).wf(),
            idx < old(self)@.len(),
        ensures
            final(self).wf(),
            final(self)@ == old(self)@.update(idx as int, Some(watermark)),
            is_merged(final(self)@, final(self).merged()),
            final(self).merged().is_some(),
            r == (if progress(final(self).merged()) > progress(old(self).merged()) {
                final(self).merged()
            } else {
                None
            }),
    {
        let prev = self.cur_watermark;
        self.watermarks.set(idx, Some(watermark));
        let next = merge_slots(&self.watermarks);
        self.cur_watermark = next;
        assert(self.watermarks@[idx as int].is_some());
        if advances(prev, next) {
            next
        } else {
            None
        }
    }
}

/// Whether the report `w` of partition `idx` keeps to the order of progress:
/// it is not below the partition's last report, or, from a partition that
/// reports for the first time, not below the merged watermark.
pub open spec fn keeps_order(s: Seq<Option<Watermark>>, idx: int, w: Watermark) -> bool {
    &&& 0 <= idx < s.len()
    &&& match s[idx] {
        Some(last) => last.rank() <= w.rank(),
        None => progress(merge(s)) <= w.rank(),
    }
}

/// A report that keeps to the order of progress never lowers the merged
/// watermark, so what is handed downstream from then on is at least what was
/// merged before.
pub proof fn lemma_merge_monotone(
    s: Seq<Option<Watermark>>,
    m: Option<Watermark>,
    idx: int,
    w: Watermark,
    m2: Option<Watermark>,
)
    requires
        0 <= idx < s.len(),
        is_merged(s, m),
        is_merged(s.update(idx, Some(w)), m2),
        keeps_order(s, idx, w),
    ensures
        progress(m) <= progress(m2),
{
    let t = s.update(idx, Some(w));
    assert(t[idx].is_some());
    lemma_merge_is(s, m);
    let k = choose|k: int| 0 <= k < t.len() && #[trigger] t[k] == m2;
    if k == idx {
        if s[idx].is_some() {
            assert(m.is_some() ==> m.unwrap().rank() <= s[idx].unwrap().rank());
        }
    } else {
        assert(s[k] == t[k]);
        assert(s[k].is_some());
    }
}

} // verus!
