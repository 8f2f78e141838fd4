//! What holds of the loop's decisions over whole runs of signals: alignment,
//! termination and the merged watermark.

use crate::inq_reader::{first_ready, lemma_first_ready, lemma_first_ready_exists};
use crate::message::{
    progress, Action, ArrowMessage, CheckpointBarrier, ControlOutcome, SignalMessage, Watermark,
};
use crate::operator::{
    barrier_actions, close_actions, requeue_actions, terminal_signal, Event, LoopView, Phase,
    StepError,
};
use crate::task_run::{moves, next_event, TaskView};
use crate::watermark_holder::{keeps_order, lemma_merge_exists, lemma_merge_monotone, merge};
use vstd::prelude::*;

verus! {

/// The state after `signal` has arrived from each partition of `order`, one
/// after another.
pub open spec fn after_signals(v: LoopView, order: Seq<int>, signal: SignalMessage) -> LoopView
    decreases order.len(),
{
    if order.len() == 0 {
        v
    } else {
        after_signals(v, order.drop_last(), signal).after_signal(order.last(), signal)
    }
}

/// Whether `order` names every one of `n` partitions once.
pub open spec fn each_once(order: Seq<int>, n: nat) -> bool {
    &&& order.len() == n
    &&& order.no_duplicates()
    &&& forall|i: int| 0 <= i < order.len() ==> 0 <= #[trigger] order[i] < n
}

/// The first `k` entries of a sequence without repetition are `k` distinct
/// values, and the next entry is not among them.
pub proof fn lemma_prefix_set(order: Seq<int>, k: int)
    requires
        order.no_duplicates(),
        0 <= k <= order.len(),
    ensures
        order.take(k).to_set().finite(),
        order.take(k).to_set().len() == k,
        k < order.len() ==> !order.take(k).to_set().contains(order[k]),
        k < order.len() ==> order.take(k + 1).to_set() =~= order.take(k).to_set().insert(order[k]),
        k < order.len() ==> order.take(k + 1).drop_last() =~= order.take(k),
        k < order.len() ==> order.take(k + 1).last() == order[k],
{
    let prefix = order.take(k);
    assert(prefix.no_duplicates());
    prefix.unique_seq_to_set();
    if k < order.len() {
        let longer = order.take(k + 1);
        assert(forall|i: int| 0 <= i < k ==> prefix[i] == order[i]);
        assert(longer[k] == order[k]);
        assert forall|x: int| longer.to_set().contains(x) <==> prefix.to_set().insert(
            order[k],
        ).contains(x) by {
            if longer.to_set().contains(x) {
                let i = choose|i: int| 0 <= i < longer.len() && longer[i] == x;
                if i < k {
                    assert(prefix[i] == x);
                }
            }
            if prefix.to_set().contains(x) {
                let i = choose|i: int| 0 <= i < prefix.len() && prefix[i] == x;
                assert(longer[i] == x);
            }
        }
    }
}

/// Barriers of one checkpoint arrive from every partition, each once, in any
/// order. Before the barrier at place `k` the partitions withheld are those of
/// the `k` places before it; that barrier completes the alignment exactly when
/// it is the last; and when the last has been handled nobody is withheld.
pub proof fn lemma_alignment_completes_once(
    v: LoopView,
    order: Seq<int>,
    barrier: CheckpointBarrier,
    k: int,
)
    requires
        v.aligned =~= Set::<int>::empty(),
        each_once(order, v.partitions()),
        0 <= k < order.len(),
    ensures
        after_signals(v, order.take(k), SignalMessage::Barrier(barrier)).aligned
            =~= order.take(k).to_set(),
        after_signals(v, order.take(k), SignalMessage::Barrier(barrier)).slots == v.slots,
        after_signals(v, order.take(k), SignalMessage::Barrier(barrier)).completes(order[k]) <==> k
            == order.len() - 1,
        k == order.len() - 1 ==> after_signals(
            v,
            order,
            SignalMessage::Barrier(barrier),
        ).aligned =~= Set::<int>::empty(),
    decreases k,
{
    let signal = SignalMessage::Barrier(barrier);
    lemma_prefix_set(order, k);
    if k == 0 {
        assert(order.take(0).len() == 0);
        assert(after_signals(v, order.take(0), signal) == v);
        assert(order.take(0).to_set() =~= Set::<int>::empty());
    } else {
        lemma_alignment_completes_once(v, order, barrier, k - 1);
        lemma_prefix_set(order, k - 1);
        let before = after_signals(v, order.take(k - 1), signal);
        assert(order.take(k).drop_last() =~= order.take(k - 1));
        assert(after_signals(v, order.take(k), signal) == before.after_signal(order[k - 1], signal));
    }
    if k == order.len() - 1 {
        let before = after_signals(v, order.take(k), signal);
        assert(order.take(k + 1) =~= order);
        assert(order.drop_last() =~= order.take(k));
        assert(after_signals(v, order, signal) == before.after_signal(order[k], signal));
    }
}

/// A barrier that does not complete the alignment leaves its partition
/// withheld: its source is kept aside, and the loop refuses whatever that
/// partition sends next, so nothing behind the barrier is handled before the
/// alignment completes.
pub proof fn lemma_withheld_after_barrier(
    v: LoopView,
    partition: usize,
    barrier: CheckpointBarrier,
    later: ArrowMessage,
)
    requires
        v.aligned.finite(),
        v.refusal(
            Event::Message {
                partition,
                message: ArrowMessage::Signal(SignalMessage::Barrier(barrier)),
            },
        ).is_none(),
        !v.completes(partition as int),
    ensures
        ({
            let event = Event::Message {
                partition,
                message: ArrowMessage::Signal(SignalMessage::Barrier(barrier)),
            };
            let next = v.after_step(event);
            &&& next.aligned.contains(partition as int)
            &&& next.phase == v.phase
            &&& v.step_actions(event).last() == Action::Hold { partition }
            &&& next.refusal(Event::Message { partition, message: later }) == Some(
                StepError::PartitionWithheld,
            )
        }),
{
    let event = Event::Message {
        partition,
        message: ArrowMessage::Signal(SignalMessage::Barrier(barrier)),
    };
    let next = v.after_step(event);
    assert(next.aligned =~= v.aligned.insert(partition as int));
    assert(requeue_actions(true, false, partition).last() == Action::Hold { partition });
}

/// A second barrier from a partition that is withheld already changes
/// nothing, asks for nothing and cannot complete the alignment: no partition
/// counts twice.
pub proof fn lemma_barrier_counts_once(v: LoopView, idx: int, barrier: CheckpointBarrier)
    requires
        v.aligned.finite(),
        v.aligned.contains(idx),
    ensures
        v.after_signal(idx, SignalMessage::Barrier(barrier)) == v,
        !v.completes(idx),
        v.signal_outcome(idx, SignalMessage::Barrier(barrier)) == ControlOutcome::Continue,
        v.signal_actions(idx, SignalMessage::Barrier(barrier)) =~= Seq::<Action>::empty(),
        v.aligned.insert(idx) =~= v.aligned,
{
    if v.aligned.len() == 0 {
        v.aligned.lemma_len0_is_empty();
    }
}

/// Whether `signal` is one of the two that close a partition.
pub open spec fn is_terminal(signal: SignalMessage) -> bool {
    signal == SignalMessage::Stop || signal == SignalMessage::EndOfData
}

/// The partitions that have sent the terminal signal `signal`.
pub open spec fn sent(v: LoopView, signal: SignalMessage) -> Set<int> {
    if signal == SignalMessage::Stop {
        v.stopped
    } else {
        v.finished
    }
}

/// A terminal signal ends the loop exactly when every other partition has
/// sent the same signal before. A partition that has sent the other one, or
/// none, keeps the loop going: partitions that end on different signals never
/// end it by a signal.
pub proof fn lemma_ends_when_all_sent(v: LoopView, idx: int, signal: SignalMessage)
    requires
        is_terminal(signal),
        sent(v, signal).finite(),
        forall|i: int| sent(v, signal).contains(i) ==> 0 <= i < v.partitions(),
        0 <= idx < v.partitions(),
    ensures
        v.signal_outcome(idx, signal) != ControlOutcome::Continue <==> (forall|i: int|
            0 <= i < v.partitions() && i != idx ==> sent(v, signal).contains(i)),
        v.signal_outcome(idx, signal) == ControlOutcome::Continue || v.signal_outcome(idx, signal)
            == (if signal == SignalMessage::Stop {
            ControlOutcome::StopAndSendStop
        } else {
            ControlOutcome::Finish
        }),
{
    let all = vstd::set_lib::set_int_range(0, v.partitions() as int);
    vstd::set_lib::lemma_int_range(0, v.partitions() as int);
    let with = sent(v, signal).insert(idx);
    assert(with.subset_of(all));
    vstd::set_lib::lemma_len_subset(with, all);
    if with.len() == v.partitions() {
        vstd::set_lib::lemma_subset_equality(with, all);
        assert forall|i: int| 0 <= i < v.partitions() && i != idx implies sent(
            v,
            signal,
        ).contains(i) by {
            assert(all.contains(i));
            assert(with.contains(i));
        }
    }
    if forall|i: int| 0 <= i < v.partitions() && i != idx ==> sent(v, signal).contains(i) {
        assert(with =~= all);
    }
}

/// The same terminal signal arrives from every partition, each once, in any
/// order.
/// The loop goes on until the last, and with the last it ends: on `Stop` it
/// stops and sends `Stop`, on `EndOfData` it finishes. No signal of the run
/// asks for anything by itself, so no checkpoint is taken.
pub proof fn lemma_all_partitions_close(
    v: LoopView,
    order: Seq<int>,
    signal: SignalMessage,
    k: int,
)
    requires
        sent(v, signal) =~= Set::<int>::empty(),
        each_once(order, v.partitions()),
        is_terminal(signal),
        0 <= k < order.len(),
    ensures
        sent(after_signals(v, order.take(k), signal), signal) =~= order.take(k).to_set(),
        after_signals(v, order.take(k), signal).slots == v.slots,
        after_signals(v, order.take(k), signal).signal_actions(order[k], signal)
            =~= Seq::<Action>::empty(),
        after_signals(v, order.take(k), signal).signal_outcome(order[k], signal) == (if k
            < order.len() - 1 {
            ControlOutcome::Continue
        } else if signal == SignalMessage::Stop {
            ControlOutcome::StopAndSendStop
        } else {
            ControlOutcome::Finish
        }),
    decreases k,
{
    lemma_prefix_set(order, k);
    if k == 0 {
        assert(order.take(0).len() == 0);
        assert(after_signals(v, order.take(0), signal) == v);
        assert(order.take(0).to_set() =~= Set::<int>::empty());
    } else {
        lemma_all_partitions_close(v, order, signal, k - 1);
        lemma_prefix_set(order, k - 1);
        let before = after_signals(v, order.take(k - 1), signal);
        assert(order.take(k).drop_last() =~= order.take(k - 1));
        assert(after_signals(v, order.take(k), signal) == before.after_signal(order[k - 1], signal));
    }
    lemma_prefix_set(order, k + 1);
}

/// The terminal signal that ends the loop is what the close hook sees and what
/// goes downstream, before the control plane is told; nothing among these
/// actions takes a checkpoint.
pub proof fn lemma_close_takes_no_checkpoint(terminal: SignalMessage)
    ensures
        close_actions(Some(terminal)) =~= seq![
            Action::OnClose(Some(terminal)),
            Action::Broadcast(terminal),
            Action::TaskFinished,
        ],
        forall|i: int|
            0 <= i < close_actions(Some(terminal)).len() ==> !(#[trigger] close_actions(
                Some(terminal),
            )[i] is Checkpoint),
{
}

/// The step that handles the last terminal signal closes the loop with
/// exactly the closing actions.
pub proof fn lemma_last_terminal_step(v: LoopView, partition: usize, signal: SignalMessage)
    requires
        is_terminal(signal),
        v.refusal(Event::Message { partition, message: ArrowMessage::Signal(signal) }).is_none(),
        sent(v, signal).insert(partition as int).len() == v.partitions(),
    ensures
        ({
            let event = Event::Message { partition, message: ArrowMessage::Signal(signal) };
            &&& v.after_step(event).phase == Phase::Closed
            &&& v.step_actions(event) =~= close_actions(Some(signal))
        }),
{
}

/// The slots after the reports of a run, each a partition and its watermark,
/// one after another.
pub open spec fn after_reports(
    s: Seq<Option<Watermark>>,
    reports: Seq<(int, Watermark)>,
) -> Seq<Option<Watermark>>
    decreases reports.len(),
{
    if reports.len() == 0 {
        s
    } else {
        after_reports(s, reports.drop_last()).update(reports.last().0, Some(reports.last().1))
    }
}

/// Whether every report of the run keeps to the order of progress: none is
/// below its partition's last one, and none that is a partition's first is
/// below the merged watermark of its moment.
pub open spec fn in_order(s: Seq<Option<Watermark>>, reports: Seq<(int, Watermark)>) -> bool
    decreases reports.len(),
{
    if reports.len() == 0 {
        true
    } else {
        let before = after_reports(s, reports.drop_last());
        let idx = reports.last().0;
        &&& in_order(s, reports.drop_last())
        &&& keeps_order(before, idx, reports.last().1)
    }
}

/// The watermarks handed downstream through the reports of a run, in their
/// order: after each report the merged watermark, where it lies strictly past
/// the one before.
pub open spec fn handed_on(s: Seq<Option<Watermark>>, reports: Seq<(int, Watermark)>) -> Seq<
    Watermark,
>
    decreases reports.len(),
{
    if reports.len() == 0 {
        Seq::<Watermark>::empty()
    } else {
        let before = merge(after_reports(s, reports.drop_last()));
        let after = merge(after_reports(s, reports));
        let earlier = handed_on(s, reports.drop_last());
        if progress(after) > progress(before) && after.is_some() {
            earlier.push(after.unwrap())
        } else {
            earlier
        }
    }
}

/// Through a run of reports that keep to the order of progress, what is
/// handed downstream rises strictly: each watermark lies past the one handed
/// on before it and past the merged watermark at the start, and none lies
/// past the merged watermark at the end.
pub proof fn lemma_handed_on_rises(s: Seq<Option<Watermark>>, reports: Seq<(int, Watermark)>)
    requires
        in_order(s, reports),
    ensures
        forall|i: int, j: int|
            0 <= i < j < handed_on(s, reports).len() ==> (#[trigger] handed_on(s, reports)[i]).rank()
                < (#[trigger] handed_on(s, reports)[j]).rank(),
        forall|i: int|
            0 <= i < handed_on(s, reports).len() ==> progress(merge(s)) < (#[trigger] handed_on(
                s,
                reports,
            )[i]).rank() <= progress(merge(after_reports(s, reports))),
    decreases reports.len(),
{
    if reports.len() > 0 {
        let earlier = reports.drop_last();
        let e = handed_on(s, earlier);
        let before = after_reports(s, earlier);
        lemma_handed_on_rises(s, earlier);
        lemma_merged_never_falls(s, earlier);
        lemma_merged_never_falls(s, reports);
        lemma_merge_exists(before);
        lemma_merge_exists(after_reports(s, reports));
        lemma_merge_monotone(
            before,
            merge(before),
            reports.last().0,
            reports.last().1,
            merge(after_reports(s, reports)),
        );
        let h = handed_on(s, reports);
        let end = merge(after_reports(s, reports));
        assert(forall|i: int| 0 <= i < e.len() ==> h[i] == e[i]);
        assert(h.len() > e.len() ==> h.len() == e.len() + 1 && h[e.len() as int] == end.unwrap()
            && progress(end) > progress(merge(before)));
        assert forall|i: int| 0 <= i < h.len() implies progress(merge(s)) < (#[trigger] h[i]).rank()
            <= progress(end) by {
            if i < e.len() {
                assert(e[i].rank() <= progress(merge(before)));
            }
        }
        assert forall|i: int, j: int| 0 <= i < j < h.len() implies (#[trigger] h[i]).rank() < (
        #[trigger] h[j]).rank() by {
            assert(e[i].rank() <= progress(merge(before)));
            if j < e.len() {
                assert(e[i].rank() < e[j].rank());
            }
        }
    }
}

/// Through a run of reports that keep to the order of progress, the merged
/// watermark never goes back: at the end of the run it is at least what it was
/// at the start. Since what is handed downstream is the merged watermark of the
/// moment, what is handed downstream within such a run never decreases.
pub proof fn lemma_merged_never_falls(s: Seq<Option<Watermark>>, reports: Seq<(int, Watermark)>)
    requires
        in_order(s, reports),
    ensures
        after_reports(s, reports).len() == s.len(),
        progress(merge(s)) <= progress(merge(after_reports(s, reports))),
    decreases reports.len(),
{
    if reports.len() > 0 {
        let earlier = reports.drop_last();
        lemma_merged_never_falls(s, earlier);
        let before = after_reports(s, earlier);
        lemma_merge_exists(before);
        lemma_merge_exists(after_reports(s, reports));
        lemma_merge_monotone(
            before,
            merge(before),
            reports.last().0,
            reports.last().1,
            merge(after_reports(s, reports)),
        );
    }
}

/// What the loop hands to the operator on a watermark signal is what
/// `handed_on` lists for that one report: the run of reports above is the
/// history of the loop's own watermark signals.
pub proof fn lemma_loop_hands_on(v: LoopView, idx: int, w: Watermark)
    ensures
        ({
            let acts = v.signal_actions(idx, SignalMessage::Watermark(w));
            let h = handed_on(v.slots, seq![(idx, w)]);
            &&& v.after_signal(idx, SignalMessage::Watermark(w)).slots == after_reports(
                v.slots,
                seq![(idx, w)],
            )
            &&& acts.len() == h.len()
            &&& h.len() <= 1
            &&& h.len() == 1 ==> acts[0] == Action::HandleWatermark(h[0])
        }),
{
    let one = seq![(idx, w)];
    reveal_with_fuel(after_reports, 2);
    reveal_with_fuel(handed_on, 2);
    assert(one.drop_last() =~= Seq::<(int, Watermark)>::empty());
    assert(one.last() == (idx, w));
    assert(after_reports(v.slots, one.drop_last()) == v.slots);
    assert(after_reports(v.slots, one) == v.slots.update(idx, Some(w)));
}

/// The merged watermark is unknown exactly while no partition has reported;
/// else it is the watermark of a partition, and no partition that has reported
/// lies below it.
pub proof fn lemma_merged_is_least(s: Seq<Option<Watermark>>)
    ensures
        merge(s).is_none() <==> (forall|i: int| 0 <= i < s.len() ==> (#[trigger] s[i]).is_none()),
        merge(s).is_some() ==> exists|i: int| 0 <= i < s.len() && #[trigger] s[i] == merge(s),
        forall|j: int|
            0 <= j < s.len() && (#[trigger] s[j]).is_some() ==> progress(merge(s)) <= progress(s[j]),
{
    lemma_merge_exists(s);
    if merge(s).is_some() {
        let i = choose|i: int| 0 <= i < s.len() && #[trigger] s[i] == merge(s);
        assert(s[i].is_some());
    }
}

/// A watermark that the loop hands to the operator lies strictly past the
/// merged watermark before it, and is the merged watermark after it.
pub proof fn lemma_watermark_handed_on(v: LoopView, idx: int, w: Watermark)
    ensures
        ({
            let signal = SignalMessage::Watermark(w);
            let next = v.after_signal(idx, signal);
            let acts = v.signal_actions(idx, signal);
            &&& acts.len() <= 1
            &&& acts.len() == 1 <==> progress(next.merged()) > progress(v.merged())
            &&& acts.len() == 1 ==> acts[0] == Action::HandleWatermark(next.merged().unwrap())
        }),
{
}

/// Whether every source of the task is sound, no two of them belong to one
/// partition, and none that is registered belongs to a withheld partition.
pub open spec fn one_source_each(t: TaskView) -> bool {
    let all = t.registered + t.held;
    &&& t.state.aligned.finite()
    &&& forall|i: int| 0 <= i < all.len() ==> (#[trigger] all[i]).wf()
    &&& forall|i: int, j: int|
        0 <= i < j < all.len() ==> (#[trigger] all[i]).partition() != (#[trigger] all[j]).partition()
    &&& forall|i: int|
        0 <= i < t.registered.len() ==> !t.state.aligned.contains(
            (#[trigger] t.registered[i]).partition() as int,
        )
}

/// In a task with one source for each partition, the sources of the withheld
/// partitions are kept aside through every turn: the multiplexer never offers
/// a message of a withheld partition, so nothing behind a barrier is handled
/// before the alignment completes.
pub proof fn lemma_withheld_sources_stay_aside(t: TaskView)
    requires
        one_source_each(t),
    ensures
        t.state.refusal(next_event(t.registered)) != Some(StepError::PartitionWithheld),
        one_source_each(t.turn()),
{
    lemma_first_ready_exists(t.registered, 0);
    let i = first_ready(t.registered);
    let event = next_event(t.registered);
    let all = t.registered + t.held;
    let n = t.registered.len() as int;
    if i < n {
        assert(all[i] == t.registered[i]);
        assert(!t.state.aligned.contains(t.registered[i].partition() as int));
    }
    if t.state.refusal(event).is_none() && i < n {
        let u = t.turn();
        let next = t.state.after_step(event);
        let source = t.registered[i].advance();
        let p = t.registered[i].partition();
        t.registered[i].lemma_advance();
        let rest = t.registered.skip(i + 1);
        let after = u.registered + u.held;
        if t.state.aligned.len() == 0 {
            t.state.aligned.lemma_len0_is_empty();
        }
        assert(next.aligned =~= t.state.aligned || next.aligned =~= t.state.aligned.insert(p as int)
            || next.aligned =~= Set::<int>::empty());
        assert(next.aligned.finite());
        if next.aligned.len() == 0 {
            next.aligned.lemma_len0_is_empty();
        }
        // Where each source of the task after the turn stood before it; the
        // source that had the message stands for itself.
        let held_first = next.phase == Phase::Closed || next.aligned.contains(p as int) || (
        t.state.aligned.len() > 0 && next.aligned.len() == 0);
        let origin = |x: int| -> int {
            if x < rest.len() {
                x + i + 1
            } else if held_first {
                if x < rest.len() + t.held.len() {
                    n + (x - rest.len())
                } else {
                    i
                }
            } else {
                if x == rest.len() {
                    i
                } else {
                    n + (x - rest.len() - 1)
                }
            }
        };
        assert forall|x: int| 0 <= x < after.len() implies 0 <= origin(x) < all.len() && (
        #[trigger] after[x]).partition() == all[origin(x)].partition() && after[x].wf() by {
            let o = origin(x);
            if o < n {
                assert(all[o] == t.registered[o]);
            } else {
                assert(all[o] == t.held[o - n]);
            }
        }
        assert forall|x: int, y: int| 0 <= x < y < after.len() implies (#[trigger] after[x]).partition()
            != (#[trigger] after[y]).partition() by {
            let a = origin(x);
            let b = origin(y);
            assert(a != b);
            assert(after[x].partition() == all[a].partition());
            assert(after[y].partition() == all[b].partition());
            if a < b {
                assert(all[a].partition() != all[b].partition());
            } else {
                assert(all[b].partition() != all[a].partition());
            }
        }
        assert forall|x: int| 0 <= x < u.registered.len() implies !next.aligned.contains(
            (#[trigger] u.registered[x]).partition() as int,
        ) by {
            assert(after[x] == u.registered[x]);
            let o = origin(x);
            assert(after[x].partition() == all[o].partition());
            if o < n {
                assert(all[o] == t.registered[o]);
                if o != i {
                    if o < i {
                        assert(all[o].partition() != all[i].partition());
                    } else {
                        assert(all[i].partition() != all[o].partition());
                    }
                }
            }
        }
    } else if t.state.refusal(event).is_none() {
        let u = t.turn();
        assert(u.registered + u.held =~= t.held);
        assert forall|x: int| 0 <= x < t.held.len() implies (#[trigger] t.held[x]) == all[n + x] by {}
    }
}

/// The same through any number of turns.
pub proof fn lemma_withheld_sources_stay_aside_throughout(t: TaskView, n: nat)
    requires
        one_source_each(t),
    ensures
        one_source_each(t.turns(n)),
    decreases n,
{
    if n > 0 {
        lemma_withheld_sources_stay_aside(t);
        lemma_withheld_sources_stay_aside_throughout(t.turn(), (n - 1) as nat);
    }
}

/// Whether `action` is part of taking a checkpoint: a report of a checkpoint
/// stage, the operator's checkpoint hook, the snapshot itself, or the barrier
/// going downstream.
pub open spec fn takes_checkpoint(action: Action) -> bool {
    action is SendCheckpointEvent || action is HandleCheckpoint || action is Checkpoint || (
    action matches Action::Broadcast(s) && s is Barrier)
}

/// Within the actions of a step on a message, whatever takes the checkpoint
/// comes before whatever moves a source: the sources that an alignment kept
/// aside are handed back only after its snapshot was taken and its barrier
/// sent on.
pub proof fn lemma_checkpoint_before_sources_move(
    v: LoopView,
    partition: usize,
    message: ArrowMessage,
    a: int,
    b: int,
)
    requires
        v.refusal(Event::Message { partition, message }).is_none(),
        0 <= a < v.step_actions(Event::Message { partition, message }).len(),
        0 <= b < v.step_actions(Event::Message { partition, message }).len(),
        takes_checkpoint(v.step_actions(Event::Message { partition, message })[a]),
        moves(v.step_actions(Event::Message { partition, message })[b]),
    ensures
        a < b,
{
    let event = Event::Message { partition, message };
    let next = v.after_step(event);
    let requeue = requeue_actions(
        next.aligned.contains(partition as int),
        next.aligned.len() == 0 && v.aligned.len() > 0,
        partition,
    );
    let head: Seq<Action> = match message {
        ArrowMessage::Data => seq![
            Action::CountMessageReceived,
            Action::ProcessBatch { partition, partitions: v.partitions() as usize },
        ],
        ArrowMessage::Signal(signal) => v.signal_actions(partition as int, signal),
    };
    let tail: Seq<Action> = match message {
        ArrowMessage::Data => requeue,
        ArrowMessage::Signal(signal) => if v.signal_outcome(partition as int, signal)
            == ControlOutcome::Continue {
            requeue
        } else {
            close_actions(terminal_signal(v.signal_outcome(partition as int, signal)))
        },
    };
    assert(v.step_actions(event) =~= head + tail);
    assert forall|k: int| 0 <= k < head.len() implies !moves(#[trigger] head[k]) by {}
    assert forall|k: int| 0 <= k < tail.len() implies !takes_checkpoint(#[trigger] tail[k]) by {}
    if a >= head.len() {
        assert((head + tail)[a] == tail[a - head.len()]);
    }
    if b < head.len() {
        assert((head + tail)[b] == head[b]);
    }
}

/// Whether no source of the task has a barrier left, and nothing in the log
/// takes a checkpoint.
pub open spec fn calm(t: TaskView) -> bool {
    let all = t.registered + t.held;
    &&& forall|i: int| 0 <= i < all.len() ==> (#[trigger] all[i]).wf()
    &&& forall|i: int, k: int|
        0 <= i < all.len() && 0 <= k < all[i].remaining().len() ==> !(#[trigger] all[i].remaining()[k]
            matches ArrowMessage::Signal(SignalMessage::Barrier(_)))
    &&& forall|k: int| 0 <= k < t.log.len() ==> !takes_checkpoint(#[trigger] t.log[k])
}

/// A task whose inputs hold no barrier takes no checkpoint, however many
/// turns it runs and however it ends: nothing that it asks for reports a
/// checkpoint stage, calls the checkpoint hook, takes a snapshot or sends a
/// barrier downstream.
pub proof fn lemma_no_barrier_no_checkpoint(t: TaskView, n: nat)
    requires
        calm(t),
    ensures
        calm(t.turns(n)),
    decreases n,
{
    if n > 0 {
        lemma_first_ready_exists(t.registered, 0);
        let i = first_ready(t.registered);
        let event = next_event(t.registered);
        let u = t.turn();
        let all = t.registered + t.held;
        let len = t.registered.len() as int;
        let acts = t.state.step_actions(event);
        if t.state.refusal(event).is_none() {
            if i < len {
                assert(all[i] == t.registered[i]);
                t.registered[i].lemma_advance();
                let source = t.registered[i].advance();
                assert(!(all[i].remaining()[0] matches ArrowMessage::Signal(
                    SignalMessage::Barrier(_),
                )));
                assert forall|k: int| 0 <= k < source.remaining().len() implies !(
                #[trigger] source.remaining()[k] matches ArrowMessage::Signal(
                    SignalMessage::Barrier(_),
                )) by {
                    assert(source.remaining()[k] == all[i].remaining()[k + 1]);
                }
            }
            assert forall|k: int| 0 <= k < acts.len() implies !takes_checkpoint(
                #[trigger] acts[k],
            ) by {}
            assert forall|k: int| 0 <= k < u.log.len() implies !takes_checkpoint(
                #[trigger] u.log[k],
            ) by {
                if k >= t.log.len() {
                    assert(u.log[k] == acts[k - t.log.len()]);
                }
            }
            let after = u.registered + u.held;
            assert forall|x: int| 0 <= x < after.len() implies (#[trigger] after[x]).wf() && (
            forall|k: int|
                0 <= k < after[x].remaining().len() ==> !(#[trigger] after[x].remaining()[k]
                    matches ArrowMessage::Signal(SignalMessage::Barrier(_)))) by {
                if i < len {
                    let source = t.registered[i].advance();
                    let rest = t.registered.skip(i + 1);
                    let next = t.state.after_step(event);
                    let held_first = next.phase == Phase::Closed || next.aligned.contains(
                        t.registered[i].partition() as int,
                    ) || (t.state.aligned.len() > 0 && next.aligned.len() == 0);
                    // Where the source at place `x` stood before the turn.
                    let o = if x < rest.len() {
                        x + i + 1
                    } else if held_first {
                        if x < rest.len() + t.held.len() {
                            len + (x - rest.len())
                        } else {
                            i
                        }
                    } else {
                        if x == rest.len() {
                            i
                        } else {
                            len + (x - rest.len() - 1)
                        }
                    };
                    assert(0 <= o < all.len());
                    if o == i {
                        assert(after[x] == source);
                    } else {
                        if o < len {
                            assert(all[o] == t.registered[o]);
                        } else {
                            assert(all[o] == t.held[o - len]);
                        }
                        assert(after[x] == all[o]);
                        assert(all[o].wf());
                    }
                } else {
                    assert(after =~= t.held);
                    assert(all[len + x] == after[x]);
                }
            }
        }
        lemma_no_barrier_no_checkpoint(u, (n - 1) as nat);
    }
}

/// Whether the task stands `k` turns into a run in which every partition
/// sends nothing but the terminal signal `signal`, in the order `order`: the
/// sources of the first `k` partitions are exhausted and the others still
/// hold their one signal, the first `k` partitions are recorded as having
/// sent it, nothing is withheld or kept aside, and the log holds nothing but
/// sources going back to the multiplexer.
pub open spec fn closing(t: TaskView, order: Seq<int>, signal: SignalMessage, k: int) -> bool {
    let n = order.len() as int;
    &&& each_once(order, t.state.partitions())
    &&& is_terminal(signal)
    &&& 0 <= k <= n
    &&& t.registered.len() == n
    &&& t.held.len() == 0
    &&& forall|j: int| 0 <= j < n ==> (#[trigger] t.registered[j]).wf()
    &&& forall|j: int|
        0 <= j < n - k ==> (#[trigger] t.registered[j]).partition() == order[k + j]
            && t.registered[j].remaining() =~= seq![ArrowMessage::Signal(signal)]
    &&& forall|j: int| n - k <= j < n ==> (#[trigger] t.registered[j]).remaining().len() == 0
    &&& sent(t.state, signal) =~= order.take(k).to_set()
    &&& t.state.aligned =~= Set::<int>::empty()
    &&& t.state.phase != Phase::Closed
    &&& forall|j: int| 0 <= j < t.log.len() ==> (#[trigger] t.log[j]) is Register
}

/// Every partition sends one terminal signal, the same one, and nothing
/// else. Then the run over all of them ends the task with that signal: the
/// close hook sees it, it goes downstream, and the control plane is told.
/// Before that the log holds nothing but sources going back to the
/// multiplexer: no checkpoint is taken. The watermarks are as they were.
pub proof fn lemma_run_of_terminals(t: TaskView, order: Seq<int>, signal: SignalMessage, k: int)
    requires
        closing(t, order, signal, k),
        k < order.len(),
    ensures
        ({
            let end = t.turns((order.len() - k) as nat);
            let m = end.log.len() - 3;
            &&& end.state.phase == Phase::Closed
            &&& end.state.slots == t.state.slots
            &&& m >= 0
            &&& end.log.skip(m) =~= close_actions(Some(signal))
            &&& forall|j: int| 0 <= j < m ==> (#[trigger] end.log[j]) is Register
        }),
    decreases order.len() - k,
{
    let n = order.len() as int;
    let u = t.turn();
    assert(t.registered[0].remaining().len() > 0);
    lemma_first_ready(t.registered, 0);
    t.registered[0].lemma_advance();
    lemma_prefix_set(order, k);
    lemma_prefix_set(order, k + 1);
    let event = next_event(t.registered);
    let partition = t.registered[0].partition();
    assert(partition == order[k]);
    assert(event == Event::Message { partition, message: ArrowMessage::Signal(signal) });
    assert(t.state.refusal(event).is_none());
    let acts = t.state.step_actions(event);
    assert(sent(t.state, signal).insert(partition as int) =~= order.take(k + 1).to_set());
    assert(t.turns((n - k) as nat) == u.turns((n - k - 1) as nat));
    if k < n - 1 {
        assert(t.state.signal_outcome(partition as int, signal) == ControlOutcome::Continue);
        assert(acts =~= seq![Action::Register { partition }]);
        assert(u.registered =~= t.registered.skip(1).push(t.registered[0].advance()));
        assert forall|j: int| 0 <= j < u.log.len() implies (#[trigger] u.log[j]) is Register by {
            if j >= t.log.len() {
                assert(u.log[j] == acts[j - t.log.len()]);
            }
        }
        assert(closing(u, order, signal, k + 1));
        lemma_run_of_terminals(u, order, signal, k + 1);
    } else {
        assert(t.state.signal_outcome(partition as int, signal) != ControlOutcome::Continue);
        assert(acts =~= close_actions(Some(signal)));
        assert(u.log =~= t.log + close_actions(Some(signal)));
        assert(u.turns(0) == u);
        assert(u.log.skip(u.log.len() - 3) =~= close_actions(Some(signal)));
    }
}

/// In a run of a task with one source for each partition, no turn handles a
/// message of a partition that is withheld at that turn: the next event is
/// never a message of such a partition, so whatever stands behind a barrier
/// on its channel waits until the partition is withheld no more.
pub proof fn lemma_nothing_behind_a_barrier(t: TaskView, n: nat, p: int)
    requires
        one_source_each(t),
        t.turns(n).state.aligned.contains(p),
    ensures
        !(next_event(t.turns(n).registered) matches Event::Message { partition, .. } && partition
            == p),
{
    lemma_withheld_sources_stay_aside_throughout(t, n);
    let u = t.turns(n);
    lemma_first_ready_exists(u.registered, 0);
    let i = first_ready(u.registered);
    if i < u.registered.len() {
        assert(!u.state.aligned.contains(u.registered[i].partition() as int));
    }
}

/// A withheld partition is withheld no more only through the step that takes
/// the checkpoint: the step handles the barrier that completes the
/// alignment, and its actions take the snapshot for that barrier and send the
/// barrier downstream before any source moves.
pub proof fn lemma_released_only_by_checkpoint(v: LoopView, event: Event, p: int)
    requires
        v.aligned.finite(),
        v.refusal(event).is_none(),
        v.aligned.contains(p),
        !v.after_step(event).aligned.contains(p),
    ensures
        event matches Event::Message { partition, message: ArrowMessage::Signal(SignalMessage::Barrier(b)) }
            && v.completes(partition as int) && v.after_step(event).aligned =~= Set::<int>::empty()
            && v.step_actions(event).len() >= 6 && v.step_actions(event)[3] == (Action::Checkpoint {
            barrier: b,
            watermark: v.merged(),
        }) && v.step_actions(event)[5] == Action::Broadcast(SignalMessage::Barrier(b)) && (forall|
            k: int,
        |
            0 <= k < 6 ==> !moves(#[trigger] v.step_actions(event)[k])),
{
    if v.aligned.len() == 0 {
        v.aligned.lemma_len0_is_empty();
    }
    match event {
        Event::Message { partition, message: ArrowMessage::Signal(SignalMessage::Barrier(b)) } => {
            let taken = barrier_actions(false, true, b, v.merged());
            assert(v.completes(partition as int));
            assert(v.signal_actions(partition as int, SignalMessage::Barrier(b)) =~= taken);
            assert(taken.len() == 6);
            assert forall|k: int| 0 <= k < 6 implies v.step_actions(event)[k] == taken[k] by {}
        },
        _ => {},
    }
}

} // verus!
