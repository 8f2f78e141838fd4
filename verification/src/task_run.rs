//! The loop on in-memory inputs: the multiplexer hands out messages, the loop
//! decides, and the sources go where the loop says.

use crate::inq_reader::{first_ready, lemma_first_ready_exists, InQReader, PartitionStream};
use crate::message::{Action, ArrowMessage, ControlOutcome};
use crate::operator::{
    close_actions, requeue_actions, terminal_signal, Event, LoopView, OperatorLoop, Phase,
    StepError,
};
use vstd::prelude::*;

verus! {

/// The event that a multiplexer over `sources` brings next: the next message
/// of its first source that has one, or the news that it has none.
pub open spec fn next_event(sources: Seq<PartitionStream>) -> Event {
    let i = first_ready(sources);
    if i < sources.len() {
        Event::Message { partition: sources[i].partition(), message: sources[i].remaining()[0] }
    } else {
        Event::InputsExhausted
    }
}

/// A task on in-memory inputs as contracts see it: the loop, the sources
/// registered with the multiplexer, the sources kept aside, and the actions
/// asked for so far.
pub struct TaskView {
    pub state: LoopView,
    pub registered: Seq<PartitionStream>,
    pub held: Seq<PartitionStream>,
    pub log: Seq<Action>,
}

/// The task made of these four.
pub open spec fn task_view(
    state: LoopView,
    registered: Seq<PartitionStream>,
    held: Seq<PartitionStream>,
    log: Seq<Action>,
) -> TaskView {
    TaskView { state, registered, held, log }
}

impl TaskView {
    /// The task after one turn on its inputs. Where the loop refuses the next
    /// event, nothing changes. Otherwise the loop steps on it and its actions
    /// join the log; the sources in front of the one that had the message had
    /// nothing left and are gone; and that source, its message taken off, is
    /// dropped where the loop has closed, is kept aside where its partition is
    /// withheld now, and else goes back behind the other sources, after those
    /// that were kept aside where this turn completed the alignment.
    pub open spec fn turn(self) -> TaskView {
        let event = next_event(self.registered);
        let i = first_ready(self.registered);
        let next = self.state.after_step(event);
        let log = self.log + self.state.step_actions(event);
        if self.state.refusal(event).is_some() {
            self
        } else if i >= self.registered.len() {
            TaskView {
                state: next,
                registered: Seq::<PartitionStream>::empty(),
                held: self.held,
                log,
            }
        } else {
            let rest = self.registered.skip(i + 1);
            let source = self.registered[i].advance();
            if next.phase == Phase::Closed {
                TaskView { state: next, registered: rest, held: self.held, log }
            } else if next.aligned.contains(self.registered[i].partition() as int) {
                TaskView { state: next, registered: rest, held: self.held.push(source), log }
            } else if self.state.aligned.len() > 0 && next.aligned.len() == 0 {
                TaskView {
                    state: next,
                    registered: (rest + self.held).push(source),
                    held: Seq::<PartitionStream>::empty(),
                    log,
                }
            } else {
                TaskView { state: next, registered: rest.push(source), held: self.held, log }
            }
        }
    }

    /// The task after `n` turns.
    pub open spec fn turns(self, n: nat) -> TaskView
        decreases n,
    {
        if n == 0 {
            self
        } else {
            self.turn().turns((n - 1) as nat)
        }
    }

    /// Once the loop refuses the next event, further turns change nothing.
    pub proof fn lemma_refused_turns(self, n: nat)
        requires
            self.state.refusal(next_event(self.registered)).is_some(),
        ensures
            self.turns(n) == self,
        decreases n,
    {
        if n > 0 {
            self.lemma_refused_turns((n - 1) as nat);
        }
    }
}

/// Whether carrying out `action` moves a source.
pub open spec fn moves(action: Action) -> bool {
    action is Hold || action is ReleaseHeld || action is Register
}

/// The registered and the held sources after `action` has been carried out
/// on them, `source` being the one that had the message: `Hold` keeps it
/// aside, `ReleaseHeld` registers those that were kept aside, `Register`
/// registers it, and no other action moves a source.
pub open spec fn place(
    action: Action,
    registered: Seq<PartitionStream>,
    held: Seq<PartitionStream>,
    source: PartitionStream,
) -> (Seq<PartitionStream>, Seq<PartitionStream>) {
    match action {
        Action::Hold { .. } => (registered, held.push(source)),
        Action::ReleaseHeld => (registered + held, Seq::<PartitionStream>::empty()),
        Action::Register { .. } => (registered.push(source), held),
        _ => (registered, held),
    }
}

/// The same after a run of actions, carried out one after another.
pub open spec fn place_all(
    actions: Seq<Action>,
    registered: Seq<PartitionStream>,
    held: Seq<PartitionStream>,
    source: PartitionStream,
) -> (Seq<PartitionStream>, Seq<PartitionStream>)
    decreases actions.len(),
{
    if actions.len() == 0 {
        (registered, held)
    } else {
        let before = place_all(actions.drop_last(), registered, held, source);
        place(actions.last(), before.0, before.1, source)
    }
}

/// Actions that move no source leave the sources as they are.
pub proof fn lemma_place_none(
    actions: Seq<Action>,
    registered: Seq<PartitionStream>,
    held: Seq<PartitionStream>,
    source: PartitionStream,
)
    requires
        forall|i: int| 0 <= i < actions.len() ==> !moves(#[trigger] actions[i]),
    ensures
        place_all(actions, registered, held, source) == (registered, held),
    decreases actions.len(),
{
    if actions.len() > 0 {
        let earlier = actions.drop_last();
        assert(forall|i: int| 0 <= i < earlier.len() ==> earlier[i] == actions[i]);
        lemma_place_none(earlier, registered, held, source);
        assert(!moves(actions[actions.len() - 1]));
    }
}

/// Carrying out two runs of actions in a row is carrying out the first and
/// then the second.
pub proof fn lemma_place_append(
    first: Seq<Action>,
    second: Seq<Action>,
    registered: Seq<PartitionStream>,
    held: Seq<PartitionStream>,
    source: PartitionStream,
)
    ensures
        place_all(first + second, registered, held, source) == place_all(
            second,
            place_all(first, registered, held, source).0,
            place_all(first, registered, held, source).1,
            source,
        ),
    decreases second.len(),
{
    if second.len() == 0 {
        assert(first + second =~= first);
    } else {
        lemma_place_append(first, second.drop_last(), registered, held, source);
        assert((first + second).drop_last() =~= first + second.drop_last());
        assert((first + second).last() == second.last());
    }
}

/// Whoever carries out the actions of a step one after another, moving the
/// source that had the message as `Hold`, `ReleaseHeld` and `Register` say,
/// leaves the sources where `turn` puts them: the turn on in-memory inputs
/// and a caller that follows the actions agree.
pub proof fn lemma_turn_follows_actions(t: TaskView)
    requires
        first_ready(t.registered) < t.registered.len(),
        t.state.refusal(next_event(t.registered)).is_none(),
    ensures
        ({
            let i = first_ready(t.registered);
            let placed = place_all(
                t.state.step_actions(next_event(t.registered)),
                t.registered.skip(i + 1),
                t.held,
                t.registered[i].advance(),
            );
            &&& placed.0 =~= t.turn().registered
            &&& placed.1 =~= t.turn().held
        }),
{
    lemma_first_ready_exists(t.registered, 0);
    let i = first_ready(t.registered);
    let event = next_event(t.registered);
    let rest = t.registered.skip(i + 1);
    let source = t.registered[i].advance();
    let partition = t.registered[i].partition();
    let message = t.registered[i].remaining()[0];
    let next = t.state.after_step(event);
    let requeue = requeue_actions(
        next.aligned.contains(partition as int),
        next.aligned.len() == 0 && t.state.aligned.len() > 0,
        partition,
    );
    reveal_with_fuel(place_all, 4);
    let head: Seq<Action> = match message {
        ArrowMessage::Data => seq![
            Action::CountMessageReceived,
            Action::ProcessBatch { partition, partitions: t.state.partitions() as usize },
        ],
        ArrowMessage::Signal(signal) => t.state.signal_actions(partition as int, signal),
    };
    let tail: Seq<Action> = match message {
        ArrowMessage::Data => requeue,
        ArrowMessage::Signal(signal) => if t.state.signal_outcome(partition as int, signal)
            == ControlOutcome::Continue {
            requeue
        } else {
            close_actions(terminal_signal(t.state.signal_outcome(partition as int, signal)))
        },
    };
    assert(t.state.step_actions(event) =~= head + tail);
    assert forall|k: int| 0 <= k < head.len() implies !moves(#[trigger] head[k]) by {}
    lemma_place_none(head, rest, t.held, source);
    lemma_place_append(head, tail, rest, t.held, source);
    if tail == requeue {
        assert(next.phase != Phase::Closed);
        let none = Seq::<Action>::empty();
        assert(place_all(none, rest, t.held, source) == (rest, t.held));
        if next.aligned.contains(partition as int) {
            assert(requeue.drop_last() =~= none);
            assert(requeue.last() == Action::Hold { partition });
        } else if next.aligned.len() == 0 && t.state.aligned.len() > 0 {
            let one = seq![Action::ReleaseHeld];
            assert(requeue.drop_last() =~= one);
            assert(one.drop_last() =~= none);
            assert(one.last() == Action::ReleaseHeld);
            assert(place_all(one, rest, t.held, source) == (
                rest + t.held,
                Seq::<PartitionStream>::empty(),
            ));
            assert(requeue.last() == Action::Register { partition });
        } else {
            assert(requeue.drop_last() =~= none);
            assert(requeue.last() == Action::Register { partition });
        }
    } else {
        assert forall|k: int| 0 <= k < tail.len() implies !moves(#[trigger] tail[k]) by {}
        lemma_place_none(tail, rest, t.held, source);
        assert(next.phase == Phase::Closed);
    }
}

/// One turn of the loop on in-memory inputs: takes the next message off the
/// multiplexer, lets the loop handle it, and puts the source where the loop
/// says, as `TaskView::turn` states. The refusal comes back where the loop
/// refuses the event, and the actions of the step where it does not.
pub fn poll_inputs(
    state: &mut OperatorLoop,
    sel: &mut InQReader,
    held: &mut Vec<PartitionStream>,
) -> (r: Result<Vec<Action>, StepError>)
    requires
        old(state).wf(),
        old(sel).wf(),
        forall|k: int| 0 <= k < old(held)@.len() ==> (#[trigger] old(held)@[k]).wf(),
    ensures
        final(state).wf(),
        final(sel).wf(),
        forall|k: int| 0 <= k < final(held)@.len() ==> (#[trigger] final(held)@[k]).wf(),
        ({
            let after = task_view(
                old(state)@,
                old(sel)@,
                old(held)@,
                Seq::<Action>::empty(),
            ).turn();
            &&& final(state)@ == after.state
            &&& final(sel)@ == after.registered
            &&& final(held)@ == after.held
            &&& match old(state)@.refusal(next_event(old(sel)@)) {
                Some(e) => r == Err::<Vec<Action>, StepError>(e),
                None => r.is_ok() && r.unwrap()@ == after.log,
            }
        }),
{
    let event = match sel.peek() {
        Some((partition, message)) => Event::Message { partition, message },
        None => Event::InputsExhausted,
    };
    assert(event == next_event(sel@));
    if let Some(e) = state.refusal(event) {
        return Err(e);
    }
    let ghost before = TaskView {
        state: state@,
        registered: sel@,
        held: held@,
        log: Seq::<Action>::empty(),
    };
    proof {
        if first_ready(sel@) < sel@.len() {
            sel.lemma_wf(first_ready(sel@));
        }
    }
    let was_aligning: bool = state.is_aligning();
    let taken = sel.next();
    let r = state.step(event);
    match taken {
        None => {
            assert(sel@ =~= before.turn().registered);
        },
        Some(((partition, _), source)) => {
            proof {
                before.registered[first_ready(before.registered)].lemma_advance();
            }
            if state.phase() == Phase::Closed {
                assert(sel@ =~= before.turn().registered);
            } else if state.is_blocked(partition) {
                held.push(source);
                assert(sel@ =~= before.turn().registered);
                assert(held@ =~= before.turn().held);
            } else {
                if was_aligning && !state.is_aligning() {
                    sel.append(held);
                }
                sel.push(source);
                assert(sel@ =~= before.turn().registered);
                assert(held@ =~= before.turn().held);
            }
        },
    }
    assert(r.unwrap()@ =~= before.turn().log);
    r
}

/// Runs the loop on in-memory inputs for at most `max_turns` turns, and
/// answers the actions that it asked for, in their order. The run ends
/// earlier where the loop refuses an event, as it does once it has closed:
/// further turns would change nothing.
pub fn operator_run_behavior(
    state: &mut OperatorLoop,
    sel: &mut InQReader,
    held: &mut Vec<PartitionStream>,
    max_turns: usize,
) -> (log: Vec<Action>)
    requires
        old(state).wf(),
        old(sel).wf(),
        forall|k: int| 0 <= k < old(held)@.len() ==> (#[trigger] old(held)@[k]).wf(),
    ensures
        final(state).wf(),
        final(sel).wf(),
        forall|k: int| 0 <= k < final(held)@.len() ==> (#[trigger] final(held)@[k]).wf(),
        task_view(final(state)@, final(sel)@, final(held)@, log@) == task_view(
            old(state)@,
            old(sel)@,
            old(held)@,
            Seq::<Action>::empty(),
        ).turns(max_turns as nat),
{
    let ghost start = TaskView {
        state: state@,
        registered: sel@,
        held: held@,
        log: Seq::<Action>::empty(),
    };
    let mut log: Vec<Action> = Vec::new();
    let mut n: usize = 0;
    let mut going: bool = true;
    while going && n < max_turns
        invariant
            n <= max_turns,
            state.wf(),
            sel.wf(),
            forall|k: int| 0 <= k < held@.len() ==> (#[trigger] held@[k]).wf(),
            task_view(state@, sel@, held@, log@).turns((max_turns - n) as nat) == start.turns(
                max_turns as nat,
            ),
            !going ==> state@.refusal(next_event(sel@)).is_some(),
        decreases (if going { 1int } else { 0int }) + max_turns - n,
    {
        let ghost cur = TaskView { state: state@, registered: sel@, held: held@, log: log@ };
        let ghost bare = TaskView { log: Seq::<Action>::empty(), ..cur };
        match poll_inputs(state, sel, held) {
            Ok(mut actions) => {
                log.append(&mut actions);
                proof {
                    let now = TaskView { state: state@, registered: sel@, held: held@, log: log@ };
                    assert(bare.turn().log =~= cur.state.step_actions(next_event(cur.registered)));
                    assert(now.log =~= cur.turn().log);
                    assert(now == cur.turn());
                }
                n += 1;
            },
            Err(_) => {
                going = false;
            },
        }
    }
    proof {
        let cur = TaskView { state: state@, registered: sel@, held: held@, log: log@ };
        if !going {
            cur.lemma_refused_turns((max_turns - n) as nat);
        }
    }
    log
}

} // verus!
