//! An emitter for consumers that themselves emit further events: each finished
//! consumer hands back the events it wants emitted next, together with its own
//! result, and those events are emitted in turn.
use std::hash::Hash;

use vstd::prelude::*;

use crate::general_emitter::{EmitterError, GeneralEmitter, PanicPolicy, WaitStep};
use crate::interleaving::Interleaves;
use crate::scheduler::{obeys_key_laws, numbers, Entry, Scheduler, SchedulerView};

verus! {

/// Emitting each of `items` in order.
pub open spec fn emit_all<E: Interleaves<A>, A, C>(
    s: SchedulerView<E, A, C>,
    items: Seq<(E, A)>,
) -> SchedulerView<E, A, C>
    decreases items.len(),
{
    if items.len() == 0 {
        s
    } else {
        emit_all(s.emit_spec(items[0].0, items[0].1).0, items.drop_first())
    }
}

/// One round of waiting on a cascader, once the finished consumers were
/// collected and what they produced was emitted: stop after a round in which
/// nothing finished; else clear the backlog, or stop when nothing runs or waits.
pub open spec fn cascade_round_spec<E: Interleaves<A>, A, C>(
    s: SchedulerView<E, A, C>,
    something_finished: bool,
) -> (SchedulerView<E, A, C>, WaitStep) {
    if !something_finished {
        (s, WaitStep::Done)
    } else {
        s.wait_after_poll_spec(true)
    }
}

/// An emitter whose consumers return the events to emit after them.
#[verifier::reject_recursive_types(E)]
pub struct Cascader<E, A, C> {
    emitter: Scheduler<E, A, C>,
}

impl<E: Eq + Hash + Clone + Interleaves<A>, A, C: Copy> Cascader<E, A, C> {
    /// A cascader with nothing registered, whose panic policy is `PanicAgain`.
    pub fn new() -> (r: Self)
        requires
            obeys_key_laws::<E>(),
        ensures
            r.state() == SchedulerView::<E, A, C>::initial(),
            r.state().wf(),
    {
        Cascader { emitter: Scheduler::new() }
    }

    /// A consumer finished and asked for `produced` to be emitted: emit each in order.
    pub fn cascade(&mut self, produced: Vec<(E, A)>)
        requires
            old(self).state().wf(),
            old(self).state().emitted + produced@.len() <= usize::MAX,
        ensures
            final(self).state() == emit_all(old(self).state(), produced@),
            final(self).state().wf(),
    {
        let ghost items = produced@;
        let ghost goal = emit_all(self.state(), items);
        let mut idx: usize = 0;
        let n = produced.len();
        assert(items.skip(0) =~= items);
        for pair in it: produced
            invariant
                n == items.len(),
                items == it.seq(),
                idx == it.index(),
                self.state().wf(),
                self.state().emitted + (n - idx) <= usize::MAX,
                emit_all(self.state(), items.skip(idx as int)) == goal,
        {
            let (x, y) = pair;
            proof {
                assert(items.skip(idx as int)[0] == (x, y));
                assert(items.skip(idx as int).drop_first() =~= items.skip(idx + 1));
            }
            let (_had_consumer, _starting_later, _started_already) = self.emitter.emit(x, y);
            idx = idx + 1;
        }
        proof {
            assert(items.skip(n as int) =~= Seq::<(E, A)>::empty());
        }
    }

    /// How many emissions there were.
    pub fn emitted(&self) -> (r: usize)
        ensures
            r == self.state().emitted,
    {
        self.emitter.emitted()
    }

    /// Hand out the consumers started since the last call, with the numbers of
    /// their emissions, for the caller to run.
    pub fn take_started(&mut self) -> (r: Vec<(usize, C)>)
        requires
            old(self).state().wf(),
        ensures
            r@ == old(self).state().started,
            final(self).state() == (SchedulerView { started: Seq::empty(), ..old(self).state() }),
            final(self).state().wf(),
    {
        self.emitter.take_started()
    }

    /// The first running emission numbered `pos`.
    pub fn running_entry(&self, pos: usize) -> (r: Option<&Entry<E, A>>)
        ensures
            r matches Some(x) ==> exists|k: int|
                0 <= k < self.state().running.len() && self.state().running[k] == *x && x.0 == pos
                    && forall|j: int| 0 <= j < k ==> #[trigger] self.state().running[j].0 != pos,
            r is None ==> forall|j: int|
                0 <= j < self.state().running.len() ==> #[trigger] self.state().running[j].0 != pos,
    {
        self.emitter.running_entry(pos)
    }

    /// The numbers of the running emissions, in order.
    pub fn running_numbers(&self) -> (r: Vec<usize>)
        ensures
            r@ == numbers(self.state().running),
    {
        self.emitter.running_numbers()
    }

    /// The running emissions whose consumers finished (one flag per running
    /// emission, in order) stop running; they are returned from the last to the first.
    pub fn clear_finished(&mut self, finished: &Vec<bool>) -> (r: Vec<Entry<E, A>>)
        requires
            old(self).state().wf(),
            finished@.len() == old(self).state().running.len(),
        ensures
            (final(self).state(), r@) == old(self).state().clear_finished_spec(finished@),
            final(self).state().wf(),
    {
        self.emitter.clear_finished(finished)
    }

    /// One round of waiting until a round in which nothing finished; see `cascade_round_spec`.
    pub fn cascade_round(&mut self, something_finished: bool) -> (r: WaitStep)
        requires
            old(self).state().wf(),
        ensures
            (final(self).state(), r) == cascade_round_spec(old(self).state(), something_finished),
            final(self).state().wf(),
    {
        if !something_finished {
            WaitStep::Done
        } else {
            self.emitter.wait_after_poll(true)
        }
    }

    /// One round of waiting for everything, once the finished consumers were collected.
    pub fn wait_after_poll(&mut self, something_finished: bool) -> (r: WaitStep)
        requires
            old(self).state().wf(),
        ensures
            (final(self).state(), r) == old(self).state().wait_after_poll_spec(something_finished),
            final(self).state().wf(),
    {
        self.emitter.wait_after_poll(something_finished)
    }
}

impl<E: Eq + Hash + Clone + Interleaves<A>, A, C: Copy> GeneralEmitter<E, A, C> for Cascader<
    E,
    A,
    C,
> {
    closed spec fn state(&self) -> SchedulerView<E, A, C> {
        self.emitter@
    }

    fn reset_panic_policy(&mut self, panic_policy: PanicPolicy) {
        self.emitter.reset_panic_policy(panic_policy)
    }

    fn all_keys(&self) -> (r: Vec<E>) {
        self.emitter.all_keys()
    }

    fn is_empty(&self) -> (r: bool) {
        self.emitter.is_empty()
    }

    fn count_running(&self) -> (r: usize) {
        self.emitter.count_running()
    }

    fn count_waiting(&self) -> (r: usize) {
        self.emitter.count_waiting()
    }

    fn on(&mut self, event: E, callback: C) -> (r: Result<bool, EmitterError>) {
        self.emitter.on(event, callback)
    }

    fn off(&mut self, event: E) -> (r: Result<bool, EmitterError>) {
        self.emitter.off(event)
    }

    fn emit(&mut self, event: E, arg: A) -> (r: (bool, bool, bool)) {
        self.emitter.emit(event, arg)
    }
}

} // verus!
