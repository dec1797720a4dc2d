//! The emitter whose consumers run on threads of their own: the decisions of what
//! starts and what waits. The threads themselves are started and joined by the
//! caller, which reports the finished ones back.
use std::hash::Hash;

use vstd::prelude::*;

pub use crate::interleaving::Interleaves;

use crate::general_emitter::WaitStep;
use crate::scheduler::{obeys_key_laws, numbers, Entry, Scheduler, SchedulerView};

verus! {

/// An emitter whose consumers run on threads. Registrations cannot change while
/// an emission of the event waits; emitted consumers that panic are not recorded.
#[verifier::reject_recursive_types(E)]
pub struct Emitter<E, A, C> {
    core: Scheduler<E, A, C>,
}

impl<E, A, C> Emitter<E, A, C> {
    /// The state of the emitter.
    pub closed spec fn state(&self) -> SchedulerView<E, A, C> {
        self.core@
    }
}

impl<E: Eq + Hash + Clone + Interleaves<A>, A, C: Copy> Emitter<E, A, C> {
    /// An emitter with nothing registered.
    pub fn new() -> (r: Self)
        requires
            obeys_key_laws::<E>(),
        ensures
            r.state() == SchedulerView::<E, A, C>::initial(),
            r.state().wf(),
    {
        Emitter { core: Scheduler::new() }
    }

    /// Nothing runs and nothing waits.
    pub fn is_empty(&self) -> (r: bool)
        ensures
            r == self.state().is_empty(),
    {
        self.core.is_empty()
    }

    /// Start the consumer of `event` on `arg` now, or leave the emission in the
    /// backlog; returns whether a consumer is registered, whether the emission
    /// waits, and whether it started.
    pub fn emit(&mut self, event: E, arg: A) -> (r: (bool, bool, bool))
        requires
            old(self).state().wf(),
            old(self).state().emitted < usize::MAX,
        ensures
            (final(self).state(), r) == old(self).state().emit_spec(event, arg),
            final(self).state().wf(),
    {
        self.core.emit(event, arg)
    }

    /// Set the consumer of `event`, which no waiting emission may use; returns
    /// whether `event` had no consumer before.
    pub fn on(&mut self, event: E, callback: C) -> (r: bool)
        requires
            old(self).state().wf(),
            !old(self).state().backlog_uses(event),
        ensures
            final(self).state() == old(self).state().on_spec(event, callback).0,
            old(self).state().on_spec(event, callback).1 == Some(r),
            final(self).state().wf(),
    {
        match self.core.on(event, callback) {
            Ok(is_new) => is_new,
            Err(_) => false,
        }
    }

    /// Remove the consumer of `event`, which no waiting emission may use; returns
    /// whether there was one.
    pub fn off(&mut self, event: E) -> (r: bool)
        requires
            old(self).state().wf(),
            !old(self).state().backlog_uses(event),
        ensures
            final(self).state() == old(self).state().off_spec(event).0,
            old(self).state().off_spec(event).1 == Some(r),
            final(self).state().wf(),
    {
        match self.core.off(event) {
            Ok(was_there) => was_there,
            Err(_) => false,
        }
    }

    /// Remove every consumer; nothing may wait.
    pub fn all_off(&mut self)
        requires
            old(self).state().wf(),
            old(self).state().backlog.len() == 0,
        ensures
            final(self).state() == (SchedulerView { consumers: Map::empty(), ..old(self).state() }),
            final(self).state().wf(),
    {
        let all_registered_events = self.core.all_keys();
        let n = all_registered_events.len();
        let ghost keys = all_registered_events@;
        let ghost s0 = self.state();
        let mut i: usize = 0;
        while i < n
            invariant
                s0 == old(self).state(),
                s0.backlog.len() == 0,
                keys == all_registered_events@,
                keys.to_set() == s0.consumers.dom(),
                n == keys.len(),
                i <= n,
                self.state().wf(),
                self.state() == (SchedulerView { consumers: self.state().consumers, ..s0 }),
                self.state().consumers == s0.consumers.remove_keys(keys.take(i as int).to_set()),
            decreases n - i,
        {
            let event = all_registered_events[i].clone();
            assert(cloned::<E>(keys[i as int], event));
            assert(event == keys[i as int]);
            self.off(event);
            i = i + 1;
            assert(keys.take(i as int).to_set() =~= keys.take(i - 1).to_set().insert(keys[i - 1])) by {
                assert(keys.take(i as int) =~= keys.take(i - 1).push(keys[i - 1]));
                keys.take(i - 1).lemma_push_to_set_commute(keys[i - 1]);
            }
            assert(self.state().consumers =~= s0.consumers.remove_keys(keys.take(i as int).to_set()));
        }
        proof {
            assert(keys.take(n as int) =~= keys);
            assert(self.state().consumers =~= Map::empty());
        }
    }

    /// Whether an emission of `event` waits in the backlog.
    pub fn backlog_uses_this(&self, event: &E) -> (r: bool)
        requires
            self.state().wf(),
        ensures
            r == self.state().backlog_uses(*event),
    {
        self.core.backlog_uses_this(event)
    }

    /// The running emissions whose threads finished (one flag per running
    /// emission, in order) stop running; they are returned from the last to the first.
    pub fn clear_finished(&mut self, finished: &Vec<bool>) -> (r: Vec<Entry<E, A>>)
        requires
            old(self).state().wf(),
            finished@.len() == old(self).state().running.len(),
        ensures
            (final(self).state(), r@) == old(self).state().clear_finished_spec(finished@),
            final(self).state().wf(),
    {
        self.core.clear_finished(finished)
    }

    /// One round of waiting for everything, once the finished threads were collected.
    pub fn wait_after_poll(&mut self, something_finished: bool) -> (r: WaitStep)
        requires
            old(self).state().wf(),
        ensures
            (final(self).state(), r) == old(self).state().wait_after_poll_spec(something_finished),
            final(self).state().wf(),
    {
        self.core.wait_after_poll(something_finished)
    }

    /// Hand out the consumers started since the last call, with the numbers of
    /// their emissions, for the caller to run on threads.
    pub fn take_started(&mut self) -> (r: Vec<(usize, C)>)
        requires
            old(self).state().wf(),
        ensures
            r@ == old(self).state().started,
            final(self).state() == (SchedulerView { started: Seq::empty(), ..old(self).state() }),
            final(self).state().wf(),
    {
        self.core.take_started()
    }

    /// The first running emission numbered `pos`.
    pub fn running_entry(&self, pos: usize) -> (r: Option<&Entry<E, A>>)
        ensures
            r matches Some(x) ==> exists|k: int|
                0 <= k < self.state().running.len() && self.state().running[k] == *x && x.0 == pos
                    && forall|j: int| 0 <= j < k ==> #[trigger] self.state().running[j].0 != pos,
            r is None ==> forall|j: int|
                0 <= j < self.state().running.len() ==> #[trigger] self.state().running[j].0 != pos,
    {
        self.core.running_entry(pos)
    }

    /// The numbers of the running emissions, in order.
    pub fn running_numbers(&self) -> (r: Vec<usize>)
        ensures
            r@ == numbers(self.state().running),
    {
        self.core.running_numbers()
    }

    /// How many emissions run.
    pub fn count_running(&self) -> (r: usize)
        ensures
            r == self.state().running.len(),
    {
        self.core.count_running()
    }

    /// How many emissions there were.
    pub fn emitted(&self) -> (r: usize)
        ensures
            r == self.state().emitted,
    {
        self.core.emitted()
    }

    /// How many emissions wait.
    pub fn count_waiting(&self) -> (r: usize)
        ensures
            r == self.state().backlog.len(),
    {
        self.core.count_waiting()
    }
}

} // verus!
