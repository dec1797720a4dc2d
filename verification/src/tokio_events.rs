//! The emitter whose consumers run as tasks of an async runtime: the decisions of
//! what starts and what waits; the runtime starts the handed-out consumers and
//! reports each finished task back.
use std::hash::Hash;

use vstd::prelude::*;

use crate::general_emitter::{EmitterError, GeneralEmitter, PanicPolicy, PanicResponse, WaitStep};
use crate::interleaving::Interleaves;
use crate::scheduler::{obeys_key_laws, numbers, Entry, Scheduler, SchedulerView};

verus! {

/// An emitter whose consumers run as asynchronous tasks.
#[verifier::reject_recursive_types(E)]
pub struct TokioEmitter<E, A, C> {
    core: Scheduler<E, A, C>,
}

impl<E: Eq + Hash + Clone + Interleaves<A>, A, C: Copy> TokioEmitter<E, A, C> {
    /// An emitter with nothing registered, whose panic policy is `PanicAgain`.
    pub fn new() -> (r: Self)
        requires
            obeys_key_laws::<E>(),
        ensures
            r.state() == SchedulerView::<E, A, C>::initial(),
            r.state().wf(),
    {
        TokioEmitter { core: Scheduler::new() }
    }

    /// Hand out the consumers started since the last call, with the numbers of
    /// their emissions, for the runtime to run.
    pub fn take_started(&mut self) -> (r: Vec<(usize, C)>)
        requires
            old(self).state().wf(),
        ensures
            r@ == old(self).state().started,
            final(self).state() == (SchedulerView { started: Seq::empty(), ..old(self).state() }),
            final(self).state().wf(),
    {
        self.core.take_started()
    }

    /// The first running emission numbered `pos`.
    pub fn running_entry(&self, pos: usize) -> (r: Option<&Entry<E, A>>)
        ensures
            r matches Some(x) ==> exists|k: int|
                0 <= k < self.state().running.len() && self.state().running[k] == *x && x.0 == pos
                    && forall|j: int| 0 <= j < k ==> #[trigger] self.state().running[j].0 != pos,
            r is None ==> forall|j: int|
                0 <= j < self.state().running.len() ==> #[trigger] self.state().running[j].0 != pos,
    {
        self.core.running_entry(pos)
    }

    /// The numbers of the running emissions, in order.
    pub fn running_numbers(&self) -> (r: Vec<usize>)
        ensures
            r@ == numbers(self.state().running),
    {
        self.core.running_numbers()
    }

    /// The task of emission `pos` of `event` finished: it stops running.
    pub fn task_done(&mut self, pos: usize, event: &E) -> (r: bool)
        requires
            old(self).state().wf(),
        ensures
            (final(self).state(), r) == old(self).state().task_done_spec(pos, *event),
            final(self).state().wf(),
    {
        self.core.task_done(pos, event)
    }

    /// The consumer of emission `pos` of `event` panicked in its task: it stops
    /// running and is recorded as panicked, or, under `PanicAgain`, the answer
    /// says to propagate the panic.
    pub fn task_panicked(&mut self, pos: usize, event: &E) -> (r: PanicResponse)
        requires
            old(self).state().wf(),
        ensures
            (final(self).state(), r) == old(self).state().task_panicked_spec(pos, *event),
            final(self).state().wf(),
    {
        self.core.task_panicked(pos, event)
    }

    /// One round of waiting for everything to finish; `finished_nums` holds the
    /// numbers of the emissions running on the previous round.
    pub fn wait_round(&mut self, finished_nums: &mut Vec<usize>) -> (r: WaitStep)
        requires
            old(self).state().wf(),
        ensures
            (final(self).state(), final(finished_nums)@, r) == old(self).state().wait_round_spec(
                old(finished_nums)@,
            ),
            final(self).state().wf(),
    {
        self.core.wait_round(finished_nums)
    }
}

impl<E: Eq + Hash + Clone + Interleaves<A>, A, C: Copy> TokioEmitter<E, A, C> {
    /// The current panic policy.
    pub fn panic_policy(&self) -> (r: PanicPolicy)
        ensures
            r == self.state().panic_policy,
    {
        self.core.panic_policy()
    }

    /// How many emissions there were.
    pub fn emitted(&self) -> (r: usize)
        ensures
            r == self.state().emitted,
    {
        self.core.emitted()
    }

    /// How many emissions are recorded as panicked.
    pub fn count_panicked(&self) -> (r: usize)
        ensures
            r == self.state().panicked.len(),
    {
        self.core.count_panicked()
    }
}

impl<E: Eq + Hash + Clone + Interleaves<A>, A, C: Copy> GeneralEmitter<E, A, C> for TokioEmitter<
    E,
    A,
    C,
> {
    closed spec fn state(&self) -> SchedulerView<E, A, C> {
        self.core@
    }

    fn reset_panic_policy(&mut self, panic_policy: PanicPolicy) {
        self.core.reset_panic_policy(panic_policy)
    }

    fn all_keys(&self) -> (r: Vec<E>) {
        self.core.all_keys()
    }

    fn is_empty(&self) -> (r: bool) {
        self.core.is_empty()
    }

    fn count_running(&self) -> (r: usize) {
        self.core.count_running()
    }

    fn count_waiting(&self) -> (r: usize) {
        self.core.count_waiting()
    }

    fn on(&mut self, event: E, callback: C) -> (r: Result<bool, EmitterError>) {
        self.core.on(event, callback)
    }

    fn off(&mut self, event: E) -> (r: Result<bool, EmitterError>) {
        self.core.off(event)
    }

    fn emit(&mut self, event: E, arg: A) -> (r: (bool, bool, bool)) {
        self.core.emit(event, arg)
    }
}

} // verus!
