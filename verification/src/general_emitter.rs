//! The emitter API shared by the emitters, and the policy on panicking consumers.
use std::hash::Hash;

use vstd::prelude::*;

use crate::interleaving::Interleaves;
use crate::scheduler::SchedulerView;

verus! {

/// The number of an emission: how many emissions came before it.
pub type WhichEvent = usize;

/// Why a registration could not change.
pub type EmitterError = String;

/// What to do when a consumer panics:
/// propagate it immediately, record it and carry on as if it had returned,
/// or record it and treat every later emission that depends on it as failed too.
#[derive(PartialEq, Eq, Debug, Clone, Structural)]
pub enum PanicPolicy {
    PanicAgain,
    StoreButNoSubsequentProblem,
    StoreButSubsequentProblem,
}

/// What a waiting loop does next: stop because nothing runs or waits, go round
/// again after the backlog was cleared (the flag says whether anything left it),
/// or sleep a while before going round again.
#[derive(PartialEq, Eq, Debug, Clone, Copy, Structural)]
pub enum WaitStep {
    Done,
    Cleared(bool),
    Sleep,
}

/// What becomes of an emission whose consumer panicked: it stops running and,
/// under the policies that store panics, is recorded as panicked (`Recorded`);
/// under `PanicAgain` the panic is to be propagated (`Propagate`). `NotRunning`:
/// no such emission was running, and nothing changed.
#[derive(PartialEq, Eq, Debug, Clone, Copy, Structural)]
pub enum PanicResponse {
    Recorded,
    Propagate,
    NotRunning,
}

/// The consumers kept after turning every consumer off: those of events that
/// an emission in the backlog still waits on.
pub open spec fn kept_after_all_off<E, A, C>(s: SchedulerView<E, A, C>) -> Map<E, C> {
    s.consumers.restrict(Set::new(|k: E| s.backlog_uses(k)))
}

/// Registering consumers for events, emitting events, and the bookkeeping of
/// which emissions run and which wait.
pub trait GeneralEmitter<E, A, C>: Sized where E: Eq + Hash + Interleaves<A> + Clone {
    /// The state of the emitter.
    spec fn state(&self) -> SchedulerView<E, A, C>;

    /// Change how panics of consumers are handled.
    fn reset_panic_policy(&mut self, panic_policy: PanicPolicy)
        requires
            old(self).state().wf(),
        ensures
            final(self).state() == (SchedulerView { panic_policy, ..old(self).state() }),
            final(self).state().wf(),
    ;

    /// Every event that has a consumer, each once.
    fn all_keys(&self) -> (r: Vec<E>)
        requires
            self.state().wf(),
        ensures
            r@.to_set() == self.state().consumers.dom(),
            r@.no_duplicates(),
            r@.len() == self.state().consumers.dom().len(),
    ;

    /// Nothing runs and nothing waits.
    fn is_empty(&self) -> (r: bool)
        ensures
            r == self.state().is_empty(),
    ;

    /// How many emissions run.
    fn count_running(&self) -> (r: usize)
        ensures
            r == self.state().running.len(),
    ;

    /// How many emissions wait for an earlier one they depend on.
    fn count_waiting(&self) -> (r: usize)
        ensures
            r == self.state().backlog.len(),
    ;

    /// Set the consumer to run for `event`; refused while an emission of `event`
    /// waits, since it was meant for the consumer registered when it was emitted.
    /// `Ok` says whether `event` had no consumer before.
    fn on(&mut self, event: E, callback: C) -> (r: Result<bool, EmitterError>)
        requires
            old(self).state().wf(),
        ensures
            final(self).state() == old(self).state().on_spec(event, callback).0,
            final(self).state().wf(),
            r matches Ok(b) ==> old(self).state().on_spec(event, callback).1 == Some(b),
            r matches Err(m) ==> old(self).state().on_spec(event, callback).1 is None
                && m@ == "Already had a callback for that type of event and had some backlogs for it. Can't change it."@,
    ;

    /// Remove the consumer of `event`; refused while an emission of `event` waits.
    /// `Ok` says whether there was a consumer to remove.
    fn off(&mut self, event: E) -> (r: Result<bool, EmitterError>)
        requires
            old(self).state().wf(),
        ensures
            final(self).state() == old(self).state().off_spec(event).0,
            final(self).state().wf(),
            r matches Ok(b) ==> old(self).state().off_spec(event).1 == Some(b),
            r matches Err(m) ==> old(self).state().off_spec(event).1 is None
                && m@ == "Already had a callback for that type of event and had some backlogs for it. Can't remove it."@,
    ;

    /// Turn off as many consumers as possible: those of events that something in
    /// the backlog waits on stay. Returns whether every one was turned off, which
    /// is when nothing waits.
    fn all_off(&mut self) -> (r: bool)
        requires
            old(self).state().wf(),
        ensures
            final(self).state() == (SchedulerView {
                consumers: kept_after_all_off(old(self).state()),
                ..old(self).state()
            }),
            final(self).state().wf(),
            r == (old(self).state().backlog.len() == 0),
    {
        let ghost s0 = self.state();
        let mut all_off = true;
        let all_registered_events = self.all_keys();
        let n = all_registered_events.len();
        let ghost keys = all_registered_events@;
        let mut i: usize = 0;
        while i < n
            invariant
                s0 == old(self).state(),
                s0.wf(),
                keys == all_registered_events@,
                keys.to_set() == s0.consumers.dom(),
                keys.no_duplicates(),
                n == keys.len(),
                i <= n,
                self.state().wf(),
                self.state() == (SchedulerView { consumers: self.state().consumers, ..s0 }),
                forall|k: E|
                    #[trigger] self.state().consumers.contains_key(k) <==> (s0.consumers.contains_key(k)
                        && !(keys.take(i as int).contains(k) && !s0.backlog_uses(k))),
                forall|k: E|
                    self.state().consumers.contains_key(k) ==> #[trigger] self.state().consumers[k]
                        == s0.consumers[k],
                all_off == forall|j: int| 0 <= j < i ==> !s0.backlog_uses(#[trigger] keys[j]),
            decreases n - i,
        {
            let event = all_registered_events[i].clone();
            assert(cloned::<E>(keys[i as int], event));
            assert(event == keys[i as int]);
            let this_turned_off = self.off(event);
            if this_turned_off.is_err() {
                all_off = false;
            }
            i = i + 1;
            let ghost now = keys.take(i as int);
            let ghost pre = keys.take(i - 1);
            assert forall|k: E| now.contains(k) <==> (pre.contains(k) || k == keys[i - 1]) by {
                if now.contains(k) {
                    let j = choose|j: int| 0 <= j < now.len() && now[j] == k;
                    if j < i - 1 {
                        assert(pre[j] == k);
                    }
                }
                if pre.contains(k) {
                    let j = choose|j: int| 0 <= j < pre.len() && pre[j] == k;
                    assert(now[j] == k);
                }
                if k == keys[i - 1] {
                    assert(now[i - 1] == k);
                }
            }
        }
        proof {
            assert(keys.take(n as int) =~= keys);
            let kept = kept_after_all_off(s0);
            assert forall|k: E| #[trigger] self.state().consumers.contains_key(k) <==> kept.contains_key(k) by {
                if s0.consumers.contains_key(k) {
                    assert(keys.to_set().contains(k));
                }
            }
            assert(self.state().consumers =~= kept);
            if s0.backlog.len() > 0 {
                let k = s0.backlog[0].1;
                assert(s0.backlog_uses(k));
                assert(keys.to_set().contains(k));
                let j = choose|j: int| 0 <= j < n && keys[j] == k;
                assert(!all_off);
            } else {
                assert forall|j: int| 0 <= j < n implies !s0.backlog_uses(#[trigger] keys[j]) by {}
            }
        }
        all_off
    }

    /// Start the consumer of `event` on `arg` now, or leave the emission in the
    /// backlog until what it depends on finished; see `SchedulerView::emit_spec`.
    /// Returns whether a consumer is registered, whether the emission waits,
    /// and whether it started.
    fn emit(&mut self, event: E, arg: A) -> (r: (bool, bool, bool))
        requires
            old(self).state().wf(),
            old(self).state().emitted < usize::MAX,
        ensures
            (final(self).state(), r) == old(self).state().emit_spec(event, arg),
            final(self).state().wf(),
    ;
}

} // verus!
