//! The scheduling core shared by the emitters: which emissions may start now,
//! which must wait in the backlog, and which registrations may change.
use std::collections::HashMap;
use std::hash::Hash;

use vstd::prelude::*;
use vstd::std_specs::cmp::PartialEqSpec;
use vstd::std_specs::hash::obeys_key_model;
use vstd::std_specs::iter::IteratorSpec;

use crate::general_emitter::{EmitterError, PanicPolicy, PanicResponse, WaitStep};
use crate::interleaving::Interleaves;

verus! {

broadcast use vstd::std_specs::hash::group_hash_axioms;

/// One emission: its number, its event and its argument.
pub type Entry<E, A> = (usize, E, A);

/// An emission that could not run because an earlier panicked emission
/// it depends on is in the way; the last field is the number of that earlier one.
pub type Tainted<E, A> = (usize, E, A, usize);

/// What the event type must obey to serve as a key: hashing is deterministic,
/// `==` is identity and `clone` copies exactly.
pub open spec fn obeys_key_laws<E: PartialEq + Clone>() -> bool {
    &&& obeys_key_model::<E>()
    &&& E::obeys_eq_spec()
    &&& forall|x: E, y: E| #[trigger] x.eq_spec(&y) <==> x == y
    &&& forall|x: E, y: E| #[trigger] cloned::<E>(x, y) ==> x == y
}

/// The launch-related part of the state: running emissions, emissions recorded
/// as panicked, and consumers started but not yet handed to the runtime.
pub struct Launches<E, A, C> {
    pub running: Seq<Entry<E, A>>,
    pub panicked: Seq<Tainted<E, A>>,
    pub started: Seq<(usize, C)>,
}

/// The abstract state of a scheduler.
#[verifier::reject_recursive_types(E)]
pub struct SchedulerView<E, A, C> {
    pub consumers: Map<E, C>,
    pub running: Seq<Entry<E, A>>,
    pub backlog: Seq<Entry<E, A>>,
    pub emitted: usize,
    pub panic_policy: PanicPolicy,
    pub panicked: Seq<Tainted<E, A>>,
    pub started: Seq<(usize, C)>,
}

/// `x` (earlier) keeps the emission `b` waiting: it was emitted before `b`
/// and `b` does not interleave with it.
pub open spec fn waits_on<E: Interleaves<A>, A>(b: Entry<E, A>, x: Entry<E, A>) -> bool {
    x.0 < b.0 && !b.1.interleave_spec(&b.2, &x.1, &x.2)
}

/// The pending emission `x` keeps a new emission of `event` with `arg` from starting.
pub open spec fn blocks_new<E: Interleaves<A>, A>(x: Entry<E, A>, event: E, arg: A) -> bool {
    !x.1.interleave_spec(&x.2, &event, &arg)
}

/// The panicked emission `x` taints an emission numbered `pos`.
pub open spec fn taints<E: Interleaves<A>, A>(x: Tainted<E, A>, pos: usize, event: E, arg: A) -> bool {
    x.0 < pos && !x.1.interleave_spec(&x.2, &event, &arg)
}

/// Index `k` of `panicked` is the first one that taints the emission.
pub open spec fn first_taint<E: Interleaves<A>, A>(
    panicked: Seq<Tainted<E, A>>,
    k: int,
    pos: usize,
    event: E,
    arg: A,
) -> bool {
    &&& 0 <= k < panicked.len()
    &&& taints(panicked[k], pos, event, arg)
    &&& forall|j: int| 0 <= j < k ==> !taints(#[trigger] panicked[j], pos, event, arg)
}

impl<E, A, C> SchedulerView<E, A, C> {
    pub open spec fn launches(self) -> Launches<E, A, C> {
        Launches { running: self.running, panicked: self.panicked, started: self.started }
    }

    pub open spec fn with_launches(self, l: Launches<E, A, C>) -> Self {
        SchedulerView { running: l.running, panicked: l.panicked, started: l.started, ..self }
    }

    /// Some emission waiting in the backlog is of `event`.
    pub open spec fn backlog_uses(self, event: E) -> bool {
        exists|i: int| 0 <= i < self.backlog.len() && #[trigger] self.backlog[i].1 == event
    }

    pub open spec fn is_empty(self) -> bool {
        self.running.len() == 0 && self.backlog.len() == 0
    }
}

impl<E: PartialEq + Clone, A, C> SchedulerView<E, A, C> {
    /// Well-formedness: the event type behaves as a key, every number handed out
    /// is below the count of emissions, the backlog is in emission order and
    /// every waiting emission has its consumer registered.
    pub open spec fn wf(self) -> bool {
        &&& obeys_key_laws::<E>()
        &&& self.bounded()
        &&& forall|i: int, j: int|
            0 <= i < j < self.backlog.len() ==> #[trigger] self.backlog[i].0 < #[trigger] self.backlog[j].0
        &&& forall|i: int|
            0 <= i < self.backlog.len() ==> self.consumers.contains_key(#[trigger] self.backlog[i].1)
    }
}

impl<E: Interleaves<A>, A, C> SchedulerView<E, A, C> {
    /// The waiting emission `b` may start: nothing emitted before it that it
    /// does not interleave with is still running or waiting.
    pub open spec fn is_ready(self, b: Entry<E, A>) -> bool {
        &&& forall|i: int| 0 <= i < self.running.len() ==> !waits_on(b, #[trigger] self.running[i])
        &&& forall|i: int| 0 <= i < self.backlog.len() ==> !waits_on(b, #[trigger] self.backlog[i])
    }

    /// Some pending emission keeps a new emission of `event` with `arg` from starting.
    pub open spec fn has_earlier_dependence(self, event: E, arg: A) -> bool {
        ||| exists|i: int| 0 <= i < self.backlog.len() && blocks_new(#[trigger] self.backlog[i], event, arg)
        ||| exists|i: int| 0 <= i < self.running.len() && blocks_new(#[trigger] self.running[i], event, arg)
    }

    /// An earlier panicked emission taints this one under the current policy.
    pub open spec fn tainted(self, pos: usize, event: E, arg: A) -> bool {
        taint_applies(self.panic_policy, self.panicked, pos, event, arg)
    }
}

/// Under `policy`, an emission in `panicked` taints the emission numbered `pos`.
pub open spec fn taint_applies<E: Interleaves<A>, A>(
    policy: PanicPolicy,
    panicked: Seq<Tainted<E, A>>,
    pos: usize,
    event: E,
    arg: A,
) -> bool {
    &&& policy == PanicPolicy::StoreButSubsequentProblem
    &&& exists|k: int| first_taint(panicked, k, pos, event, arg)
}

/// Starting one emission whose consumer is registered: either it joins the
/// running ones and its consumer is handed out, or an earlier panic taints it.
pub open spec fn launch<E: Interleaves<A>, A, C>(
    s: SchedulerView<E, A, C>,
    l: Launches<E, A, C>,
    pos: usize,
    event: E,
    arg: A,
) -> Launches<E, A, C> {
    if !s.consumers.contains_key(event) {
        l
    } else if taint_applies(s.panic_policy, l.panicked, pos, event, arg) {
        let k = choose|k: int| first_taint(l.panicked, k, pos, event, arg);
        Launches { panicked: l.panicked.push((pos, event, arg, l.panicked[k].0)), ..l }
    } else {
        Launches {
            running: l.running.push((pos, event, arg)),
            started: l.started.push((pos, s.consumers[event])),
            ..l
        }
    }
}

/// Start the ready emissions among `items`, the latest first, where readiness
/// is judged on the state `snap` before any of them started.
pub open spec fn launch_ready_desc<E: Interleaves<A>, A, C>(
    snap: SchedulerView<E, A, C>,
    l: Launches<E, A, C>,
    items: Seq<Entry<E, A>>,
) -> Launches<E, A, C>
    decreases items.len(),
{
    if items.len() == 0 {
        l
    } else {
        let b = items.last();
        let l1 = if snap.is_ready(b) {
            launch(snap, l, b.0, b.1, b.2)
        } else {
            l
        };
        launch_ready_desc(snap, l1, items.drop_last())
    }
}

impl<E: Interleaves<A>, A, C> SchedulerView<E, A, C> {
    /// The emissions that stay in the backlog.
    pub open spec fn still_waiting(self) -> Seq<Entry<E, A>> {
        self.backlog.filter(self.must_wait())
    }

    /// The predicate of the emissions that must keep waiting.
    pub open spec fn must_wait(self) -> spec_fn(Entry<E, A>) -> bool {
        |b: Entry<E, A>| !self.is_ready(b)
    }

    /// Moving every ready emission out of the backlog; the flag says whether any was ready.
    pub open spec fn clear_backlog_spec(self) -> (SchedulerView<E, A, C>, bool) {
        let l = launch_ready_desc(self, self.launches(), self.backlog);
        (
            SchedulerView { backlog: self.still_waiting(), ..self.with_launches(l) },
            exists|i: int| 0 <= i < self.backlog.len() && self.is_ready(#[trigger] self.backlog[i]),
        )
    }
}


impl<E: Interleaves<A>, A, C> SchedulerView<E, A, C> {
    /// Emitting `event` with `arg`: unless the emission interleaves with
    /// everything, the backlog is cleared first; the emission then starts if no
    /// pending emission keeps it waiting, else it waits in the backlog when its
    /// consumer is registered. It is numbered with the count of earlier emissions.
    /// The flags say whether a consumer is registered, whether the emission waits,
    /// and whether it started.
    pub open spec fn emit_spec(self, event: E, arg: A) -> (SchedulerView<E, A, C>, (bool, bool, bool)) {
        let everything = event.interleaves_with_everything_spec(&arg);
        let s1 = if everything {
            self
        } else {
            self.clear_backlog_spec().0
        };
        let can_now = everything || !s1.has_earlier_dependence(event, arg);
        let n = self.emitted;
        let registered = self.consumers.contains_key(event);
        let s2 = if can_now {
            s1.with_launches(launch(s1, s1.launches(), n, event, arg))
        } else if registered {
            SchedulerView { backlog: s1.backlog.push((n, event, arg)), ..s1 }
        } else {
            s1
        };
        (
            SchedulerView { emitted: (n + 1) as usize, ..s2 },
            (registered, registered && !can_now, registered && can_now && !s1.tainted(n, event, arg)),
        )
    }
}

impl<E, A, C> SchedulerView<E, A, C> {
    /// Every emission held anywhere is numbered below the count of emissions.
    pub open spec fn bounded(self) -> bool {
        &&& forall|i: int| 0 <= i < self.running.len() ==> #[trigger] self.running[i].0 < self.emitted
        &&& forall|i: int| 0 <= i < self.backlog.len() ==> #[trigger] self.backlog[i].0 < self.emitted
        &&& forall|i: int| 0 <= i < self.panicked.len() ==> #[trigger] self.panicked[i].0 < self.emitted
    }
}

impl<E, A, C> SchedulerView<E, A, C> {
    /// A scheduler with nothing registered, emitted, running or waiting.
    pub open spec fn initial() -> Self {
        SchedulerView {
            consumers: Map::empty(),
            running: Seq::empty(),
            backlog: Seq::empty(),
            emitted: 0,
            panic_policy: PanicPolicy::PanicAgain,
            panicked: Seq::empty(),
            started: Seq::empty(),
        }
    }

    /// Registering `callback` for `event`: refused (`None`) while an emission of
    /// `event` waits; otherwise `Some` of whether `event` had no consumer before.
    pub open spec fn on_spec(self, event: E, callback: C) -> (Self, Option<bool>) {
        if self.backlog_uses(event) {
            (self, None)
        } else {
            (
                SchedulerView { consumers: self.consumers.insert(event, callback), ..self },
                Some(!self.consumers.contains_key(event)),
            )
        }
    }

    /// Removing the consumer of `event`: refused (`None`) while an emission of
    /// `event` waits; otherwise `Some` of whether there was a consumer to remove.
    pub open spec fn off_spec(self, event: E) -> (Self, Option<bool>) {
        if self.backlog_uses(event) {
            (self, None)
        } else {
            (
                SchedulerView { consumers: self.consumers.remove(event), ..self },
                Some(self.consumers.contains_key(event)),
            )
        }
    }
}

/// The numbers of the given emissions, in order.
pub open spec fn numbers<E, A>(entries: Seq<Entry<E, A>>) -> Seq<usize> {
    entries.map_values(|x: Entry<E, A>| x.0)
}

/// Index `k` is the first running emission numbered `pos` of `event`.
pub open spec fn first_match<E, A>(running: Seq<Entry<E, A>>, k: int, pos: usize, event: E) -> bool {
    &&& 0 <= k < running.len()
    &&& running[k].0 == pos && running[k].1 == event
    &&& forall|j: int| 0 <= j < k ==> !(#[trigger] running[j].0 == pos && running[j].1 == event)
}

/// Splitting `running` by the flags in `finished`: the emissions that keep
/// running (in order), and the finished ones from the last to the first.
pub open spec fn split_finished<E, A>(running: Seq<Entry<E, A>>, finished: Seq<bool>) -> (
    Seq<Entry<E, A>>,
    Seq<Entry<E, A>>,
)
    decreases running.len(),
{
    if running.len() == 0 {
        (running, running)
    } else {
        let (kept, done) = split_finished(running.drop_last(), finished.take(running.len() - 1));
        if finished[running.len() - 1] {
            (kept, seq![running.last()] + done)
        } else {
            (kept.push(running.last()), done)
        }
    }
}

impl<E: Interleaves<A>, A, C> SchedulerView<E, A, C> {
    /// The running emission numbered `pos` of `event` finished: the first such
    /// one stops running (`true`), or nothing changes when there is none (`false`).
    pub open spec fn task_done_spec(self, pos: usize, event: E) -> (Self, bool) {
        if exists|k: int| first_match(self.running, k, pos, event) {
            let k = choose|k: int| first_match(self.running, k, pos, event);
            (SchedulerView { running: self.running.remove(k), ..self }, true)
        } else {
            (self, false)
        }
    }

    /// The consumer of the running emission numbered `pos` of `event` panicked:
    /// the first such emission stops running; unless the policy is `PanicAgain`
    /// it is recorded as panicked, its own panic being the cause. Nothing
    /// changes when no such emission runs.
    pub open spec fn task_panicked_spec(self, pos: usize, event: E) -> (Self, PanicResponse) {
        if exists|k: int| first_match(self.running, k, pos, event) {
            let k = choose|k: int| first_match(self.running, k, pos, event);
            let x = self.running[k];
            let stopped = SchedulerView { running: self.running.remove(k), ..self };
            if self.panic_policy == PanicPolicy::PanicAgain {
                (stopped, PanicResponse::Propagate)
            } else {
                (
                    SchedulerView { panicked: self.panicked.push((x.0, x.1, x.2, x.0)), ..stopped },
                    PanicResponse::Recorded,
                )
            }
        } else {
            (self, PanicResponse::NotRunning)
        }
    }

    /// The running emissions flagged in `finished` stop running; they are
    /// returned from the last to the first.
    pub open spec fn clear_finished_spec(self, finished: Seq<bool>) -> (Self, Seq<Entry<E, A>>) {
        let (kept, done) = split_finished(self.running, finished);
        (SchedulerView { running: kept, ..self }, done)
    }

    /// One round of waiting for everything, given the numbers of the emissions
    /// that were running on the previous round: stop when nothing runs or waits;
    /// clear the backlog when the running ones changed or none runs; else sleep.
    /// Also gives the numbers of the emissions running now.
    pub open spec fn wait_round_spec(self, previous: Seq<usize>) -> (Self, Seq<usize>, WaitStep) {
        let now = numbers(self.running);
        if self.is_empty() {
            (self, now, WaitStep::Done)
        } else if now != previous || now.len() == 0 {
            let (s, moved) = self.clear_backlog_spec();
            (s, now, WaitStep::Cleared(moved))
        } else {
            (self, now, WaitStep::Sleep)
        }
    }

    /// One round of waiting for everything, once the finished emissions were
    /// collected: stop when nothing runs or waits; clear the backlog when
    /// something finished; else sleep.
    pub open spec fn wait_after_poll_spec(self, something_finished: bool) -> (Self, WaitStep) {
        if self.is_empty() {
            (self, WaitStep::Done)
        } else if something_finished {
            let (s, moved) = self.clear_backlog_spec();
            (s, WaitStep::Cleared(moved))
        } else {
            (self, WaitStep::Sleep)
        }
    }
}

/// Filtering keeps a sequence's emissions in increasing order of number, and
/// keeps only emissions of the sequence.
pub(crate) proof fn lemma_filter_sorted_subset<E, A>(s: Seq<Entry<E, A>>, p: spec_fn(Entry<E, A>) -> bool)
    requires
        forall|i: int, j: int| 0 <= i < j < s.len() ==> #[trigger] s[i].0 < #[trigger] s[j].0,
    ensures
        forall|i: int, j: int|
            0 <= i < j < s.filter(p).len() ==> #[trigger] s.filter(p)[i].0 < #[trigger] s.filter(
                p,
            )[j].0,
        forall|i: int| 0 <= i < s.filter(p).len() ==> s.contains(#[trigger] s.filter(p)[i]),
    decreases s.len(),
{
    reveal(Seq::filter);
    if s.len() > 0 {
        let d = s.drop_last();
        lemma_filter_sorted_subset(d, p);
        let fd = d.filter(p);
        let f = s.filter(p);
        assert forall|i: int| 0 <= i < fd.len() implies fd[i].0 < s.last().0 && s.contains(fd[i]) by {
            assert(d.contains(fd[i]));
            let k = choose|k: int| 0 <= k < d.len() && d[k] == fd[i];
            assert(s[k] == d[k]);
        }
        if p(s.last()) {
            assert(f == fd.push(s.last()));
            assert(s.contains(s[s.len() - 1]));
        } else {
            assert(f == fd);
        }
    }
}

/// Filtering a sequence with one more emission in front.
proof fn lemma_filter_prepend<T>(x: T, s: Seq<T>, p: spec_fn(T) -> bool)
    ensures
        (seq![x] + s).filter(p) == (if p(x) {
            seq![x] + s.filter(p)
        } else {
            s.filter(p)
        }),
{
    Seq::filter_distributes_over_add(seq![x], s, p);
    reveal_with_fuel(Seq::filter, 2);
    assert(seq![x].drop_last() =~= Seq::<T>::empty());
    if p(x) {
        assert(seq![x].filter(p) =~= seq![x]);
    } else {
        assert(seq![x].filter(p) =~= Seq::<T>::empty());
        assert(Seq::<T>::empty() + s.filter(p) =~= s.filter(p));
    }
}

/// The emission state behind an emitter.
#[verifier::reject_recursive_types(E)]
pub struct Scheduler<E, A, C> {
    consumers: HashMap<E, C>,
    running: Vec<Entry<E, A>>,
    backlog: Vec<Entry<E, A>>,
    emitted: usize,
    panic_policy: PanicPolicy,
    panicked: Vec<Tainted<E, A>>,
    started: Vec<(usize, C)>,
}

impl<E, A, C> View for Scheduler<E, A, C> {
    type V = SchedulerView<E, A, C>;

    closed spec fn view(&self) -> SchedulerView<E, A, C> {
        SchedulerView {
            consumers: self.consumers@,
            running: self.running@,
            backlog: self.backlog@,
            emitted: self.emitted,
            panic_policy: self.panic_policy,
            panicked: self.panicked@,
            started: self.started@,
        }
    }
}

impl<E: Eq + Hash + Clone + Interleaves<A>, A, C: Copy> Scheduler<E, A, C> {
    /// An empty scheduler whose panic policy is `PanicAgain`.
    pub fn new() -> (r: Self)
        requires
            obeys_key_laws::<E>(),
        ensures
            r@ == SchedulerView::<E, A, C>::initial(),
            r@.wf(),
    {
        Scheduler {
            consumers: HashMap::new(),
            running: Vec::new(),
            backlog: Vec::new(),
            emitted: 0,
            panic_policy: PanicPolicy::PanicAgain,
            panicked: Vec::new(),
            started: Vec::new(),
        }
    }

    pub fn reset_panic_policy(&mut self, panic_policy: PanicPolicy)
        requires
            old(self)@.wf(),
        ensures
            final(self)@ == (SchedulerView { panic_policy, ..old(self)@ }),
            final(self)@.wf(),
    {
        self.panic_policy = panic_policy;
    }

    pub fn is_empty(&self) -> (r: bool)
        ensures
            r == self@.is_empty(),
    {
        self.backlog.len() == 0 && self.running.len() == 0
    }

    pub fn count_running(&self) -> (r: usize)
        ensures
            r == self@.running.len(),
    {
        self.running.len()
    }

    pub fn count_waiting(&self) -> (r: usize)
        ensures
            r == self@.backlog.len(),
    {
        self.backlog.len()
    }

    /// Whether an emission of `event` waits in the backlog.
    pub fn backlog_uses_this(&self, event: &E) -> (r: bool)
        requires
            self@.wf(),
        ensures
            r == self@.backlog_uses(*event),
    {
        let n = self.backlog.len();
        let mut i: usize = 0;
        while i < n
            invariant
                n == self.backlog@.len(),
                i <= n,
                obeys_key_laws::<E>(),
                forall|j: int| 0 <= j < i ==> #[trigger] self.backlog@[j].1 != *event,
            decreases n - i,
        {
            if self.backlog[i].1 == *event {
                assert(self.backlog@[i as int].1.eq_spec(event));
                assert(self@.backlog[i as int].1 == *event);
                return true;
            }
            i = i + 1;
        }
        false
    }

    /// Register `callback` for `event`; see `on_spec`.
    pub fn on(&mut self, event: E, callback: C) -> (r: Result<bool, EmitterError>)
        requires
            old(self)@.wf(),
        ensures
            final(self)@ == old(self)@.on_spec(event, callback).0,
            final(self)@.wf(),
            r matches Ok(b) ==> old(self)@.on_spec(event, callback).1 == Some(b),
            r matches Err(m) ==> old(self)@.on_spec(event, callback).1 is None
                && m@ == "Already had a callback for that type of event and had some backlogs for it. Can't change it."@,
    {
        if self.backlog_uses_this(&event) {
            Err("Already had a callback for that type of event and had some backlogs for it. Can't change it.".to_string())
        } else {
            let old_callback = self.consumers.insert(event, callback);
            Ok(old_callback.is_none())
        }
    }

    /// Remove the consumer of `event`; see `off_spec`.
    pub fn off(&mut self, event: E) -> (r: Result<bool, EmitterError>)
        requires
            old(self)@.wf(),
        ensures
            final(self)@ == old(self)@.off_spec(event).0,
            final(self)@.wf(),
            r matches Ok(b) ==> old(self)@.off_spec(event).1 == Some(b),
            r matches Err(m) ==> old(self)@.off_spec(event).1 is None
                && m@ == "Already had a callback for that type of event and had some backlogs for it. Can't remove it."@,
    {
        if self.backlog_uses_this(&event) {
            Err("Already had a callback for that type of event and had some backlogs for it. Can't remove it.".to_string())
        } else {
            let removed = self.consumers.remove(&event);
            Ok(removed.is_some())
        }
    }
    /// Every event that has a consumer, each once.
    pub fn all_keys(&self) -> (r: Vec<E>)
        requires
            self@.wf(),
        ensures
            r@.to_set() == self@.consumers.dom(),
            r@.no_duplicates(),
            r@.len() == self@.consumers.dom().len(),
    {
        let mut keys: Vec<E> = Vec::new();
        let ghost order = self.consumers.keys().remaining().unref();
        for k in it: self.consumers.keys()
            invariant
                obeys_key_laws::<E>(),
                order == it.seq().unref(),
                keys@ == order.take(it.index()),
        {
            let c = k.clone();
            assert(cloned::<E>(*k, c));
            keys.push(c);
            assert(keys@ =~= order.take(it.index() + 1));
        }
        assert(keys@ =~= order);
        proof {
            let rem = self.consumers.keys().remaining();
            assert forall|i: int, j: int| 0 <= i < order.len() && 0 <= j < order.len() && i != j
                implies order[i] != order[j] by {
                assert(rem[i] != rem[j]);
            }
        }
        keys
    }

    /// Whether the backlog entry `b` may start now.
    fn waits_for_nothing(&self, b: &Entry<E, A>) -> (r: bool)
        ensures
            r == self@.is_ready(*b),
    {
        let n = self.running.len();
        let mut i: usize = 0;
        while i < n
            invariant
                n == self.running@.len(),
                i <= n,
                forall|j: int| 0 <= j < i ==> !waits_on(*b, #[trigger] self.running@[j]),
            decreases n - i,
        {
            let x = &self.running[i];
            if x.0 < b.0 && !b.1.do_interleave(&b.2, &x.1, &x.2) {
                assert(waits_on(*b, self@.running[i as int]));
                return false;
            }
            i = i + 1;
        }
        let m = self.backlog.len();
        let mut i: usize = 0;
        while i < m
            invariant
                m == self.backlog@.len(),
                i <= m,
                forall|j: int| 0 <= j < n ==> !waits_on(*b, #[trigger] self.running@[j]),
                forall|j: int| 0 <= j < i ==> !waits_on(*b, #[trigger] self.backlog@[j]),
            decreases m - i,
        {
            let x = &self.backlog[i];
            if x.0 < b.0 && !b.1.do_interleave(&b.2, &x.1, &x.2) {
                assert(waits_on(*b, self@.backlog[i as int]));
                return false;
            }
            i = i + 1;
        }
        true
    }

    /// Start the emission numbered `absolute_pos` now, unless its consumer is
    /// missing or an earlier panic taints it; returns whether a consumer is
    /// registered and whether the emission started.
    fn unchecked_emit(&mut self, absolute_pos: usize, event: E, arg: A) -> (r: (bool, bool))
        requires
            obeys_key_laws::<E>(),
        ensures
            final(self)@ == old(self)@.with_launches(
                launch(old(self)@, old(self)@.launches(), absolute_pos, event, arg),
            ),
            old(self)@.bounded() && absolute_pos < old(self)@.emitted ==> final(self)@.bounded(),
            r.0 == old(self)@.consumers.contains_key(event),
            r.1 == (old(self)@.consumers.contains_key(event) && !old(self)@.tainted(
                absolute_pos,
                event,
                arg,
            )),
    {
        let looked_up: Option<C> = match self.consumers.get(&event) {
            Some(to_do) => Some(*to_do),
            None => None,
        };
        match looked_up {
            None => (false, false),
            Some(to_do_fun) => {
                match self.panic_policy {
                    PanicPolicy::StoreButSubsequentProblem => {
                        let n = self.panicked.len();
                        let mut k: usize = 0;
                        while k < n
                            invariant
                                self@ == old(self)@,
                                old(self)@.consumers.contains_key(event),
                                old(self)@.consumers[event] == to_do_fun,
                                old(self)@.panic_policy == PanicPolicy::StoreButSubsequentProblem,
                                n == self.panicked@.len(),
                                k <= n,
                                forall|j: int|
                                    0 <= j < k ==> !taints(
                                        #[trigger] self.panicked@[j],
                                        absolute_pos,
                                        event,
                                        arg,
                                    ),
                            decreases n - k,
                        {
                            let x = &self.panicked[k];
                            if x.0 < absolute_pos && !x.1.do_interleave(&x.2, &event, &arg) {
                                let by = x.0;
                                proof {
                                    let pk = self@.panicked;
                                    assert(first_taint(pk, k as int, absolute_pos, event, arg));
                                    assert forall|k2: int|
                                        first_taint(pk, k2, absolute_pos, event, arg) implies k2
                                        == k by {
                                        if k2 < k {
                                            assert(!taints(pk[k2], absolute_pos, event, arg));
                                        }
                                        if k2 > k {
                                            assert(!taints(pk[k as int], absolute_pos, event, arg));
                                        }
                                    }
                                }
                                self.panicked.push((absolute_pos, event, arg, by));
                                return (true, false);
                            }
                            k = k + 1;
                        }
                    },
                    _ => {},
                }
                self.running.push((absolute_pos, event, arg));
                self.started.push((absolute_pos, to_do_fun));
                (true, true)
            },
        }
    }

    /// Move every emission in the backlog that no longer has to wait into the
    /// running ones (latest first); returns whether any moved.
    fn clear_backlog(&mut self) -> (r: bool)
        requires
            old(self)@.wf(),
        ensures
            final(self)@ == old(self)@.clear_backlog_spec().0,
            r == old(self)@.clear_backlog_spec().1,
            final(self)@.wf(),
    {
        let ghost snap = self@;
        let ghost keep = snap.must_wait();
        let n = self.backlog.len();
        let mut ready: Vec<bool> = Vec::new();
        let mut i: usize = 0;
        while i < n
            invariant
                self@ == snap,
                n == snap.backlog.len(),
                i <= n,
                ready@.len() == i,
                forall|j: int| 0 <= j < i ==> #[trigger] ready@[j] == snap.is_ready(snap.backlog[j]),
            decreases n - i,
        {
            let r = self.waits_for_nothing(&self.backlog[i]);
            ready.push(r);
            i = i + 1;
        }
        let mut any = false;
        let mut i: usize = n;
        proof {
            assert(snap.backlog.take(n as int) =~= snap.backlog);
            assert(snap.backlog.skip(n as int) =~= Seq::<Entry<E, A>>::empty());
            reveal_with_fuel(Seq::filter, 1);
            assert(self@.backlog =~= snap.backlog.take(n as int) + snap.backlog.skip(n as int).filter(keep));
        }
        while i > 0
            invariant
                snap.wf(),
                keep == snap.must_wait(),
                n == snap.backlog.len(),
                i <= n,
                ready@.len() == n,
                forall|j: int| 0 <= j < n ==> #[trigger] ready@[j] == snap.is_ready(snap.backlog[j]),
                self@.consumers == snap.consumers,
                self@.emitted == snap.emitted,
                self@.panic_policy == snap.panic_policy,
                self@.bounded(),
                self@.backlog == snap.backlog.take(i as int) + snap.backlog.skip(i as int).filter(keep),
                launch_ready_desc(snap, self@.launches(), snap.backlog.take(i as int))
                    == launch_ready_desc(snap, snap.launches(), snap.backlog),
                any == exists|j: int| i <= j < n && snap.is_ready(#[trigger] snap.backlog[j]),
            decreases i,
        {
            let ghost before = self@;
            i = i - 1;
            let ghost x = snap.backlog[i as int];
            proof {
                assert(snap.backlog.skip(i as int) =~= seq![x] + snap.backlog.skip(i + 1));
                lemma_filter_prepend(x, snap.backlog.skip(i + 1), keep);
                assert(snap.backlog.take(i + 1).drop_last() =~= snap.backlog.take(i as int));
                assert(snap.backlog.take(i + 1).last() == x);
            }
            let ghost tail = snap.backlog.skip(i + 1).filter(keep);
            assert(keep(x) == !snap.is_ready(x));
            assert(self@.backlog == snap.backlog.take(i + 1) + tail);
            if ready[i] {
                assert(snap.backlog.skip(i as int).filter(keep) == tail);
                assert(self.backlog@[i as int] == x);
                let item = self.backlog.remove(i);
                assert(self@.backlog =~= snap.backlog.take(i as int) + tail);
                let ghost mid = self@;
                assert(mid.launches() == before.launches());
                assert(mid.consumers == snap.consumers);
                assert(mid.panic_policy == snap.panic_policy);
                self.unchecked_emit(item.0, item.1, item.2);
                assert(launch(mid, mid.launches(), x.0, x.1, x.2) == launch(
                    snap,
                    before.launches(),
                    x.0,
                    x.1,
                    x.2,
                ));
                any = true;
            } else {
                assert(snap.backlog.skip(i as int).filter(keep) == seq![x] + tail);
                assert(self@.backlog =~= snap.backlog.take(i as int) + (seq![x] + tail));
            }
        }
        proof {
            assert(snap.backlog.take(0) =~= Seq::<Entry<E, A>>::empty());
            assert(snap.backlog.skip(0) =~= snap.backlog);
            assert(self@.backlog =~= snap.still_waiting());
            lemma_filter_sorted_subset(snap.backlog, keep);
            let w = snap.still_waiting();
            assert forall|j: int| 0 <= j < w.len() implies w[j].0 < snap.emitted
                && snap.consumers.contains_key(#[trigger] w[j].1) by {
                assert(snap.backlog.contains(w[j]));
            }
        }
        any
    }

    /// Clear the backlog, then report whether some pending emission keeps a new
    /// emission of `event` with `arg` from starting.
    fn any_earlier_normal_dependences(&mut self, event: &E, arg: &A) -> (r: bool)
        requires
            old(self)@.wf(),
        ensures
            final(self)@ == old(self)@.clear_backlog_spec().0,
            r == final(self)@.has_earlier_dependence(*event, *arg),
            final(self)@.wf(),
    {
        self.clear_backlog();
        let ghost cleared = self@;
        let n = self.backlog.len();
        let mut i: usize = 0;
        while i < n
            invariant
                self@ == cleared,
                cleared == old(self)@.clear_backlog_spec().0,
                cleared.wf(),
                n == self.backlog@.len(),
                i <= n,
                forall|j: int| 0 <= j < i ==> !blocks_new(#[trigger] self.backlog@[j], *event, *arg),
            decreases n - i,
        {
            let x = &self.backlog[i];
            if !x.1.do_interleave(&x.2, event, arg) {
                assert(blocks_new(self@.backlog[i as int], *event, *arg));
                return true;
            }
            i = i + 1;
        }
        let m = self.running.len();
        let mut i: usize = 0;
        while i < m
            invariant
                self@ == cleared,
                cleared == old(self)@.clear_backlog_spec().0,
                cleared.wf(),
                n == self.backlog@.len(),
                m == self.running@.len(),
                i <= m,
                forall|j: int| 0 <= j < n ==> !blocks_new(#[trigger] self.backlog@[j], *event, *arg),
                forall|j: int| 0 <= j < i ==> !blocks_new(#[trigger] self.running@[j], *event, *arg),
            decreases m - i,
        {
            let x = &self.running[i];
            if !x.1.do_interleave(&x.2, event, arg) {
                assert(blocks_new(self@.running[i as int], *event, *arg));
                return true;
            }
            i = i + 1;
        }
        false
    }

    /// Emit `event` with `arg`; see `emit_spec`. Returns whether a consumer is
    /// registered, whether the emission waits for later, and whether it started.
    pub fn emit(&mut self, event: E, arg: A) -> (r: (bool, bool, bool))
        requires
            old(self)@.wf(),
            old(self)@.emitted < usize::MAX,
        ensures
            (final(self)@, r) == old(self)@.emit_spec(event, arg),
            final(self)@.wf(),
    {
        let can_do_now = if event.interleaves_with_everything(&arg) {
            true
        } else {
            !self.any_earlier_normal_dependences(&event, &arg)
        };
        let n = self.emitted;
        let ghost cleared = self@;
        self.emitted = n + 1;
        assert(self@.bounded()) by {
            assert forall|i: int| 0 <= i < self@.running.len() implies #[trigger] self@.running[i].0
                < self@.emitted by {
                assert(cleared.running[i].0 < n);
            }
            assert forall|i: int| 0 <= i < self@.backlog.len() implies #[trigger] self@.backlog[i].0
                < self@.emitted by {
                assert(cleared.backlog[i].0 < n);
            }
            assert forall|i: int| 0 <= i < self@.panicked.len() implies #[trigger] self@.panicked[i].0
                < self@.emitted by {
                assert(cleared.panicked[i].0 < n);
            }
        }
        let (exists, will_spawn_later, spawned_already) = if can_do_now {
            let (exists, spawned) = self.unchecked_emit(n, event, arg);
            (exists, false, spawned)
        } else if self.consumers.contains_key(&event) {
            let ghost before = self@;
            self.backlog.push((n, event, arg));
            assert forall|i: int, j: int| 0 <= i < j < self@.backlog.len() implies #[trigger] self@.backlog[i].0
                < #[trigger] self@.backlog[j].0 by {
                if j < before.backlog.len() {
                    assert(before.backlog[i].0 < before.backlog[j].0);
                } else {
                    assert(before.backlog[i].0 < n);
                }
            }
            (true, true, false)
        } else {
            (false, false, false)
        };
        (exists, will_spawn_later, spawned_already)
    }

    /// Hand out the consumers started since the last call, each with the number
    /// of its emission, in the order they started.
    pub fn take_started(&mut self) -> (r: Vec<(usize, C)>)
        requires
            old(self)@.wf(),
        ensures
            r@ == old(self)@.started,
            final(self)@ == (SchedulerView { started: Seq::empty(), ..old(self)@ }),
            final(self)@.wf(),
    {
        let mut out: Vec<(usize, C)> = Vec::new();
        std::mem::swap(&mut out, &mut self.started);
        out
    }

    /// The first running emission numbered `pos`.
    pub fn running_entry(&self, pos: usize) -> (r: Option<&Entry<E, A>>)
        ensures
            r matches Some(x) ==> exists|k: int|
                0 <= k < self@.running.len() && self@.running[k] == *x && x.0 == pos
                    && forall|j: int| 0 <= j < k ==> #[trigger] self@.running[j].0 != pos,
            r is None ==> forall|j: int| 0 <= j < self@.running.len() ==> #[trigger] self@.running[j].0 != pos,
    {
        let n = self.running.len();
        let mut i: usize = 0;
        while i < n
            invariant
                n == self.running@.len(),
                i <= n,
                forall|j: int| 0 <= j < i ==> #[trigger] self@.running[j].0 != pos,
            decreases n - i,
        {
            if self.running[i].0 == pos {
                assert(0 <= i < self@.running.len() && self@.running[i as int] == self@.running[i as int]
                    && forall|j: int| 0 <= j < i ==> #[trigger] self@.running[j].0 != pos);
                return Some(&self.running[i]);
            }
            i = i + 1;
        }
        None
    }

    /// The numbers of the running emissions, in order.
    pub fn running_numbers(&self) -> (r: Vec<usize>)
        ensures
            r@ == numbers(self@.running),
    {
        let n = self.running.len();
        let mut out: Vec<usize> = Vec::new();
        let mut i: usize = 0;
        while i < n
            invariant
                n == self.running@.len(),
                i <= n,
                out@ == numbers(self@.running.take(i as int)),
            decreases n - i,
        {
            out.push(self.running[i].0);
            i = i + 1;
            assert(numbers(self@.running.take(i as int)) =~= numbers(self@.running.take(i - 1)).push(
                self@.running[i - 1].0,
            ));
        }
        assert(self@.running.take(n as int) =~= self@.running);
        out
    }

    /// Where the first running emission numbered `pos` of `event` stands, if any.
    fn find_running(&self, pos: usize, event: &E) -> (r: Option<usize>)
        requires
            self@.wf(),
        ensures
            r matches Some(i) ==> first_match(self@.running, i as int, pos, *event),
            r is None ==> !exists|k: int| first_match(self@.running, k, pos, *event),
    {
        let n = self.running.len();
        let mut i: usize = 0;
        while i < n
            invariant
                self@.wf(),
                n == self.running@.len(),
                i <= n,
                forall|j: int|
                    0 <= j < i ==> !(#[trigger] self@.running[j].0 == pos && self@.running[j].1
                        == *event),
            decreases n - i,
        {
            if self.running[i].0 == pos && self.running[i].1 == *event {
                proof {
                    assert(self@.running[i as int].1.eq_spec(event));
                }
                return Some(i);
            } else {
                proof {
                    if self.running[i as int].0 == pos {
                        assert(!self.running@[i as int].1.eq_spec(event));
                    }
                }
            }
            i = i + 1;
        }
        None
    }

    /// The running emission numbered `pos` of `event` finished; see `task_done_spec`.
    pub fn task_done(&mut self, pos: usize, event: &E) -> (r: bool)
        requires
            old(self)@.wf(),
        ensures
            (final(self)@, r) == old(self)@.task_done_spec(pos, *event),
            final(self)@.wf(),
    {
        match self.find_running(pos, event) {
            None => false,
            Some(i) => {
                let ghost run = self@.running;
                proof {
                    assert forall|k2: int| first_match(run, k2, pos, *event) implies k2 == i by {
                        if k2 < i {
                            assert(!(run[k2].0 == pos && run[k2].1 == *event));
                        }
                        if k2 > i {
                            assert(!(run[i as int].0 == pos && run[i as int].1 == *event));
                        }
                    }
                }
                self.running.remove(i);
                assert forall|j: int| 0 <= j < self@.running.len() implies #[trigger] self@.running[j].0
                    < self@.emitted by {
                    if j < i {
                        assert(self@.running[j] == run[j]);
                    } else {
                        assert(self@.running[j] == run[j + 1]);
                    }
                }
                true
            },
        }
    }

    /// The consumer of the running emission numbered `pos` of `event` panicked;
    /// see `task_panicked_spec`.
    pub fn task_panicked(&mut self, pos: usize, event: &E) -> (r: PanicResponse)
        requires
            old(self)@.wf(),
        ensures
            (final(self)@, r) == old(self)@.task_panicked_spec(pos, *event),
            final(self)@.wf(),
    {
        match self.find_running(pos, event) {
            None => PanicResponse::NotRunning,
            Some(i) => {
                let ghost run = self@.running;
                proof {
                    assert forall|k2: int| first_match(run, k2, pos, *event) implies k2 == i by {
                        if k2 < i {
                            assert(!(run[k2].0 == pos && run[k2].1 == *event));
                        }
                        if k2 > i {
                            assert(!(run[i as int].0 == pos && run[i as int].1 == *event));
                        }
                    }
                }
                let x = self.running.remove(i);
                assert(x == run[i as int]);
                assert forall|j: int| 0 <= j < self@.running.len() implies #[trigger] self@.running[j].0
                    < self@.emitted by {
                    if j < i {
                        assert(self@.running[j] == run[j]);
                    } else {
                        assert(self@.running[j] == run[j + 1]);
                    }
                }
                match self.panic_policy {
                    PanicPolicy::PanicAgain => PanicResponse::Propagate,
                    _ => {
                        let ghost before = self@.panicked;
                        self.panicked.push((x.0, x.1, x.2, x.0));
                        assert forall|j: int| 0 <= j < self@.panicked.len() implies #[trigger] self@.panicked[j].0
                            < self@.emitted by {
                            if j < before.len() {
                                assert(self@.panicked[j] == before[j]);
                            }
                        }
                        PanicResponse::Recorded
                    },
                }
            },
        }
    }

    /// The running emissions flagged in `finished` (one flag per running
    /// emission, in order) stop running; see `clear_finished_spec`.
    pub fn clear_finished(&mut self, finished: &Vec<bool>) -> (r: Vec<Entry<E, A>>)
        requires
            old(self)@.wf(),
            finished@.len() == old(self)@.running.len(),
        ensures
            (final(self)@, r@) == old(self)@.clear_finished_spec(finished@),
            final(self)@.wf(),
    {
        let ghost start = self@;
        let ghost full = split_finished(start.running, finished@);
        let n = self.running.len();
        let mut out: Vec<Entry<E, A>> = Vec::new();
        let mut i: usize = n;
        proof {
            assert(start.running.take(n as int) =~= start.running);
            assert(finished@.take(n as int) =~= finished@);
            assert(self@.running.skip(n as int) =~= Seq::<Entry<E, A>>::empty());
            assert(full.0 + self@.running.skip(n as int) =~= full.0);
            assert(out@ + full.1 =~= full.1);
        }
        while i > 0
            invariant
                start.wf(),
                full == split_finished(start.running, finished@),
                n == start.running.len(),
                finished@.len() == n,
                i <= n,
                i <= self@.running.len(),
                self@ == (SchedulerView { running: self@.running, ..start }),
                self@.running.take(i as int) == start.running.take(i as int),
                full.0 == split_finished(start.running.take(i as int), finished@.take(i as int)).0
                    + self@.running.skip(i as int),
                full.1 == out@ + split_finished(start.running.take(i as int), finished@.take(i as int)).1,
                forall|j: int| 0 <= j < self@.running.len() ==> #[trigger] self@.running[j].0 < start.emitted,
            decreases i,
        {
            let ghost run_before = self@.running;
            let ghost out_before = out@;
            let ghost prefix = start.running.take(i as int);
            i = i - 1;
            let ghost x = start.running[i as int];
            let ghost sub = split_finished(start.running.take(i as int), finished@.take(i as int));
            proof {
                assert(prefix.drop_last() =~= start.running.take(i as int));
                assert(finished@.take(i + 1).take(i as int) =~= finished@.take(i as int));
                assert(prefix.last() == x);
                assert(finished@.take(i + 1)[i as int] == finished@[i as int]);
                assert(run_before[i as int] == x);
            }
            if finished[i] {
                let y = self.running.remove(i);
                out.push(y);
                proof {
                    assert(run_before.skip(i + 1) =~= self@.running.skip(i as int));
                    assert(out@ + sub.1 =~= out_before + (seq![x] + sub.1));
                }
            } else {
                proof {
                    assert(run_before.skip(i as int) =~= seq![x] + run_before.skip(i + 1));
                    assert(sub.0.push(x) + run_before.skip(i + 1) =~= sub.0 + run_before.skip(i as int));
                }
            }
            assert(self@.running.take(i as int) =~= start.running.take(i as int));
            assert forall|j: int| 0 <= j < self@.running.len() implies #[trigger] self@.running[j].0
                < start.emitted by {
                if j < i || !finished@[i as int] {
                    assert(self@.running[j] == run_before[j]);
                } else {
                    assert(self@.running[j] == run_before[j + 1]);
                }
            }
        }
        proof {
            assert(start.running.take(0) =~= Seq::<Entry<E, A>>::empty());
            assert(finished@.take(0) =~= Seq::<bool>::empty());
            assert(self@.running.skip(0) =~= self@.running);
            assert(Seq::<Entry<E, A>>::empty() + self@.running =~= self@.running);
            assert(out@ + Seq::<Entry<E, A>>::empty() =~= out@);
        }
        out
    }

    /// One round of waiting for everything; see `wait_round_spec`.
    pub fn wait_round(&mut self, finished_nums: &mut Vec<usize>) -> (r: WaitStep)
        requires
            old(self)@.wf(),
        ensures
            (final(self)@, final(finished_nums)@, r) == old(self)@.wait_round_spec(old(finished_nums)@),
            final(self)@.wf(),
    {
        let new_nums = self.running_numbers();
        let n = new_nums.len();
        let mut same = n == finished_nums.len();
        let mut i: usize = 0;
        while same && i < n
            invariant
                n == new_nums@.len(),
                i <= n,
                same ==> n == finished_nums@.len(),
                same ==> forall|j: int| 0 <= j < i ==> new_nums@[j] == finished_nums@[j],
                !same ==> new_nums@ != finished_nums@,
            decreases n - i,
        {
            if new_nums[i] != finished_nums[i] {
                same = false;
            }
            i = i + 1;
        }
        assert(same ==> new_nums@ =~= finished_nums@);
        let something_finished = !same;
        *finished_nums = new_nums;
        if self.is_empty() {
            WaitStep::Done
        } else if something_finished || finished_nums.len() == 0 {
            let moved = self.clear_backlog();
            WaitStep::Cleared(moved)
        } else {
            WaitStep::Sleep
        }
    }

    /// One round of waiting for everything after collecting finished emissions;
    /// see `wait_after_poll_spec`.
    pub fn wait_after_poll(&mut self, something_finished: bool) -> (r: WaitStep)
        requires
            old(self)@.wf(),
        ensures
            (final(self)@, r) == old(self)@.wait_after_poll_spec(something_finished),
            final(self)@.wf(),
    {
        if self.is_empty() {
            WaitStep::Done
        } else if something_finished {
            let moved = self.clear_backlog();
            WaitStep::Cleared(moved)
        } else {
            WaitStep::Sleep
        }
    }

    /// The current panic policy.
    pub fn panic_policy(&self) -> (r: PanicPolicy)
        ensures
            r == self@.panic_policy,
    {
        match self.panic_policy {
            PanicPolicy::PanicAgain => PanicPolicy::PanicAgain,
            PanicPolicy::StoreButNoSubsequentProblem => PanicPolicy::StoreButNoSubsequentProblem,
            PanicPolicy::StoreButSubsequentProblem => PanicPolicy::StoreButSubsequentProblem,
        }
    }

    /// How many emissions are recorded as panicked.
    pub fn count_panicked(&self) -> (r: usize)
        ensures
            r == self@.panicked.len(),
    {
        self.panicked.len()
    }

    /// How many emissions there were.
    pub fn emitted(&self) -> (r: usize)
        ensures
            r == self@.emitted,
    {
        self.emitted
    }
}

} // verus!
