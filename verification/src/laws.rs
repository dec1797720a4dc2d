//! Properties of the scheduling that hold across operations and over every state.
use vstd::prelude::*;

use crate::general_emitter::{PanicPolicy, PanicResponse, WaitStep};
use crate::interleaving::Interleaves;
use crate::scheduler::{
    blocks_new, first_match, first_taint, split_finished, launch, launch_ready_desc, lemma_filter_sorted_subset, taints,
    obeys_key_laws, taint_applies, waits_on, Entry, Launches, SchedulerView, Tainted,
};

verus! {

/// How many emissions a state holds: running, waiting, or recorded as panicked.
pub open spec fn held<E, A, C>(s: SchedulerView<E, A, C>) -> int {
    s.running.len() + s.backlog.len() + s.panicked.len() as int
}

/// Launching one emission whose consumer is registered adds it either to the
/// running ones or to the panicked ones, and keeps what was there.
proof fn lemma_launch_one<E: Interleaves<A>, A, C>(
    s: SchedulerView<E, A, C>,
    l: Launches<E, A, C>,
    pos: usize,
    event: E,
    arg: A,
)
    requires
        s.consumers.contains_key(event),
    ensures
        ({
            let r = launch(s, l, pos, event, arg);
            &&& (r.running == l.running.push((pos, event, arg)) && r.panicked == l.panicked)
                || (r.running == l.running && r.panicked.len() == l.panicked.len() + 1
                && r.panicked.take(l.panicked.len() as int) == l.panicked)
            &&& s.panic_policy != PanicPolicy::StoreButSubsequentProblem ==> r.panicked == l.panicked
        }),
{
    let r = launch(s, l, pos, event, arg);
    if r.panicked.len() == l.panicked.len() + 1 {
        assert(r.panicked.take(l.panicked.len() as int) =~= l.panicked);
    }
}

/// Starting the ready emissions of `items`: the running emissions are kept and
/// extended only by ready emissions of `items`, every ready emission of `items`
/// is accounted for once, and nothing recorded as panicked is lost.
proof fn lemma_launch_ready_desc<E: Interleaves<A>, A, C>(
    snap: SchedulerView<E, A, C>,
    l: Launches<E, A, C>,
    items: Seq<Entry<E, A>>,
)
    requires
        forall|i: int| 0 <= i < items.len() ==> snap.consumers.contains_key(#[trigger] items[i].1),
    ensures
        ({
            let r = launch_ready_desc(snap, l, items);
            &&& r.running.len() >= l.running.len()
            &&& r.running.take(l.running.len() as int) == l.running
            &&& forall|i: int|
                l.running.len() <= i < r.running.len() ==> snap.is_ready(#[trigger] r.running[i])
                    && items.contains(r.running[i])
            &&& r.panicked.len() >= l.panicked.len()
            &&& r.panicked.take(l.panicked.len() as int) == l.panicked
            &&& r.running.len() - l.running.len() + r.panicked.len() - l.panicked.len()
                == items.len() - items.filter(snap.must_wait()).len()
            &&& snap.panic_policy != PanicPolicy::StoreButSubsequentProblem ==> r.panicked == l.panicked
        }),
    decreases items.len(),
{
    reveal(Seq::filter);
    if items.len() > 0 {
        let b = items.last();
        let d = items.drop_last();
        assert(snap.consumers.contains_key(items[items.len() - 1].1));
        let l1 = if snap.is_ready(b) {
            launch(snap, l, b.0, b.1, b.2)
        } else {
            l
        };
        if snap.is_ready(b) {
            lemma_launch_one(snap, l, b.0, b.1, b.2);
        }
        assert forall|i: int| 0 <= i < d.len() implies snap.consumers.contains_key(#[trigger] d[i].1) by {
            assert(d[i] == items[i]);
        }
        lemma_launch_ready_desc(snap, l1, d);
        let r = launch_ready_desc(snap, l, items);
        assert(r == launch_ready_desc(snap, l1, d));
        assert(r.running.take(l1.running.len() as int) == l1.running);
        assert(r.running.take(l.running.len() as int) =~= l.running) by {
            assert(r.running.take(l1.running.len() as int).take(l.running.len() as int) =~= r.running.take(
                l.running.len() as int,
            ));
            if l1.running.len() > l.running.len() {
                assert(l1.running.take(l.running.len() as int) =~= l.running);
            }
        }
        assert(r.panicked.take(l.panicked.len() as int) =~= l.panicked) by {
            assert(r.panicked.take(l1.panicked.len() as int).take(l.panicked.len() as int) =~= r.panicked.take(
                l.panicked.len() as int,
            ));
            if l1.panicked.len() > l.panicked.len() {
                assert(l1.panicked.take(l.panicked.len() as int) =~= l.panicked);
            }
        }
        assert forall|i: int| l.running.len() <= i < r.running.len() implies snap.is_ready(
            #[trigger] r.running[i],
        ) && items.contains(r.running[i]) by {
            if i >= l1.running.len() {
                assert(d.contains(r.running[i]));
                let k = choose|k: int| 0 <= k < d.len() && d[k] == r.running[i];
                assert(items[k] == d[k]);
            } else {
                assert(i == l.running.len());
                assert(l1.running[i] == b);
                assert(r.running.take(l1.running.len() as int)[i] == r.running[i]);
                assert(items[items.len() - 1] == b);
            }
        }
    }
}

/// Clearing the backlog never stops a running emission, and every emission it
/// starts had nothing emitted before it, that it does not interleave with,
/// still running or waiting. Nothing is lost: every emission that left the
/// backlog now runs or is recorded as panicked.
pub proof fn law_clear_backlog_starts_only_ready<E: Interleaves<A> + PartialEq + Clone, A, C>(s: SchedulerView<E, A, C>)
    requires
        s.wf(),
    ensures
        ({
            let t = s.clear_backlog_spec().0;
            &&& t.running.len() >= s.running.len()
            &&& t.running.take(s.running.len() as int) == s.running
            &&& forall|i: int|
                s.running.len() <= i < t.running.len() ==> s.is_ready(#[trigger] t.running[i])
                    && s.backlog.contains(t.running[i])
            &&& held(t) == held(s)
        }),
{
    let l = launch_ready_desc(s, s.launches(), s.backlog);
    assert forall|i: int| 0 <= i < s.backlog.len() implies s.consumers.contains_key(
        #[trigger] s.backlog[i].1,
    ) by {}
    lemma_launch_ready_desc(s, s.launches(), s.backlog);
}


/// The earlier emission `x` and the later emission `y` may run at the same time:
/// `y` interleaves with everything, or one of them interleaves with the other.
pub open spec fn may_overlap<E: Interleaves<A>, A>(x: Entry<E, A>, y: Entry<E, A>) -> bool {
    ||| y.1.interleaves_with_everything_spec(&y.2)
    ||| x.1.interleave_spec(&x.2, &y.1, &y.2)
    ||| y.1.interleave_spec(&y.2, &x.1, &x.2)
}

/// Whatever runs at the same time may overlap, and whatever started while an
/// earlier emission was waiting may overlap with it.
pub open spec fn overlap_safe<E: Interleaves<A>, A, C>(s: SchedulerView<E, A, C>) -> bool {
    &&& forall|i: int, j: int|
        0 <= i < s.running.len() && 0 <= j < s.running.len() && s.running[i].0 < s.running[j].0
            ==> may_overlap(#[trigger] s.running[i], #[trigger] s.running[j])
    &&& forall|i: int, j: int|
        0 <= i < s.backlog.len() && 0 <= j < s.running.len() && s.backlog[i].0 < s.running[j].0
            ==> may_overlap(#[trigger] s.backlog[i], #[trigger] s.running[j])
}

/// Clearing the backlog keeps every pair of emissions that run together safe.
pub proof fn law_clear_backlog_overlap_safe<E: Interleaves<A> + PartialEq + Clone, A, C>(
    s: SchedulerView<E, A, C>,
)
    requires
        s.wf(),
        overlap_safe(s),
    ensures
        overlap_safe(s.clear_backlog_spec().0),
{
    let t = s.clear_backlog_spec().0;
    law_clear_backlog_starts_only_ready(s);
    let n = s.running.len() as int;
    lemma_filter_sorted_subset(s.backlog, s.must_wait());
    assert forall|i: int, j: int|
        0 <= i < t.running.len() && 0 <= j < t.running.len() && t.running[i].0 < t.running[j].0
        implies may_overlap(#[trigger] t.running[i], #[trigger] t.running[j]) by {
        let x = t.running[i];
        let y = t.running[j];
        if i < n {
            assert(t.running.take(n)[i] == x);
        }
        if j < n {
            assert(t.running.take(n)[j] == y);
        }
        if i < n && j < n {
            assert(s.running[i] == x && s.running[j] == y);
        } else if i < n {
            assert(s.is_ready(y));
            assert(!waits_on(y, s.running[i]));
        } else if j < n {
            assert(s.backlog.contains(x));
            let k = choose|k: int| 0 <= k < s.backlog.len() && s.backlog[k] == x;
            assert(s.running[j] == y);
            assert(may_overlap(s.backlog[k], s.running[j]));
        } else {
            assert(s.backlog.contains(x));
            let k = choose|k: int| 0 <= k < s.backlog.len() && s.backlog[k] == x;
            assert(s.is_ready(y));
            assert(!waits_on(y, s.backlog[k]));
        }
    }
    assert forall|i: int, j: int|
        0 <= i < t.backlog.len() && 0 <= j < t.running.len() && t.backlog[i].0 < t.running[j].0
        implies may_overlap(#[trigger] t.backlog[i], #[trigger] t.running[j]) by {
        let w = t.backlog[i];
        let y = t.running[j];
        assert(s.backlog.contains(w));
        let k = choose|k: int| 0 <= k < s.backlog.len() && s.backlog[k] == w;
        if j < n {
            assert(t.running.take(n)[j] == y);
            assert(s.running[j] == y);
            assert(may_overlap(s.backlog[k], s.running[j]));
        } else {
            assert(s.is_ready(y));
            assert(!waits_on(y, s.backlog[k]));
        }
    }
}


/// Emitting keeps every pair of emissions that run together safe: a new
/// emission starts only if it interleaves with everything, or every emission
/// running or waiting beside it interleaves with it.
pub proof fn law_emit_overlap_safe<E: Interleaves<A> + PartialEq + Clone, A, C>(
    s: SchedulerView<E, A, C>,
    event: E,
    arg: A,
)
    requires
        s.wf(),
        overlap_safe(s),
        s.emitted < usize::MAX,
    ensures
        overlap_safe(s.emit_spec(event, arg).0),
{
    let everything = event.interleaves_with_everything_spec(&arg);
    let s1 = if everything {
        s
    } else {
        s.clear_backlog_spec().0
    };
    if !everything {
        law_clear_backlog_overlap_safe(s);
        law_clear_backlog_starts_only_ready(s);
        lemma_filter_sorted_subset(s.backlog, s.must_wait());
    }
    assert forall|i: int| 0 <= i < s1.running.len() implies #[trigger] s1.running[i].0 < s.emitted by {
        if !everything {
            let n = s.running.len() as int;
            if i < n {
                assert(s1.running.take(n)[i] == s1.running[i]);
            } else {
                assert(s.backlog.contains(s1.running[i]));
            }
        }
    }
    assert forall|i: int| 0 <= i < s1.backlog.len() implies #[trigger] s1.backlog[i].0 < s.emitted by {
        if !everything {
            assert(s.backlog.contains(s1.backlog[i]));
        }
    }
    let t = s.emit_spec(event, arg).0;
    let y = (s.emitted, event, arg);
    let can_now = everything || !s1.has_earlier_dependence(event, arg);
    if can_now && s.consumers.contains_key(event) && !s1.tainted(s.emitted, event, arg) {
        assert(t.running == s1.running.push(y));
        assert(t.backlog == s1.backlog);
        assert forall|i: int, j: int|
            0 <= i < t.running.len() && 0 <= j < t.running.len() && t.running[i].0 < t.running[j].0
            implies may_overlap(#[trigger] t.running[i], #[trigger] t.running[j]) by {
            if j == s1.running.len() {
                if !everything {
                    assert(!blocks_new(s1.running[i], event, arg));
                }
            } else {
                assert(i != s1.running.len());
            }
        }
        assert forall|i: int, j: int|
            0 <= i < t.backlog.len() && 0 <= j < t.running.len() && t.backlog[i].0 < t.running[j].0
            implies may_overlap(#[trigger] t.backlog[i], #[trigger] t.running[j]) by {
            if j == s1.running.len() {
                if !everything {
                    assert(!blocks_new(s1.backlog[i], event, arg));
                }
            }
        }
    } else if !can_now && s.consumers.contains_key(event) {
        assert(t.running == s1.running);
        assert(t.backlog == s1.backlog.push(y));
        assert forall|i: int, j: int|
            0 <= i < t.backlog.len() && 0 <= j < t.running.len() && t.backlog[i].0 < t.running[j].0
            implies may_overlap(#[trigger] t.backlog[i], #[trigger] t.running[j]) by {
            if i == s1.backlog.len() {
                assert(s1.running[j].0 < s.emitted);
            }
        }
    } else {
        assert(t.running == s1.running);
        assert(t.backlog == s1.backlog);
    }
}


/// Stopping running emissions keeps every pair that still runs safe.
proof fn lemma_overlap_safe_fewer_running<E: Interleaves<A>, A, C>(
    s: SchedulerView<E, A, C>,
    t: SchedulerView<E, A, C>,
)
    requires
        overlap_safe(s),
        t.backlog == s.backlog,
        forall|i: int| 0 <= i < t.running.len() ==> s.running.contains(#[trigger] t.running[i]),
    ensures
        overlap_safe(t),
{
    assert forall|i: int, j: int|
        0 <= i < t.running.len() && 0 <= j < t.running.len() && t.running[i].0 < t.running[j].0
        implies may_overlap(#[trigger] t.running[i], #[trigger] t.running[j]) by {
        assert(s.running.contains(t.running[i]));
        assert(s.running.contains(t.running[j]));
        let a = choose|a: int| 0 <= a < s.running.len() && s.running[a] == t.running[i];
        let b = choose|b: int| 0 <= b < s.running.len() && s.running[b] == t.running[j];
        assert(may_overlap(s.running[a], s.running[b]));
    }
    assert forall|i: int, j: int|
        0 <= i < t.backlog.len() && 0 <= j < t.running.len() && t.backlog[i].0 < t.running[j].0
        implies may_overlap(#[trigger] t.backlog[i], #[trigger] t.running[j]) by {
        assert(s.running.contains(t.running[j]));
        let b = choose|b: int| 0 <= b < s.running.len() && s.running[b] == t.running[j];
        assert(may_overlap(s.backlog[i], s.running[b]));
    }
}

/// The emissions that keep running after a split are running ones.
proof fn lemma_split_finished_kept<E, A>(running: Seq<Entry<E, A>>, finished: Seq<bool>)
    ensures
        forall|i: int|
            0 <= i < split_finished(running, finished).0.len() ==> running.contains(
                #[trigger] split_finished(running, finished).0[i],
            ),
    decreases running.len(),
{
    if running.len() > 0 {
        let d = running.drop_last();
        lemma_split_finished_kept(d, finished.take(running.len() - 1));
        let k = split_finished(d, finished.take(running.len() - 1)).0;
        assert forall|i: int| 0 <= i < k.len() implies running.contains(#[trigger] k[i]) by {
            assert(d.contains(k[i]));
            let j = choose|j: int| 0 <= j < d.len() && d[j] == k[i];
            assert(running[j] == d[j]);
        }
        assert(running[running.len() - 1] == running.last());
    }
}

/// A fresh emitter is safe, and registering, removing, finishing, panicking and
/// waiting keep every pair of emissions that run together safe.
pub proof fn law_other_operations_overlap_safe<E: Interleaves<A> + PartialEq + Clone, A, C>(
    s: SchedulerView<E, A, C>,
    event: E,
    callback: C,
    pos: usize,
    finished: Seq<bool>,
    previous: Seq<usize>,
    something_finished: bool,
)
    requires
        s.wf(),
        overlap_safe(s),
    ensures
        overlap_safe(SchedulerView::<E, A, C>::initial()),
        overlap_safe(s.on_spec(event, callback).0),
        overlap_safe(s.off_spec(event).0),
        overlap_safe(s.task_done_spec(pos, event).0),
        overlap_safe(s.task_panicked_spec(pos, event).0),
        overlap_safe(s.clear_finished_spec(finished).0),
        overlap_safe(s.wait_round_spec(previous).0),
        overlap_safe(s.wait_after_poll_spec(something_finished).0),
{
    let t = s.task_done_spec(pos, event).0;
    if exists|k: int| first_match(s.running, k, pos, event) {
        let k = choose|k: int| first_match(s.running, k, pos, event);
        assert forall|i: int| 0 <= i < t.running.len() implies s.running.contains(#[trigger] t.running[i]) by {
            if i < k {
                assert(s.running[i] == t.running[i]);
            } else {
                assert(s.running[i + 1] == t.running[i]);
            }
        }
    }
    lemma_overlap_safe_fewer_running(s, t);
    lemma_overlap_safe_fewer_running(s, s.task_panicked_spec(pos, event).0);
    lemma_split_finished_kept(s.running, finished);
    lemma_overlap_safe_fewer_running(s, s.clear_finished_spec(finished).0);
    law_clear_backlog_overlap_safe(s);
}

/// When nothing runs and something waits, clearing the backlog starts the
/// earliest waiting emission, so waiting never gets stuck.
pub proof fn law_clear_backlog_progress<E: Interleaves<A> + PartialEq + Clone, A, C>(
    s: SchedulerView<E, A, C>,
)
    requires
        s.wf(),
        s.running.len() == 0,
        s.backlog.len() > 0,
    ensures
        s.clear_backlog_spec().1,
        s.clear_backlog_spec().0.backlog.len() < s.backlog.len(),
        s.clear_backlog_spec().0.running.len() + s.clear_backlog_spec().0.panicked.len() > s.panicked.len(),
{
    let b = s.backlog[0];
    assert forall|i: int| 0 <= i < s.backlog.len() implies !waits_on(b, #[trigger] s.backlog[i]) by {
        if i > 0 {
            assert(s.backlog[0].0 < s.backlog[i].0);
        }
    }
    assert(s.is_ready(b));
    law_clear_backlog_starts_only_ready(s);
    lemma_filter_drops(s.backlog, s.must_wait(), 0);
}

/// Filtering out an element that fails the predicate shortens the sequence.
proof fn lemma_filter_drops<T>(s: Seq<T>, p: spec_fn(T) -> bool, k: int)
    requires
        0 <= k < s.len(),
        !p(s[k]),
    ensures
        s.filter(p).len() < s.len(),
    decreases s.len(),
{
    reveal(Seq::filter);
    broadcast use vstd::seq_lib::group_filter_ensures;
    if k < s.len() - 1 {
        lemma_filter_drops(s.drop_last(), p, k);
    } else {
        assert(s.drop_last().filter(p).len() <= s.drop_last().len());
    }
}

/// Emitting numbers the emission with the count of earlier emissions and counts
/// it; an emission of a registered event is held afterwards, running, waiting
/// or recorded as panicked, and nothing held before is lost. The flags say
/// whether a consumer is registered, whether the emission waits and whether it
/// started; it never both waits and started, and does neither without a consumer.
pub proof fn law_emit_accounts<E: Interleaves<A> + PartialEq + Clone, A, C>(
    s: SchedulerView<E, A, C>,
    event: E,
    arg: A,
)
    requires
        s.wf(),
        s.emitted < usize::MAX,
    ensures
        ({
            let (t, r) = s.emit_spec(event, arg);
            &&& t.emitted == s.emitted + 1
            &&& held(t) == held(s) + (if s.consumers.contains_key(event) { 1int } else { 0 })
            &&& r.0 == s.consumers.contains_key(event)
            &&& !(r.1 && r.2)
            &&& (r.1 || r.2) ==> r.0
            &&& r.1 ==> t.backlog.last() == (s.emitted, event, arg)
            &&& r.2 ==> t.running.last() == (s.emitted, event, arg)
        }),
{
    let everything = event.interleaves_with_everything_spec(&arg);
    if !everything {
        law_clear_backlog_starts_only_ready(s);
    }
    let s1 = if everything {
        s
    } else {
        s.clear_backlog_spec().0
    };
    if s.consumers.contains_key(event) {
        lemma_launch_one(s1, s1.launches(), s.emitted, event, arg);
    }
}

/// Under `PanicAgain` and `StoreButNoSubsequentProblem` no emission is held back
/// by an earlier panic: clearing the backlog and emitting leave the recorded
/// panics as they were, and every emission of a registered event waits or starts.
pub proof fn law_no_taint_without_the_policy<E: Interleaves<A> + PartialEq + Clone, A, C>(
    s: SchedulerView<E, A, C>,
    event: E,
    arg: A,
)
    requires
        s.wf(),
        s.emitted < usize::MAX,
        s.panic_policy != PanicPolicy::StoreButSubsequentProblem,
    ensures
        s.clear_backlog_spec().0.panicked == s.panicked,
        s.emit_spec(event, arg).0.panicked == s.panicked,
        s.consumers.contains_key(event) ==> s.emit_spec(event, arg).1.1 || s.emit_spec(event, arg).1.2,
{
    law_clear_backlog_starts_only_ready(s);
    law_emit_accounts(s, event, arg);
    assert forall|i: int| 0 <= i < s.backlog.len() implies s.consumers.contains_key(
        #[trigger] s.backlog[i].1,
    ) by {}
    lemma_launch_ready_desc(s, s.launches(), s.backlog);
    let everything = event.interleaves_with_everything_spec(&arg);
    let s1 = if everything {
        s
    } else {
        s.clear_backlog_spec().0
    };
    assert(s1.panicked == s.panicked);
    if s.consumers.contains_key(event) {
        lemma_launch_one(s1, s1.launches(), s.emitted, event, arg);
    }
}

/// Some recorded panic that taints an emission means a first one does.
proof fn lemma_first_taint_exists<E: Interleaves<A>, A>(
    p: Seq<Tainted<E, A>>,
    j: int,
    pos: usize,
    event: E,
    arg: A,
)
    requires
        0 <= j < p.len(),
        taints(p[j], pos, event, arg),
    ensures
        exists|k: int| first_taint(p, k, pos, event, arg),
    decreases j,
{
    if exists|j2: int| 0 <= j2 < j && taints(#[trigger] p[j2], pos, event, arg) {
        let j2 = choose|j2: int| 0 <= j2 < j && taints(#[trigger] p[j2], pos, event, arg);
        lemma_first_taint_exists(p, j2, pos, event, arg);
    } else {
        assert(first_taint(p, j, pos, event, arg));
    }
}

/// A consumer that panicked stops running. Under the policies that store panics
/// it is recorded, with its own number, event and argument; under `PanicAgain`
/// nothing is recorded and the panic is to be propagated.
pub proof fn law_panicked_consumer<E: Interleaves<A> + PartialEq + Clone, A, C>(
    s: SchedulerView<E, A, C>,
    k: int,
)
    requires
        s.wf(),
        0 <= k < s.running.len(),
        forall|j: int| 0 <= j < k ==> #[trigger] s.running[j].0 != s.running[k].0,
    ensures
        ({
            let x = s.running[k];
            let (t, r) = s.task_panicked_spec(x.0, x.1);
            &&& t.running == s.running.remove(k)
            &&& t.backlog == s.backlog
            &&& s.panic_policy == PanicPolicy::PanicAgain ==> r == PanicResponse::Propagate && t.panicked
                == s.panicked
            &&& s.panic_policy != PanicPolicy::PanicAgain ==> r == PanicResponse::Recorded && t.panicked
                == s.panicked.push((x.0, x.1, x.2, x.0))
        }),
{
    let x = s.running[k];
    assert(first_match(s.running, k, x.0, x.1));
    assert forall|k2: int| first_match(s.running, k2, x.0, x.1) implies k2 == k by {
        if k2 > k {
            assert(!(s.running[k].0 == x.0 && s.running[k].1 == x.1));
        }
    }
}

/// Under `StoreButSubsequentProblem`, an emission that does not interleave
/// with a recorded panic never starts: it waits, or it is recorded as panicked
/// in turn, with its own number, event and argument.
pub proof fn law_tainted_emission<E: Interleaves<A> + PartialEq + Clone, A, C>(
    s: SchedulerView<E, A, C>,
    j: int,
    event: E,
    arg: A,
)
    requires
        s.wf(),
        s.emitted < usize::MAX,
        s.panic_policy == PanicPolicy::StoreButSubsequentProblem,
        s.consumers.contains_key(event),
        0 <= j < s.panicked.len(),
        !s.panicked[j].1.interleave_spec(&s.panicked[j].2, &event, &arg),
    ensures
        ({
            let (t, r) = s.emit_spec(event, arg);
            &&& r.0
            &&& !r.2
            &&& !r.1 ==> t.panicked.len() > 0 && t.panicked.last().0 == s.emitted && t.panicked.last().1
                == event && t.panicked.last().2 == arg
        }),
{
    let everything = event.interleaves_with_everything_spec(&arg);
    assert forall|i: int| 0 <= i < s.backlog.len() implies s.consumers.contains_key(
        #[trigger] s.backlog[i].1,
    ) by {}
    lemma_launch_ready_desc(s, s.launches(), s.backlog);
    let s1 = if everything {
        s
    } else {
        s.clear_backlog_spec().0
    };
    assert(s1.panicked[j] == s.panicked[j]) by {
        if !everything {
            assert(s1.panicked.take(s.panicked.len() as int)[j] == s1.panicked[j]);
        }
    }
    assert(s.panicked[j].0 < s.emitted);
    lemma_first_taint_exists(s1.panicked, j, s.emitted, event, arg);
    assert(s1.tainted(s.emitted, event, arg));
}

/// Registrations cannot change while an emission of the event waits, and then
/// nothing changes; otherwise the registered consumer is the one given, removing
/// it right after reports that it was there and leaves the other registrations,
/// and removing an unregistered event reports that nothing was there.
pub proof fn law_registration<E: Interleaves<A>, A, C>(s: SchedulerView<E, A, C>, event: E, callback: C)
    ensures
        (s.on_spec(event, callback).1 is None) == s.backlog_uses(event),
        (s.off_spec(event).1 is None) == s.backlog_uses(event),
        s.backlog_uses(event) ==> s.on_spec(event, callback).0 == s && s.off_spec(event).0 == s,
        !s.backlog_uses(event) ==> s.on_spec(event, callback).0.consumers.contains_key(event)
            && s.on_spec(event, callback).0.consumers[event] == callback,
        !s.backlog_uses(event) ==> s.on_spec(event, callback).0.off_spec(event) == (
        SchedulerView { consumers: s.consumers.remove(event), ..s },
        Some(true),
        ),
        !s.backlog_uses(event) && !s.consumers.contains_key(event) ==> s.off_spec(event) == (s, Some(false)),
{
    if !s.backlog_uses(event) {
        let t = s.on_spec(event, callback).0;
        assert(!t.backlog_uses(event));
        assert(t.consumers.remove(event) =~= s.consumers.remove(event));
        if !s.consumers.contains_key(event) {
            assert(s.consumers.remove(event) =~= s.consumers);
        }
    }
}

/// Waiting for everything stops exactly when nothing runs or waits, never
/// sleeps while nothing runs, and when nothing runs but something waits it
/// starts the earliest waiting emission.
pub proof fn law_wait_rounds<E: Interleaves<A> + PartialEq + Clone, A, C>(
    s: SchedulerView<E, A, C>,
    previous: Seq<usize>,
)
    requires
        s.wf(),
    ensures
        (s.wait_round_spec(previous).2 == WaitStep::Done) == s.is_empty(),
        (s.wait_after_poll_spec(true).1 == WaitStep::Done) == s.is_empty(),
        s.is_empty() ==> s.wait_round_spec(previous).0 == s,
        s.running.len() == 0 ==> s.wait_round_spec(previous).2 != WaitStep::Sleep,
        s.running.len() == 0 && s.backlog.len() > 0 ==> s.wait_round_spec(previous).2 == WaitStep::Cleared(
            true,
        ) && s.wait_round_spec(previous).0.backlog.len() < s.backlog.len(),
{
    if s.running.len() == 0 && s.backlog.len() > 0 {
        law_clear_backlog_progress(s);
    }
    if s.running.len() == 0 {
        assert(crate::scheduler::numbers(s.running).len() == 0);
    }
}


/// Every emission is held once: no two running, waiting or panicked emissions
/// share a number (the waiting ones are in increasing order, see `wf`).
pub open spec fn numbers_distinct<E, A, C>(s: SchedulerView<E, A, C>) -> bool {
    &&& forall|i: int, j: int|
        0 <= i < s.running.len() && 0 <= j < s.running.len() && i != j ==> #[trigger] s.running[i].0
            != #[trigger] s.running[j].0
    &&& forall|i: int, j: int|
        0 <= i < s.panicked.len() && 0 <= j < s.panicked.len() && i != j ==> #[trigger] s.panicked[i].0
            != #[trigger] s.panicked[j].0
    &&& forall|i: int, j: int|
        0 <= i < s.running.len() && 0 <= j < s.backlog.len() ==> #[trigger] s.running[i].0
            != #[trigger] s.backlog[j].0
    &&& forall|i: int, j: int|
        0 <= i < s.running.len() && 0 <= j < s.panicked.len() ==> #[trigger] s.running[i].0
            != #[trigger] s.panicked[j].0
    &&& forall|i: int, j: int|
        0 <= i < s.backlog.len() && 0 <= j < s.panicked.len() ==> #[trigger] s.backlog[i].0
            != #[trigger] s.panicked[j].0
}

/// `e` is a ready emission of `items`.
spec fn ready_in<E: Interleaves<A>, A, C>(snap: SchedulerView<E, A, C>, items: Seq<Entry<E, A>>, e: Entry<E, A>) -> bool {
    exists|k: int| 0 <= k < items.len() && items[k] == e && snap.is_ready(items[k])
}

/// A ready emission of `items` has the number `n`.
spec fn ready_numbered_in<E: Interleaves<A>, A, C>(
    snap: SchedulerView<E, A, C>,
    items: Seq<Entry<E, A>>,
    n: usize,
) -> bool {
    exists|k: int| 0 <= k < items.len() && items[k].0 == n && snap.is_ready(items[k])
}

/// The emissions that `r` adds to the launches `l` are ready emissions of
/// `items`, and no two of them share a number.
spec fn adds_ready_once<E: Interleaves<A>, A, C>(
    snap: SchedulerView<E, A, C>,
    l: Launches<E, A, C>,
    items: Seq<Entry<E, A>>,
    r: Launches<E, A, C>,
) -> bool {
    let nr = l.running.len() as int;
    let np = l.panicked.len() as int;
    &&& forall|i: int| nr <= i < r.running.len() ==> ready_in(snap, items, #[trigger] r.running[i])
    &&& forall|i: int| np <= i < r.panicked.len() ==> ready_numbered_in(snap, items, #[trigger] r.panicked[i].0)
    &&& forall|i: int, j: int|
        nr <= i < r.running.len() && nr <= j < r.running.len() && i != j
            ==> #[trigger] r.running[i].0 != #[trigger] r.running[j].0
    &&& forall|i: int, j: int|
        np <= i < r.panicked.len() && np <= j < r.panicked.len() && i != j
            ==> #[trigger] r.panicked[i].0 != #[trigger] r.panicked[j].0
    &&& forall|i: int, j: int|
        nr <= i < r.running.len() && np <= j < r.panicked.len() ==> #[trigger] r.running[i].0
            != #[trigger] r.panicked[j].0
}

/// Starting the ready emissions of `items` (numbered in increasing order) adds
/// each at most once.
#[verifier::spinoff_prover]
#[verifier::rlimit(40)]
proof fn lemma_launch_ready_desc_numbers<E: Interleaves<A>, A, C>(
    snap: SchedulerView<E, A, C>,
    l: Launches<E, A, C>,
    items: Seq<Entry<E, A>>,
)
    requires
        forall|i: int| 0 <= i < items.len() ==> snap.consumers.contains_key(#[trigger] items[i].1),
        forall|i: int, j: int| 0 <= i < j < items.len() ==> #[trigger] items[i].0 < #[trigger] items[j].0,
    ensures
        adds_ready_once(snap, l, items, launch_ready_desc(snap, l, items)),
    decreases items.len(),
{
    lemma_launch_ready_desc(snap, l, items);
    if items.len() > 0 {
        let b = items.last();
        let d = items.drop_last();
        let n = items.len() - 1;
        assert(snap.consumers.contains_key(items[n].1));
        let l1 = if snap.is_ready(b) {
            launch(snap, l, b.0, b.1, b.2)
        } else {
            l
        };
        if snap.is_ready(b) {
            lemma_launch_one(snap, l, b.0, b.1, b.2);
        }
        assert forall|i: int| 0 <= i < d.len() implies snap.consumers.contains_key(#[trigger] d[i].1) by {
            assert(d[i] == items[i]);
        }
        assert forall|i: int, j: int| 0 <= i < j < d.len() implies #[trigger] d[i].0 < #[trigger] d[j].0 by {
            assert(items[i].0 < items[j].0);
        }
        lemma_launch_ready_desc_numbers(snap, l1, d);
        lemma_launch_ready_desc(snap, l1, d);
        let r = launch_ready_desc(snap, l, items);
        assert(r == launch_ready_desc(snap, l1, d));
        let nr = l.running.len() as int;
        let np = l.panicked.len() as int;
        let nr1 = l1.running.len() as int;
        let np1 = l1.panicked.len() as int;
        // Everything added after `b` comes from `d`, numbered below `b`.
        assert forall|i: int| nr1 <= i < r.running.len() implies #[trigger] r.running[i].0 < b.0 by {
            assert(ready_in(snap, d, r.running[i]));
            let k = choose|k: int| 0 <= k < d.len() && d[k] == r.running[i] && snap.is_ready(d[k]);
            assert(items[k].0 < items[n].0);
        }
        assert forall|i: int| np1 <= i < r.panicked.len() implies #[trigger] r.panicked[i].0 < b.0 by {
            assert(ready_numbered_in(snap, d, r.panicked[i].0));
            let k = choose|k: int| 0 <= k < d.len() && d[k].0 == r.panicked[i].0 && snap.is_ready(d[k]);
            assert(items[k].0 < items[n].0);
        }
        if nr1 > nr {
            assert(r.running.take(nr1)[nr] == r.running[nr]);
            assert(l1.running[nr] == b);
        }
        if np1 > np {
            assert(r.panicked.take(np1)[np] == r.panicked[np]);
            assert(l1.panicked[np].0 == b.0);
        }
        assert forall|i: int| nr <= i < r.running.len() implies ready_in(snap, items, #[trigger] r.running[i]) by {
            if i >= nr1 {
                assert(ready_in(snap, d, r.running[i]));
                let k = choose|k: int| 0 <= k < d.len() && d[k] == r.running[i] && snap.is_ready(d[k]);
                assert(items[k] == d[k]);
            } else {
                assert(items[n] == r.running[i]);
            }
        }
        assert forall|i: int| np <= i < r.panicked.len() implies ready_numbered_in(
            snap,
            items,
            #[trigger] r.panicked[i].0,
        ) by {
            if i >= np1 {
                assert(ready_numbered_in(snap, d, r.panicked[i].0));
                let k = choose|k: int| 0 <= k < d.len() && d[k].0 == r.panicked[i].0 && snap.is_ready(d[k]);
                assert(items[k] == d[k]);
            } else {
                assert(items[n].0 == r.panicked[i].0);
            }
        }
        assert forall|i: int, j: int|
            nr <= i < r.running.len() && nr <= j < r.running.len() && i != j
                implies #[trigger] r.running[i].0 != #[trigger] r.running[j].0 by {
            if i < nr1 {
                assert(r.running[i].0 == b.0);
            }
            if j < nr1 {
                assert(r.running[j].0 == b.0);
            }
        }
        assert forall|i: int, j: int|
            np <= i < r.panicked.len() && np <= j < r.panicked.len() && i != j
                implies #[trigger] r.panicked[i].0 != #[trigger] r.panicked[j].0 by {
            if i < np1 {
                assert(r.panicked[i].0 == b.0);
            }
            if j < np1 {
                assert(r.panicked[j].0 == b.0);
            }
        }
        assert forall|i: int, j: int|
            nr <= i < r.running.len() && np <= j < r.panicked.len()
                implies #[trigger] r.running[i].0 != #[trigger] r.panicked[j].0 by {
            assert(nr1 == nr || np1 == np);
            if i < nr1 {
                assert(r.running[i].0 == b.0);
            }
            if j < np1 {
                assert(r.panicked[j].0 == b.0);
            }
        }
        assert(adds_ready_once(snap, l, items, r));
    } else {
        assert(launch_ready_desc(snap, l, items) == l);
    }
}


/// Clearing the backlog holds every emission once.
pub proof fn law_clear_backlog_numbers_distinct<E: Interleaves<A> + PartialEq + Clone, A, C>(
    s: SchedulerView<E, A, C>,
)
    requires
        s.wf(),
        numbers_distinct(s),
    ensures
        numbers_distinct(s.clear_backlog_spec().0),
{
    let t = s.clear_backlog_spec().0;
    assert forall|i: int| 0 <= i < s.backlog.len() implies s.consumers.contains_key(
        #[trigger] s.backlog[i].1,
    ) by {}
    lemma_launch_ready_desc(s, s.launches(), s.backlog);
    lemma_launch_ready_desc_numbers(s, s.launches(), s.backlog);
    lemma_filter_sorted_subset(s.backlog, s.must_wait());
    let nr = s.running.len() as int;
    let np = s.panicked.len() as int;
    let w = s.still_waiting();
    broadcast use vstd::seq_lib::group_filter_ensures;

    // Old running and panicked emissions keep their places.
    assert forall|i: int| 0 <= i < nr implies #[trigger] t.running[i] == s.running[i] by {
        assert(t.running.take(nr)[i] == t.running[i]);
    }
    assert forall|i: int| 0 <= i < np implies #[trigger] t.panicked[i] == s.panicked[i] by {
        assert(t.panicked.take(np)[i] == t.panicked[i]);
    }
    // A waiting emission is one of the backlog that must wait.
    assert forall|j: int| 0 <= j < w.len() implies exists|k: int|
        0 <= k < s.backlog.len() && s.backlog[k] == #[trigger] w[j] && !s.is_ready(s.backlog[k]) by {
        assert(s.backlog.contains(w[j]));
        assert(s.must_wait()(w[j]));
    }
    // Two emissions of the backlog with the same number are the same one.
    assert forall|a: int, b: int| 0 <= a < s.backlog.len() && 0 <= b < s.backlog.len() && #[trigger] s.backlog[a].0
        == #[trigger] s.backlog[b].0 implies a == b by {
        if a < b {
            assert(s.backlog[a].0 < s.backlog[b].0);
        }
        if b < a {
            assert(s.backlog[b].0 < s.backlog[a].0);
        }
    }
    assert forall|i: int, j: int|
        0 <= i < t.running.len() && 0 <= j < t.running.len() && i != j implies #[trigger] t.running[i].0
        != #[trigger] t.running[j].0 by {
        if i >= nr && j < nr {
            let k = choose|k: int| 0 <= k < s.backlog.len() && s.backlog[k] == t.running[i] && s.is_ready(s.backlog[k]);
            assert(s.running[j].0 != s.backlog[k].0);
        }
        if j >= nr && i < nr {
            let k = choose|k: int| 0 <= k < s.backlog.len() && s.backlog[k] == t.running[j] && s.is_ready(s.backlog[k]);
            assert(s.running[i].0 != s.backlog[k].0);
        }
    }
    assert forall|i: int, j: int|
        0 <= i < t.panicked.len() && 0 <= j < t.panicked.len() && i != j implies #[trigger] t.panicked[i].0
        != #[trigger] t.panicked[j].0 by {
        if i >= np && j < np {
            let k = choose|k: int| 0 <= k < s.backlog.len() && s.backlog[k].0 == t.panicked[i].0 && s.is_ready(s.backlog[k]);
            assert(s.backlog[k].0 != s.panicked[j].0);
        }
        if j >= np && i < np {
            let k = choose|k: int| 0 <= k < s.backlog.len() && s.backlog[k].0 == t.panicked[j].0 && s.is_ready(s.backlog[k]);
            assert(s.backlog[k].0 != s.panicked[i].0);
        }
    }
    assert forall|i: int, j: int|
        0 <= i < t.running.len() && 0 <= j < t.backlog.len() implies #[trigger] t.running[i].0
        != #[trigger] t.backlog[j].0 by {
        let kw = choose|k: int| 0 <= k < s.backlog.len() && s.backlog[k] == w[j] && !s.is_ready(s.backlog[k]);
        if i < nr {
            assert(s.running[i].0 != s.backlog[kw].0);
        } else {
            let k = choose|k: int| 0 <= k < s.backlog.len() && s.backlog[k] == t.running[i] && s.is_ready(s.backlog[k]);
            if s.backlog[k].0 == s.backlog[kw].0 {
                assert(k == kw);
            }
        }
    }
    assert forall|i: int, j: int|
        0 <= i < t.running.len() && 0 <= j < t.panicked.len() implies #[trigger] t.running[i].0
        != #[trigger] t.panicked[j].0 by {
        if i < nr && j >= np {
            let k = choose|k: int| 0 <= k < s.backlog.len() && s.backlog[k].0 == t.panicked[j].0 && s.is_ready(s.backlog[k]);
            assert(s.running[i].0 != s.backlog[k].0);
        }
        if i >= nr && j < np {
            let k = choose|k: int| 0 <= k < s.backlog.len() && s.backlog[k] == t.running[i] && s.is_ready(s.backlog[k]);
            assert(s.backlog[k].0 != s.panicked[j].0);
        }
    }
    assert forall|i: int, j: int|
        0 <= i < t.backlog.len() && 0 <= j < t.panicked.len() implies #[trigger] t.backlog[i].0
        != #[trigger] t.panicked[j].0 by {
        let kw = choose|k: int| 0 <= k < s.backlog.len() && s.backlog[k] == w[i] && !s.is_ready(s.backlog[k]);
        if j < np {
            assert(s.backlog[kw].0 != s.panicked[j].0);
        } else {
            let k = choose|k: int| 0 <= k < s.backlog.len() && s.backlog[k].0 == t.panicked[j].0 && s.is_ready(s.backlog[k]);
            if s.backlog[k].0 == s.backlog[kw].0 {
                assert(k == kw);
            }
        }
    }
}


/// Emitting holds the new emission, numbered above every other, once.
pub proof fn law_emit_numbers_distinct<E: Interleaves<A> + PartialEq + Clone, A, C>(
    s: SchedulerView<E, A, C>,
    event: E,
    arg: A,
)
    requires
        s.wf(),
        numbers_distinct(s),
        s.emitted < usize::MAX,
    ensures
        numbers_distinct(s.emit_spec(event, arg).0),
{
    let everything = event.interleaves_with_everything_spec(&arg);
    let s1 = if everything {
        s
    } else {
        s.clear_backlog_spec().0
    };
    if !everything {
        law_clear_backlog_numbers_distinct(s);
        law_clear_backlog_starts_only_ready(s);
    }
    assert(s1.wf()) by {
        if !everything {
            lemma_clear_backlog_wf(s);
        }
    }
    let t = s.emit_spec(event, arg).0;
    let n = s.emitted;
    if s.consumers.contains_key(event) {
        lemma_launch_one(s1, s1.launches(), n, event, arg);
    }
    assert forall|i: int, j: int|
        0 <= i < t.running.len() && 0 <= j < t.running.len() && i != j implies #[trigger] t.running[i].0
        != #[trigger] t.running[j].0 by {
        if i >= s1.running.len() {
            assert(s1.running[j].0 < n);
        }
        if j >= s1.running.len() {
            assert(s1.running[i].0 < n);
        }
    }
    assert forall|i: int, j: int|
        0 <= i < t.panicked.len() && 0 <= j < t.panicked.len() && i != j implies #[trigger] t.panicked[i].0
        != #[trigger] t.panicked[j].0 by {
        if i >= s1.panicked.len() {
            assert(s1.panicked[j].0 < n);
        }
        if j >= s1.panicked.len() {
            assert(t.panicked.take(s1.panicked.len() as int)[i] == t.panicked[i]);
            assert(s1.panicked[i].0 < n);
        }
    }
    assert forall|i: int, j: int|
        0 <= i < t.running.len() && 0 <= j < t.backlog.len() implies #[trigger] t.running[i].0
        != #[trigger] t.backlog[j].0 by {
        if i >= s1.running.len() {
            assert(s1.backlog[j].0 < n);
        }
        if j >= s1.backlog.len() {
            assert(s1.running[i].0 < n);
        }
    }
    assert forall|i: int, j: int|
        0 <= i < t.running.len() && 0 <= j < t.panicked.len() implies #[trigger] t.running[i].0
        != #[trigger] t.panicked[j].0 by {
        if i >= s1.running.len() {
            assert(s1.panicked[j].0 < n);
        }
        if j >= s1.panicked.len() {
            assert(s1.running[i].0 < n);
        }
    }
    assert forall|i: int, j: int|
        0 <= i < t.backlog.len() && 0 <= j < t.panicked.len() implies #[trigger] t.backlog[i].0
        != #[trigger] t.panicked[j].0 by {
        if i >= s1.backlog.len() {
            assert(s1.panicked[j].0 < n);
        }
        if j >= s1.panicked.len() {
            assert(s1.backlog[i].0 < n);
        }
    }
}

/// Clearing the backlog keeps a state well-formed.
proof fn lemma_clear_backlog_wf<E: Interleaves<A> + PartialEq + Clone, A, C>(s: SchedulerView<E, A, C>)
    requires
        s.wf(),
    ensures
        s.clear_backlog_spec().0.wf(),
{
    let t = s.clear_backlog_spec().0;
    law_clear_backlog_starts_only_ready(s);
    assert forall|i: int| 0 <= i < s.backlog.len() implies s.consumers.contains_key(
        #[trigger] s.backlog[i].1,
    ) by {}
    lemma_launch_ready_desc(s, s.launches(), s.backlog);
    lemma_launch_ready_desc_numbers(s, s.launches(), s.backlog);
    lemma_filter_sorted_subset(s.backlog, s.must_wait());
    let nr = s.running.len() as int;
    let np = s.panicked.len() as int;
    assert(t.running.len() >= nr && t.panicked.len() >= np);
    assert forall|i: int| 0 <= i < t.running.len() implies #[trigger] t.running[i].0 < t.emitted by {
        if i < nr {
            assert(t.running.take(nr)[i] == t.running[i]);
        } else {
            let k = choose|k: int| 0 <= k < s.backlog.len() && s.backlog[k] == t.running[i] && s.is_ready(s.backlog[k]);
        }
    }
    assert forall|i: int| 0 <= i < t.panicked.len() implies #[trigger] t.panicked[i].0 < t.emitted by {
        if i < np {
            assert(t.panicked.take(np)[i] == t.panicked[i]);
        } else {
            let k = choose|k: int| 0 <= k < s.backlog.len() && s.backlog[k].0 == t.panicked[i].0 && s.is_ready(s.backlog[k]);
        }
    }
    assert forall|j: int| 0 <= j < t.backlog.len() implies #[trigger] t.backlog[j].0 < t.emitted
        && t.consumers.contains_key(t.backlog[j].1) by {
        assert(s.backlog.contains(t.backlog[j]));
    }
}

/// The kept emissions of a split hold each emission once when the running ones did.
proof fn lemma_split_finished_distinct<E, A>(running: Seq<Entry<E, A>>, finished: Seq<bool>)
    requires
        forall|i: int, j: int|
            0 <= i < running.len() && 0 <= j < running.len() && i != j ==> #[trigger] running[i].0
                != #[trigger] running[j].0,
    ensures
        ({
            let k = split_finished(running, finished).0;
            forall|i: int, j: int|
                0 <= i < k.len() && 0 <= j < k.len() && i != j ==> #[trigger] k[i].0 != #[trigger] k[j].0
        }),
    decreases running.len(),
{
    if running.len() > 0 {
        let d = running.drop_last();
        let n = running.len() - 1;
        assert forall|i: int, j: int| 0 <= i < d.len() && 0 <= j < d.len() && i != j implies #[trigger] d[i].0
            != #[trigger] d[j].0 by {
            assert(running[i].0 != running[j].0);
        }
        lemma_split_finished_distinct(d, finished.take(n));
        lemma_split_finished_kept(d, finished.take(n));
        let kd = split_finished(d, finished.take(n)).0;
        assert forall|i: int| 0 <= i < kd.len() implies #[trigger] kd[i].0 != running[n].0 by {
            assert(d.contains(kd[i]));
            let m = choose|m: int| 0 <= m < d.len() && d[m] == kd[i];
            assert(running[m].0 != running[n].0);
        }
    }
}

/// Registering, removing, finishing, panicking and waiting hold every emission once.
pub proof fn law_other_operations_numbers_distinct<E: Interleaves<A> + PartialEq + Clone, A, C>(
    s: SchedulerView<E, A, C>,
    event: E,
    callback: C,
    pos: usize,
    finished: Seq<bool>,
    previous: Seq<usize>,
    something_finished: bool,
)
    requires
        s.wf(),
        numbers_distinct(s),
    ensures
        numbers_distinct(SchedulerView::<E, A, C>::initial()),
        numbers_distinct(s.on_spec(event, callback).0),
        numbers_distinct(s.off_spec(event).0),
        numbers_distinct(s.task_done_spec(pos, event).0),
        numbers_distinct(s.task_panicked_spec(pos, event).0),
        numbers_distinct(s.clear_finished_spec(finished).0),
        numbers_distinct(s.wait_round_spec(previous).0),
        numbers_distinct(s.wait_after_poll_spec(something_finished).0),
{
    law_clear_backlog_numbers_distinct(s);
    if exists|k: int| first_match(s.running, k, pos, event) {
        let k = choose|k: int| first_match(s.running, k, pos, event);
        let t = s.task_done_spec(pos, event).0;
        assert forall|i: int| 0 <= i < t.running.len() implies #[trigger] t.running[i] == s.running[
            if i < k {
                i
            } else {
                i + 1
            }] by {}
        assert forall|i: int, j: int|
            0 <= i < t.running.len() && 0 <= j < t.running.len() && i != j implies #[trigger] t.running[i].0
            != #[trigger] t.running[j].0 by {
            let a = if i < k { i } else { i + 1 };
            let b = if j < k { j } else { j + 1 };
            assert(s.running[a].0 != s.running[b].0);
        }
        assert forall|i: int, j: int|
            0 <= i < t.running.len() && 0 <= j < t.backlog.len() implies #[trigger] t.running[i].0
            != #[trigger] t.backlog[j].0 by {
            let a = if i < k { i } else { i + 1 };
            assert(s.running[a].0 != s.backlog[j].0);
        }
        assert forall|i: int, j: int|
            0 <= i < t.running.len() && 0 <= j < t.panicked.len() implies #[trigger] t.running[i].0
            != #[trigger] t.panicked[j].0 by {
            let a = if i < k { i } else { i + 1 };
            assert(s.running[a].0 != s.panicked[j].0);
        }
    }
    if exists|k: int| first_match(s.running, k, pos, event) {
        let k = choose|k: int| first_match(s.running, k, pos, event);
        let x = s.running[k];
        let t = s.task_panicked_spec(pos, event).0;
        let np = s.panicked.len() as int;
        assert forall|i: int| 0 <= i < t.running.len() implies #[trigger] t.running[i] == s.running[
            if i < k {
                i
            } else {
                i + 1
            }] by {}
        assert forall|i: int| 0 <= i < t.panicked.len() implies #[trigger] t.panicked[i].0 == (if i < np {
            s.panicked[i].0
        } else {
            x.0
        }) by {}
        assert forall|i: int, j: int|
            0 <= i < t.running.len() && 0 <= j < t.running.len() && i != j implies #[trigger] t.running[i].0
            != #[trigger] t.running[j].0 by {
            let a = if i < k { i } else { i + 1 };
            let b = if j < k { j } else { j + 1 };
            assert(s.running[a].0 != s.running[b].0);
        }
        assert forall|i: int, j: int|
            0 <= i < t.running.len() && 0 <= j < t.backlog.len() implies #[trigger] t.running[i].0
            != #[trigger] t.backlog[j].0 by {
            let a = if i < k { i } else { i + 1 };
            assert(s.running[a].0 != s.backlog[j].0);
        }
        assert forall|i: int, j: int|
            0 <= i < t.running.len() && 0 <= j < t.panicked.len() implies #[trigger] t.running[i].0
            != #[trigger] t.panicked[j].0 by {
            let a = if i < k { i } else { i + 1 };
            if j < np {
                assert(s.running[a].0 != s.panicked[j].0);
            } else {
                assert(s.running[a].0 != s.running[k].0);
            }
        }
        assert forall|i: int, j: int|
            0 <= i < t.panicked.len() && 0 <= j < t.panicked.len() && i != j implies #[trigger] t.panicked[i].0
            != #[trigger] t.panicked[j].0 by {
            if i < np && j < np {
                assert(s.panicked[i].0 != s.panicked[j].0);
            } else if i < np {
                assert(s.running[k].0 != s.panicked[i].0);
            } else if j < np {
                assert(s.running[k].0 != s.panicked[j].0);
            }
        }
        assert forall|i: int, j: int|
            0 <= i < t.backlog.len() && 0 <= j < t.panicked.len() implies #[trigger] t.backlog[i].0
            != #[trigger] t.panicked[j].0 by {
            if j < np {
                assert(s.backlog[i].0 != s.panicked[j].0);
            } else {
                assert(s.running[k].0 != s.backlog[i].0);
            }
        }
    }
    lemma_split_finished_distinct(s.running, finished);
    lemma_split_finished_kept(s.running, finished);
    let t = s.clear_finished_spec(finished).0;
    assert forall|i: int, j: int|
        0 <= i < t.running.len() && 0 <= j < t.backlog.len() implies #[trigger] t.running[i].0
        != #[trigger] t.backlog[j].0 by {
        assert(s.running.contains(t.running[i]));
        let a = choose|a: int| 0 <= a < s.running.len() && s.running[a] == t.running[i];
        assert(s.running[a].0 != s.backlog[j].0);
    }
    assert forall|i: int, j: int|
        0 <= i < t.running.len() && 0 <= j < t.panicked.len() implies #[trigger] t.running[i].0
        != #[trigger] t.panicked[j].0 by {
        assert(s.running.contains(t.running[i]));
        let a = choose|a: int| 0 <= a < s.running.len() && s.running[a] == t.running[i];
        assert(s.running[a].0 != s.panicked[j].0);
    }
}

/// One operation of a caller on an emitter.
pub enum Operation<E, A, C> {
    On(E, C),
    Off(E),
    Emit(E, A),
    ResetPanicPolicy(PanicPolicy),
    TaskDone(usize, E),
    TaskPanicked(usize, E),
    ClearFinished(Seq<bool>),
    WaitRound(Seq<usize>),
    WaitAfterPoll(bool),
    TakeStarted,
}

/// The state after one operation.
pub open spec fn step<E: Interleaves<A>, A, C>(s: SchedulerView<E, A, C>, op: Operation<E, A, C>) -> SchedulerView<
    E,
    A,
    C,
> {
    match op {
        Operation::On(e, c) => s.on_spec(e, c).0,
        Operation::Off(e) => s.off_spec(e).0,
        Operation::Emit(e, a) => s.emit_spec(e, a).0,
        Operation::ResetPanicPolicy(p) => SchedulerView { panic_policy: p, ..s },
        Operation::TaskDone(pos, e) => s.task_done_spec(pos, e).0,
        Operation::TaskPanicked(pos, e) => s.task_panicked_spec(pos, e).0,
        Operation::ClearFinished(f) => s.clear_finished_spec(f).0,
        Operation::WaitRound(previous) => s.wait_round_spec(previous).0,
        Operation::WaitAfterPoll(b) => s.wait_after_poll_spec(b).0,
        Operation::TakeStarted => SchedulerView { started: Seq::empty(), ..s },
    }
}

/// The state after the operations `ops`, in order.
pub open spec fn run<E: Interleaves<A>, A, C>(s: SchedulerView<E, A, C>, ops: Seq<Operation<E, A, C>>) -> SchedulerView<
    E,
    A,
    C,
>
    decreases ops.len(),
{
    if ops.len() == 0 {
        s
    } else {
        step(run(s, ops.drop_last()), ops.last())
    }
}

/// Removing the running emission at index `k` keeps a state well-formed.
proof fn lemma_running_remove_bounded<E, A, C>(s: SchedulerView<E, A, C>, k: int)
    requires
        s.bounded(),
        0 <= k < s.running.len(),
    ensures
        (SchedulerView { running: s.running.remove(k), ..s }).bounded(),
{
    let t = SchedulerView { running: s.running.remove(k), ..s };
    assert forall|i: int| 0 <= i < t.running.len() implies #[trigger] t.running[i].0 < t.emitted by {
        if i < k {
            assert(t.running[i] == s.running[i]);
        } else {
            assert(t.running[i] == s.running[i + 1]);
        }
    }
}

/// Every operation keeps a state well-formed, and counts at most one more emission.
proof fn lemma_step_wf<E: Interleaves<A> + PartialEq + Clone, A, C>(
    s: SchedulerView<E, A, C>,
    op: Operation<E, A, C>,
)
    requires
        s.wf(),
        s.emitted < usize::MAX,
    ensures
        step(s, op).wf(),
        step(s, op).emitted <= s.emitted + 1,
{
    match op {
        Operation::On(e, c) => {},
        Operation::Off(e) => {
            let t = step(s, op);
            if !s.backlog_uses(e) {
                assert forall|i: int| 0 <= i < t.backlog.len() implies t.consumers.contains_key(
                    #[trigger] t.backlog[i].1,
                ) by {
                    assert(s.backlog[i].1 != e);
                }
            }
        },
        Operation::Emit(event, arg) => {
            let everything = event.interleaves_with_everything_spec(&arg);
            let s1 = if everything {
                s
            } else {
                s.clear_backlog_spec().0
            };
            if !everything {
                lemma_clear_backlog_wf(s);
            }
            let n = s.emitted;
            let t = s.emit_spec(event, arg).0;
            if s.consumers.contains_key(event) {
                lemma_launch_one(s1, s1.launches(), n, event, arg);
            }
            assert forall|i: int| 0 <= i < t.running.len() implies #[trigger] t.running[i].0 < t.emitted by {
                if i < s1.running.len() {
                    assert(t.running[i] == s1.running[i]);
                }
            }
            assert forall|i: int| 0 <= i < t.panicked.len() implies #[trigger] t.panicked[i].0 < t.emitted by {
                if i < s1.panicked.len() {
                    assert(t.panicked.take(s1.panicked.len() as int)[i] == t.panicked[i]);
                }
            }
            assert forall|i: int| 0 <= i < t.backlog.len() implies #[trigger] t.backlog[i].0 < t.emitted
                && t.consumers.contains_key(t.backlog[i].1) by {
                if i < s1.backlog.len() {
                    assert(t.backlog[i] == s1.backlog[i]);
                }
            }
            assert forall|i: int, j: int| 0 <= i < j < t.backlog.len() implies #[trigger] t.backlog[i].0
                < #[trigger] t.backlog[j].0 by {
                if j < s1.backlog.len() {
                    assert(s1.backlog[i].0 < s1.backlog[j].0);
                } else {
                    assert(s1.backlog[i].0 < n);
                }
            }
        },
        Operation::ResetPanicPolicy(p) => {},
        Operation::TaskDone(pos, e) => {
            if exists|k: int| first_match(s.running, k, pos, e) {
                let k = choose|k: int| first_match(s.running, k, pos, e);
                lemma_running_remove_bounded(s, k);
            }
        },
        Operation::TaskPanicked(pos, e) => {
            if exists|k: int| first_match(s.running, k, pos, e) {
                let k = choose|k: int| first_match(s.running, k, pos, e);
                lemma_running_remove_bounded(s, k);
                let t = step(s, op);
                assert forall|i: int| 0 <= i < t.panicked.len() implies #[trigger] t.panicked[i].0 < t.emitted by {
                    if i < s.panicked.len() {
                        assert(t.panicked[i] == s.panicked[i]);
                    }
                }
            }
        },
        Operation::ClearFinished(f) => {
            lemma_split_finished_kept(s.running, f);
            let t = step(s, op);
            assert forall|i: int| 0 <= i < t.running.len() implies #[trigger] t.running[i].0 < t.emitted by {
                assert(s.running.contains(t.running[i]));
            }
        },
        Operation::WaitRound(previous) => {
            lemma_clear_backlog_wf(s);
        },
        Operation::WaitAfterPoll(b) => {
            lemma_clear_backlog_wf(s);
        },
        Operation::TakeStarted => {},
    }
}

/// Every operation holds every emission once and keeps whatever runs together safe.
proof fn lemma_step_safe<E: Interleaves<A> + PartialEq + Clone, A, C>(
    s: SchedulerView<E, A, C>,
    op: Operation<E, A, C>,
)
    requires
        s.wf(),
        s.emitted < usize::MAX,
        numbers_distinct(s),
        overlap_safe(s),
    ensures
        numbers_distinct(step(s, op)),
        overlap_safe(step(s, op)),
{
    match op {
        Operation::On(e, c) => {
            law_other_operations_numbers_distinct(s, e, c, 0, Seq::empty(), Seq::empty(), false);
            law_other_operations_overlap_safe(s, e, c, 0, Seq::empty(), Seq::empty(), false);
        },
        Operation::Off(e) => {
            law_other_operations_numbers_distinct(s, e, arbitrary(), 0, Seq::empty(), Seq::empty(), false);
            law_other_operations_overlap_safe(s, e, arbitrary(), 0, Seq::empty(), Seq::empty(), false);
        },
        Operation::Emit(e, a) => {
            law_emit_numbers_distinct(s, e, a);
            law_emit_overlap_safe(s, e, a);
        },
        Operation::ResetPanicPolicy(p) => {},
        Operation::TaskDone(pos, e) => {
            law_other_operations_numbers_distinct(s, e, arbitrary(), pos, Seq::empty(), Seq::empty(), false);
            law_other_operations_overlap_safe(s, e, arbitrary(), pos, Seq::empty(), Seq::empty(), false);
        },
        Operation::TaskPanicked(pos, e) => {
            law_other_operations_numbers_distinct(s, e, arbitrary(), pos, Seq::empty(), Seq::empty(), false);
            law_other_operations_overlap_safe(s, e, arbitrary(), pos, Seq::empty(), Seq::empty(), false);
        },
        Operation::ClearFinished(f) => {
            law_other_operations_numbers_distinct(s, arbitrary(), arbitrary(), 0, f, Seq::empty(), false);
            law_other_operations_overlap_safe(s, arbitrary(), arbitrary(), 0, f, Seq::empty(), false);
        },
        Operation::WaitRound(previous) => {
            law_other_operations_numbers_distinct(s, arbitrary(), arbitrary(), 0, Seq::empty(), previous, false);
            law_other_operations_overlap_safe(s, arbitrary(), arbitrary(), 0, Seq::empty(), previous, false);
        },
        Operation::WaitAfterPoll(b) => {
            law_other_operations_numbers_distinct(s, arbitrary(), arbitrary(), 0, Seq::empty(), Seq::empty(), b);
            law_other_operations_overlap_safe(s, arbitrary(), arbitrary(), 0, Seq::empty(), Seq::empty(), b);
        },
        Operation::TakeStarted => {},
    }
}

/// Every state reached from a fresh emitter, by any sequence of operations
/// with fewer than `usize::MAX` of them: the backlog is in emission order, every
/// emission held is numbered below the count of emissions, every waiting
/// emission has its consumer registered, no two emissions held share a number,
/// and whatever runs at the same time, or started while an earlier emission
/// waited, may overlap.
pub proof fn law_reachable_states<E: Interleaves<A> + PartialEq + Clone, A, C>(ops: Seq<Operation<E, A, C>>)
    requires
        obeys_key_laws::<E>(),
        ops.len() < usize::MAX,
    ensures
        ({
            let t = run(SchedulerView::<E, A, C>::initial(), ops);
            &&& t.wf()
            &&& numbers_distinct(t)
            &&& overlap_safe(t)
            &&& t.emitted <= ops.len()
        }),
    decreases ops.len(),
{
    let s0 = SchedulerView::<E, A, C>::initial();
    if ops.len() == 0 {
        law_other_operations_overlap_safe(s0, arbitrary(), arbitrary(), 0, Seq::empty(), Seq::empty(), false);
        assert(s0.wf());
    } else {
        law_reachable_states(ops.drop_last());
        let s = run(s0, ops.drop_last());
        lemma_step_wf(s, ops.last());
        lemma_step_safe(s, ops.last());
    }
}

/// The emission that a recorded panic stands for.
pub open spec fn panicked_entry<E, A>(p: Tainted<E, A>) -> Entry<E, A> {
    (p.0, p.1, p.2)
}

/// `e` is held in `s`: running, waiting, or recorded as panicked.
pub open spec fn holds<E, A, C>(s: SchedulerView<E, A, C>, e: Entry<E, A>) -> bool {
    ||| s.running.contains(e)
    ||| s.backlog.contains(e)
    ||| exists|k: int| 0 <= k < s.panicked.len() && #[trigger] panicked_entry(s.panicked[k]) == e
}

/// A waiting round stops exactly when nothing runs and nothing waits, whatever
/// the poll found, and then changes nothing.
pub proof fn law_wait_stops_exactly_when_idle<E: Interleaves<A> + PartialEq + Clone, A, C>(
    s: SchedulerView<E, A, C>,
    something_finished: bool,
    previous: Seq<usize>,
)
    requires
        s.wf(),
    ensures
        (s.wait_after_poll_spec(something_finished).1 == WaitStep::Done) <==> (s.running.len() == 0
            && s.backlog.len() == 0),
        s.running.len() == 0 && s.backlog.len() == 0 ==> s.wait_after_poll_spec(something_finished).0 == s,
        (s.wait_round_spec(previous).2 == WaitStep::Done) <==> (s.running.len() == 0 && s.backlog.len() == 0),
        s.running.len() == 0 && s.backlog.len() == 0 ==> s.wait_round_spec(previous).0 == s,
{
}

/// An emission that interleaves with everything for its argument, whose
/// consumer is registered and that no recorded panic taints, starts at once:
/// it is the last running emission, numbered with the count of earlier
/// emissions, and its consumer is handed out.
pub proof fn law_emit_everything_starts_at_once<E: Interleaves<A> + PartialEq + Clone, A, C>(
    s: SchedulerView<E, A, C>,
    event: E,
    arg: A,
)
    requires
        s.wf(),
        s.emitted < usize::MAX,
        event.interleaves_with_everything_spec(&arg),
        s.consumers.contains_key(event),
        s.panic_policy == PanicPolicy::StoreButSubsequentProblem ==> forall|j: int|
            0 <= j < s.panicked.len() ==> !(s.panicked[j].0 < s.emitted && !(#[trigger] s.panicked[j]).1.interleave_spec(
                &s.panicked[j].2,
                &event,
                &arg,
            )),
    ensures
        s.emit_spec(event, arg).1 == (true, false, true),
        s.emit_spec(event, arg).0.running == s.running.push((s.emitted, event, arg)),
        s.emit_spec(event, arg).0.backlog == s.backlog,
        s.emit_spec(event, arg).0.started == s.started.push((s.emitted, s.consumers[event])),
        s.emit_spec(event, arg).0.emitted == s.emitted + 1,
{
    if s.panic_policy == PanicPolicy::StoreButSubsequentProblem {
        if exists|k: int| first_taint(s.panicked, k, s.emitted, event, arg) {
            let k = choose|k: int| first_taint(s.panicked, k, s.emitted, event, arg);
            assert(taints(s.panicked[k], s.emitted, event, arg));
        }
    }
}

/// Clearing the backlog lets go exactly the waiting emissions that nothing
/// emitted before them, that they do not interleave with, still holds back
/// (running or waiting): every other one stays waiting.
pub proof fn law_clear_backlog_lets_go_exactly_the_free<E: Interleaves<A> + PartialEq + Clone, A, C>(
    s: SchedulerView<E, A, C>,
)
    requires
        s.wf(),
    ensures
        forall|i: int|
            0 <= i < s.backlog.len() ==> (s.clear_backlog_spec().0.backlog.contains(#[trigger] s.backlog[i]) <==> (
            (exists|j: int|
                0 <= j < s.running.len() && s.running[j].0 < s.backlog[i].0 && !s.backlog[i].1.interleave_spec(
                    &s.backlog[i].2,
                    &s.running[j].1,
                    &s.running[j].2,
                )) || (exists|j: int|
                0 <= j < s.backlog.len() && s.backlog[j].0 < s.backlog[i].0 && !s.backlog[i].1.interleave_spec(
                    &s.backlog[i].2,
                    &s.backlog[j].1,
                    &s.backlog[j].2,
                )))),
{
    broadcast use vstd::seq_lib::group_filter_ensures;

    let p = s.must_wait();
    assert forall|i: int| 0 <= i < s.backlog.len() implies (s.backlog.filter(p).contains(
        #[trigger] s.backlog[i],
    ) <==> p(s.backlog[i])) by {
        let b = s.backlog[i];
        if p(b) {
            s.backlog.lemma_filter_contains(p, i);
        }
        if s.backlog.filter(p).contains(b) {
            let k = choose|k: int| 0 <= k < s.backlog.filter(p).len() && s.backlog.filter(p)[k] == b;
            assert(p(s.backlog.filter(p)[k]));
        }
        if !s.is_ready(b) {
            if exists|j: int| 0 <= j < s.running.len() && waits_on(b, #[trigger] s.running[j]) {
                let j = choose|j: int| 0 <= j < s.running.len() && waits_on(b, #[trigger] s.running[j]);
                assert(s.running[j].0 < b.0);
            } else {
                let j = choose|j: int| 0 <= j < s.backlog.len() && waits_on(b, #[trigger] s.backlog[j]);
                assert(s.backlog[j].0 < b.0);
            }
        } else {
            assert forall|j: int| 0 <= j < s.running.len() implies !(s.running[j].0 < b.0
                && !b.1.interleave_spec(&b.2, &s.running[j].1, &s.running[j].2)) by {
                assert(!waits_on(b, s.running[j]));
            }
            assert forall|j: int| 0 <= j < s.backlog.len() implies !(s.backlog[j].0 < b.0
                && !b.1.interleave_spec(&b.2, &s.backlog[j].1, &s.backlog[j].2)) by {
                assert(!waits_on(b, s.backlog[j]));
            }
        }
    }
}

/// Where the emissions of `items` go when the ready ones start: each one added
/// to the running or panicked ones is one of `items`; every ready one is added
/// to one of them; the consumers handed out belong to the added running ones;
/// and under `StoreButSubsequentProblem` no emission that a panic recorded
/// before it taints is added to the running ones, while a ready one it taints is
/// added to the panicked ones.
#[verifier::spinoff_prover]
#[verifier::rlimit(60)]
proof fn lemma_launch_ready_desc_fate<E: Interleaves<A>, A, C>(
    snap: SchedulerView<E, A, C>,
    l: Launches<E, A, C>,
    items: Seq<Entry<E, A>>,
)
    requires
        forall|i: int| 0 <= i < items.len() ==> snap.consumers.contains_key(#[trigger] items[i].1),
    ensures
        ({
            let r = launch_ready_desc(snap, l, items);
            let nr = l.running.len() as int;
            let np = l.panicked.len() as int;
            let ns = l.started.len() as int;
            &&& forall|i: int|
                np <= i < r.panicked.len() ==> items.contains(#[trigger] panicked_entry(r.panicked[i]))
            &&& forall|k: int|
                0 <= k < items.len() && snap.is_ready(items[k]) ==> r.running.contains(#[trigger] items[k])
                    || exists|i: int| 0 <= i < r.panicked.len() && #[trigger] panicked_entry(r.panicked[i]) == items[k]
            &&& r.started.len() - ns == r.running.len() - nr
            &&& r.started.take(ns) == l.started
            &&& forall|d: int| 0 <= d < r.started.len() - ns ==> #[trigger] r.started[ns + d].0 == r.running[nr + d].0
            &&& snap.panic_policy == PanicPolicy::StoreButSubsequentProblem ==> forall|i: int, j: int|
                nr <= i < r.running.len() && 0 <= j < np ==> !taints(
                    #[trigger] l.panicked[j],
                    #[trigger] r.running[i].0,
                    r.running[i].1,
                    r.running[i].2,
                )
            &&& snap.panic_policy == PanicPolicy::StoreButSubsequentProblem ==> forall|k: int, j: int|
                0 <= k < items.len() && 0 <= j < np && snap.is_ready(#[trigger] items[k]) && taints(
                    #[trigger] l.panicked[j],
                    items[k].0,
                    items[k].1,
                    items[k].2,
                ) ==> exists|i: int| np <= i < r.panicked.len() && #[trigger] panicked_entry(r.panicked[i]) == items[k]
        }),
    decreases items.len(),
{
    lemma_launch_ready_desc(snap, l, items);
    if items.len() > 0 {
        let n = items.len() - 1;
        let b = items.last();
        let d = items.drop_last();
        assert(snap.consumers.contains_key(items[n].1));
        let l1 = if snap.is_ready(b) {
            launch(snap, l, b.0, b.1, b.2)
        } else {
            l
        };
        assert forall|i: int| 0 <= i < d.len() implies snap.consumers.contains_key(#[trigger] d[i].1) by {
            assert(d[i] == items[i]);
        }
        lemma_launch_ready_desc_fate(snap, l1, d);
        lemma_launch_ready_desc(snap, l1, d);
        let r = launch_ready_desc(snap, l, items);
        assert(r == launch_ready_desc(snap, l1, d));
        let nr = l.running.len() as int;
        let np = l.panicked.len() as int;
        let ns = l.started.len() as int;
        let nr1 = l1.running.len() as int;
        let np1 = l1.panicked.len() as int;
        let ns1 = l1.started.len() as int;
        let tainted_b = taint_applies(snap.panic_policy, l.panicked, b.0, b.1, b.2);
        // What launching `b` did.
        assert(l1.panicked.take(np) == l.panicked) by {
            if snap.is_ready(b) && tainted_b {
                assert(l1.panicked.take(np) =~= l.panicked);
            } else {
                assert(l1.panicked.take(np) =~= l.panicked);
            }
        }
        assert(np1 >= np);
        assert(forall|j: int| 0 <= j < np ==> #[trigger] l1.panicked[j] == l.panicked[j]) by {
            assert forall|j: int| 0 <= j < np implies #[trigger] l1.panicked[j] == l.panicked[j] by {
                assert(l1.panicked.take(np)[j] == l1.panicked[j]);
            }
        }
        assert(r.panicked.take(np1) == l1.panicked);
        assert(r.running.take(nr1) == l1.running);
        assert forall|j: int| 0 <= j < np1 implies #[trigger] r.panicked[j] == l1.panicked[j] by {
            assert(r.panicked.take(np1)[j] == r.panicked[j]);
        }
        assert forall|j: int| 0 <= j < nr1 implies #[trigger] r.running[j] == l1.running[j] by {
            assert(r.running.take(nr1)[j] == r.running[j]);
        }
        // Panicked ones added come from `items`.
        assert forall|i: int| np <= i < r.panicked.len() implies items.contains(
            #[trigger] panicked_entry(r.panicked[i]),
        ) by {
            if i >= np1 {
                assert(d.contains(panicked_entry(r.panicked[i])));
                let k = choose|k: int| 0 <= k < d.len() && d[k] == panicked_entry(r.panicked[i]);
                assert(items[k] == d[k]);
            } else {
                assert(panicked_entry(r.panicked[i]) == items[n]);
            }
        }
        // Every ready one lands somewhere.
        assert forall|k: int| 0 <= k < items.len() && snap.is_ready(items[k]) implies r.running.contains(
            #[trigger] items[k],
        ) || exists|i: int| 0 <= i < r.panicked.len() && #[trigger] panicked_entry(r.panicked[i]) == items[k] by {
            if k < n {
                assert(d[k] == items[k]);
                assert(snap.is_ready(d[k]));
            } else if tainted_b {
                assert(panicked_entry(r.panicked[np]) == items[k]);
            } else {
                assert(r.running[nr] == items[k]);
            }
        }
        // Started ones follow running ones.
        assert(l1.started.len() - ns == nr1 - nr);
        assert(r.started.take(ns1) == l1.started);
        assert(r.started.take(ns) =~= l.started) by {
            assert(r.started.take(ns1).take(ns) =~= r.started.take(ns));
            assert(l1.started.take(ns) =~= l.started);
        }
        assert forall|dd: int| 0 <= dd < r.started.len() - ns implies #[trigger] r.started[ns + dd].0 == r.running[nr
            + dd].0 by {
            if ns + dd >= ns1 {
                assert(r.started[ns1 + (ns + dd - ns1)].0 == r.running[nr1 + (ns + dd - ns1)].0);
            } else {
                assert(r.started.take(ns1)[ns + dd] == r.started[ns + dd]);
                assert(l1.started[ns] == (b.0, snap.consumers[b.1]));
                assert(l1.running[nr] == b);
            }
        }
        if snap.panic_policy == PanicPolicy::StoreButSubsequentProblem {
            assert forall|i: int, j: int| nr <= i < r.running.len() && 0 <= j < np implies !taints(
                #[trigger] l.panicked[j],
                #[trigger] r.running[i].0,
                r.running[i].1,
                r.running[i].2,
            ) by {
                if i >= nr1 {
                    assert(l1.panicked[j] == l.panicked[j]);
                    assert(!taints(l1.panicked[j], r.running[i].0, r.running[i].1, r.running[i].2));
                } else {
                    assert(r.running[i] == b);
                    if taints(l.panicked[j], b.0, b.1, b.2) {
                        lemma_first_taint_exists(l.panicked, j, b.0, b.1, b.2);
                    }
                }
            }
            assert forall|k: int, j: int|
                0 <= k < items.len() && 0 <= j < np && snap.is_ready(#[trigger] items[k]) && taints(
                    #[trigger] l.panicked[j],
                    items[k].0,
                    items[k].1,
                    items[k].2,
                ) implies exists|i: int| np <= i < r.panicked.len() && #[trigger] panicked_entry(r.panicked[i]) == items[k] by {
                if k < n {
                    assert(d[k] == items[k]);
                    assert(l1.panicked[j] == l.panicked[j]);
                    assert(taints(l1.panicked[j], d[k].0, d[k].1, d[k].2));
                    assert(snap.is_ready(d[k]));
                    let i = choose|i: int| np1 <= i < r.panicked.len() && #[trigger] panicked_entry(r.panicked[i]) == d[k];
                } else {
                    lemma_first_taint_exists(l.panicked, j, b.0, b.1, b.2);
                    assert(panicked_entry(r.panicked[np]) == items[k]);
                }
            }
        }
    } else {
        assert(launch_ready_desc(snap, l, items) == l);
        assert(l.started.take(l.started.len() as int) =~= l.started);
    }
}

/// Some emission of `running` from index `from` on has the number `x`.
pub open spec fn runs_number_from<E, A>(running: Seq<Entry<E, A>>, from: int, x: usize) -> bool {
    exists|k: int| from <= k < running.len() && running[k].0 == x
}

/// Under `StoreButSubsequentProblem`, clearing the backlog never starts an
/// emission that a panic recorded before it taints: none of the emissions it
/// adds to the running ones is tainted, every consumer it hands out belongs to
/// one of those, and a tainted emission that leaves the backlog is recorded as
/// panicked.
pub proof fn law_clear_backlog_never_starts_tainted<E: Interleaves<A> + PartialEq + Clone, A, C>(
    s: SchedulerView<E, A, C>,
)
    requires
        s.wf(),
        s.panic_policy == PanicPolicy::StoreButSubsequentProblem,
    ensures
        ({
            let t = s.clear_backlog_spec().0;
            let nr = s.running.len() as int;
            let np = s.panicked.len() as int;
            let ns = s.started.len() as int;
            &&& forall|i: int, j: int|
                nr <= i < t.running.len() && 0 <= j < np ==> !(s.panicked[j].0 < t.running[i].0
                    && !(#[trigger] s.panicked[j]).1.interleave_spec(
                    &s.panicked[j].2,
                    &(#[trigger] t.running[i]).1,
                    &t.running[i].2,
                ))
            &&& t.started.len() >= ns
            &&& t.started.take(ns) == s.started
            &&& forall|i: int| ns <= i < t.started.len() ==> runs_number_from(t.running, nr, (#[trigger] t.started[i]).0)
            &&& forall|k: int, j: int|
                0 <= k < s.backlog.len() && 0 <= j < np && !t.backlog.contains(#[trigger] s.backlog[k])
                    && s.panicked[j].0 < s.backlog[k].0 && !(#[trigger] s.panicked[j]).1.interleave_spec(
                    &s.panicked[j].2,
                    &s.backlog[k].1,
                    &s.backlog[k].2,
                ) ==> exists|i: int| np <= i < t.panicked.len() && #[trigger] panicked_entry(t.panicked[i]) == s.backlog[k]
        }),
{
    assert forall|i: int| 0 <= i < s.backlog.len() implies s.consumers.contains_key(
        #[trigger] s.backlog[i].1,
    ) by {}
    lemma_launch_ready_desc(s, s.launches(), s.backlog);
    lemma_launch_ready_desc_fate(s, s.launches(), s.backlog);
    law_clear_backlog_lets_go_exactly_the_free(s);
    let t = s.clear_backlog_spec().0;
    let l = launch_ready_desc(s, s.launches(), s.backlog);
    assert(t.started == l.started && t.running == l.running && t.panicked == l.panicked);
    assert(s.launches().panicked == s.panicked);
    let nr = s.running.len() as int;
    let np = s.panicked.len() as int;
    let ns = s.started.len() as int;
    assert forall|i: int| ns <= i < t.started.len() implies runs_number_from(t.running, nr, (#[trigger] t.started[i]).0) by {
        let dd = i - ns;
        assert(l.started[ns + dd].0 == l.running[nr + dd].0);
        assert(t.running[nr + dd].0 == t.started[i].0);
    }
    assert forall|k: int| 0 <= k < s.backlog.len() && !t.backlog.contains(#[trigger] s.backlog[k]) implies s.is_ready(
        s.backlog[k],
    ) by {
        broadcast use vstd::seq_lib::group_filter_ensures;
        if !s.is_ready(s.backlog[k]) {
            s.backlog.lemma_filter_contains(s.must_wait(), k);
        }
    }
    assert forall|k: int, j: int|
        0 <= k < s.backlog.len() && 0 <= j < np && !t.backlog.contains(#[trigger] s.backlog[k])
            && s.panicked[j].0 < s.backlog[k].0 && !(#[trigger] s.panicked[j]).1.interleave_spec(
            &s.panicked[j].2,
            &s.backlog[k].1,
            &s.backlog[k].2,
        ) implies exists|i: int| np <= i < t.panicked.len() && #[trigger] panicked_entry(t.panicked[i]) == s.backlog[k] by {
        assert(s.is_ready(s.backlog[k]));
        assert(taints(s.launches().panicked[j], s.backlog[k].0, s.backlog[k].1, s.backlog[k].2));
        let i = choose|i: int| np <= i < l.panicked.len() && #[trigger] panicked_entry(l.panicked[i]) == s.backlog[k];
        assert(panicked_entry(t.panicked[i]) == s.backlog[k]);
    }
    assert(t.started.len() >= ns) by {
        assert(t.running.len() >= nr);
    }
}

/// Clearing the backlog loses nothing and makes nothing up: an emission held
/// afterwards was held before, and one that leaves the backlog runs or is
/// recorded as panicked.
pub proof fn law_clear_backlog_loses_nothing<E: Interleaves<A> + PartialEq + Clone, A, C>(
    s: SchedulerView<E, A, C>,
)
    requires
        s.wf(),
    ensures
        forall|e: Entry<E, A>| holds(s.clear_backlog_spec().0, e) ==> holds(s, e),
        forall|k: int|
            0 <= k < s.backlog.len() && !s.clear_backlog_spec().0.backlog.contains(#[trigger] s.backlog[k]) ==> {
                ||| s.clear_backlog_spec().0.running.contains(s.backlog[k])
                ||| exists|i: int|
                    0 <= i < s.clear_backlog_spec().0.panicked.len() && #[trigger] panicked_entry(
                        s.clear_backlog_spec().0.panicked[i],
                    ) == s.backlog[k]
            },
{
    broadcast use vstd::seq_lib::group_filter_ensures;

    assert forall|i: int| 0 <= i < s.backlog.len() implies s.consumers.contains_key(
        #[trigger] s.backlog[i].1,
    ) by {}
    lemma_launch_ready_desc(s, s.launches(), s.backlog);
    lemma_launch_ready_desc_fate(s, s.launches(), s.backlog);
    let t = s.clear_backlog_spec().0;
    let nr = s.running.len() as int;
    let np = s.panicked.len() as int;
    assert forall|e: Entry<E, A>| holds(t, e) implies holds(s, e) by {
        if t.running.contains(e) {
            let i = choose|i: int| 0 <= i < t.running.len() && t.running[i] == e;
            if i < nr {
                assert(t.running.take(nr)[i] == t.running[i]);
                assert(s.running[i] == e);
            } else {
                let l = launch_ready_desc(s, s.launches(), s.backlog);
                assert(t.running == l.running);
                assert(l.running[i] == e);
                assert(s.is_ready(l.running[i]) && s.backlog.contains(l.running[i]));
            }
        } else if t.backlog.contains(e) {
            assert(t.backlog == s.backlog.filter(s.must_wait()));
            s.backlog.lemma_filter_contains_rev(s.must_wait(), e);
        } else {
            let i = choose|i: int| 0 <= i < t.panicked.len() && #[trigger] panicked_entry(t.panicked[i]) == e;
            if i < np {
                assert(t.panicked.take(np)[i] == t.panicked[i]);
                assert(panicked_entry(s.panicked[i]) == e);
            } else {
                assert(s.backlog.contains(panicked_entry(t.panicked[i])));
            }
        }
    }
    assert forall|k: int| 0 <= k < s.backlog.len() && !t.backlog.contains(#[trigger] s.backlog[k]) implies s.is_ready(
        s.backlog[k],
    ) by {
        if !s.is_ready(s.backlog[k]) {
            s.backlog.lemma_filter_contains(s.must_wait(), k);
        }
    }
}

/// Emitting holds what was held before and at most the new emission besides,
/// numbered with the count of earlier emissions.
proof fn lemma_emit_origin<E: Interleaves<A> + PartialEq + Clone, A, C>(s: SchedulerView<E, A, C>, event: E, arg: A)
    requires
        s.wf(),
        s.emitted < usize::MAX,
    ensures
        s.emit_spec(event, arg).0.emitted == s.emitted + 1,
        forall|e: Entry<E, A>|
            holds(s.emit_spec(event, arg).0, e) ==> holds(s, e) || e == (s.emitted, event, arg),
{
    let everything = event.interleaves_with_everything_spec(&arg);
    let s1 = if everything {
        s
    } else {
        s.clear_backlog_spec().0
    };
    if !everything {
        law_clear_backlog_loses_nothing(s);
    }
    let n = s.emitted;
    let t = s.emit_spec(event, arg).0;
    if s.consumers.contains_key(event) {
        lemma_launch_one(s1, s1.launches(), n, event, arg);
    }
    assert forall|e: Entry<E, A>| holds(t, e) implies holds(s1, e) || e == (n, event, arg) by {
        if t.running.contains(e) {
            let i = choose|i: int| 0 <= i < t.running.len() && t.running[i] == e;
            if i < s1.running.len() {
                assert(s1.running[i] == e);
            }
        } else if t.backlog.contains(e) {
            let i = choose|i: int| 0 <= i < t.backlog.len() && t.backlog[i] == e;
            if i < s1.backlog.len() {
                assert(s1.backlog[i] == e);
            }
        } else {
            let i = choose|i: int| 0 <= i < t.panicked.len() && #[trigger] panicked_entry(t.panicked[i]) == e;
            if i < s1.panicked.len() {
                assert(t.panicked.take(s1.panicked.len() as int)[i] == t.panicked[i]);
                assert(panicked_entry(s1.panicked[i]) == e);
            }
        }
    }
}

/// Cascading emits the produced events in the order given: afterwards every
/// emission held was held before, or is produced event `i`, numbered with the
/// earlier count of emissions plus `i`. So a later produced event never runs
/// ahead of an earlier one under the earlier one's number.
pub proof fn law_cascade_in_order<E: Interleaves<A> + PartialEq + Clone, A, C>(
    s: SchedulerView<E, A, C>,
    items: Seq<(E, A)>,
)
    requires
        s.wf(),
        s.emitted + items.len() <= usize::MAX,
    ensures
        crate::cascading::emit_all(s, items).emitted == s.emitted + items.len(),
        forall|e: Entry<E, A>|
            #[trigger] holds(crate::cascading::emit_all(s, items), e) ==> holds(s, e) || (s.emitted <= e.0 < s.emitted
                + items.len() && e.1 == items[e.0 - s.emitted].0 && e.2 == items[e.0 - s.emitted].1),
    decreases items.len(),
{
    if items.len() > 0 {
        let s1 = s.emit_spec(items[0].0, items[0].1).0;
        let rest = items.drop_first();
        lemma_step_wf(s, Operation::Emit(items[0].0, items[0].1));
        lemma_emit_origin(s, items[0].0, items[0].1);
        law_cascade_in_order(s1, rest);
        let t = crate::cascading::emit_all(s, items);
        assert(t == crate::cascading::emit_all(s1, rest));
        assert forall|e: Entry<E, A>| #[trigger] holds(t, e) implies holds(s, e) || (s.emitted <= e.0 < s.emitted
            + items.len() && e.1 == items[e.0 - s.emitted].0 && e.2 == items[e.0 - s.emitted].1) by {
            if holds(s1, e) {
            } else {
                assert(rest[e.0 - s1.emitted] == items[e.0 - s.emitted]);
            }
        }
    }
}

/// An emission that does not interleave with everything waits exactly when,
/// once the backlog was cleared, some earlier emission still running or
/// waiting does not interleave with it; otherwise it starts, unless a recorded
/// panic taints it.
pub proof fn law_emit_waits_exactly_when_blocked<E: Interleaves<A> + PartialEq + Clone, A, C>(
    s: SchedulerView<E, A, C>,
    event: E,
    arg: A,
)
    requires
        s.wf(),
        s.emitted < usize::MAX,
        s.consumers.contains_key(event),
        !event.interleaves_with_everything_spec(&arg),
    ensures
        ({
            let (t, r) = s.emit_spec(event, arg);
            &&& r.0
            &&& r.1 <==> ((exists|i: int|
                0 <= i < t.running.len() && (#[trigger] t.running[i]).0 < s.emitted
                    && !t.running[i].1.interleave_spec(&t.running[i].2, &event, &arg)) || (exists|i: int|
                0 <= i < t.backlog.len() && (#[trigger] t.backlog[i]).0 < s.emitted
                    && !t.backlog[i].1.interleave_spec(&t.backlog[i].2, &event, &arg)))
            &&& !r.1 ==> r.2 || (t.panicked.len() > 0 && panicked_entry(t.panicked.last()) == (
                s.emitted,
                event,
                arg,
            ))
        }),
{
    let s1 = s.clear_backlog_spec().0;
    lemma_clear_backlog_wf(s);
    let n = s.emitted;
    let (t, r) = s.emit_spec(event, arg);
    lemma_launch_one(s1, s1.launches(), n, event, arg);
    if s1.has_earlier_dependence(event, arg) {
        if exists|i: int| 0 <= i < s1.backlog.len() && blocks_new(#[trigger] s1.backlog[i], event, arg) {
            let i = choose|i: int| 0 <= i < s1.backlog.len() && blocks_new(#[trigger] s1.backlog[i], event, arg);
            assert(t.backlog[i] == s1.backlog[i]);
        } else {
            let i = choose|i: int| 0 <= i < s1.running.len() && blocks_new(#[trigger] s1.running[i], event, arg);
            assert(t.running[i] == s1.running[i]);
        }
    } else {
        assert forall|i: int|
            0 <= i < t.running.len() && (#[trigger] t.running[i]).0 < s.emitted implies t.running[i].1.interleave_spec(
            &t.running[i].2,
            &event,
            &arg,
        ) by {
            if i < s1.running.len() {
                assert(t.running[i] == s1.running[i]);
                assert(!blocks_new(s1.running[i], event, arg));
            }
        }
        assert forall|i: int|
            0 <= i < t.backlog.len() && (#[trigger] t.backlog[i]).0 < s.emitted implies t.backlog[i].1.interleave_spec(
            &t.backlog[i].2,
            &event,
            &arg,
        ) by {
            assert(!blocks_new(s1.backlog[i], event, arg));
        }
        if !r.2 {
            assert(s1.tainted(n, event, arg));
        }
    }
}

} // verus!
