use event_emitter::cascading::Cascader;
use event_emitter::general_emitter::{GeneralEmitter, PanicPolicy, PanicResponse, WaitStep};
use event_emitter::interleaving::Interleaves;
use event_emitter::scheduler::Scheduler;
use event_emitter::tokio_events::TokioEmitter;

/// Emissions of the example in the README: which step of a program an emission is.
#[derive(PartialEq, Eq, Hash, Copy, Clone, Debug)]
struct Step(u8);

impl Interleaves<u64> for Step {
    fn interleave_spec(&self, _: &u64, other: &Self, _: &u64) -> bool {
        // The third and the fifth do not commute with the second.
        !matches!((self.0, other.0), (2, 3) | (3, 2) | (2, 5) | (5, 2))
    }

    fn interleaves_with_everything_spec(&self, _my_aux: &u64) -> bool {
        self.0 == 4
    }

    fn do_interleave(&self, my_aux: &u64, other: &Self, others_aux: &u64) -> bool {
        self.interleave_spec(my_aux, other, others_aux)
    }

    fn interleaves_with_everything(&self, my_aux: &u64) -> bool {
        self.interleaves_with_everything_spec(my_aux)
    }
}

fn readme_emitter() -> TokioEmitter<Step, u64, u8> {
    let mut emitter: TokioEmitter<Step, u64, u8> = TokioEmitter::new();
    for i in 1..=5u8 {
        assert_eq!(emitter.on(Step(i), i), Ok(true));
    }
    emitter
}

#[test]
fn readme_example_runs_what_commutes_and_holds_back_the_rest() {
    let mut emitter = readme_emitter();
    assert_eq!(emitter.emit(Step(1), 0), (true, false, true));
    assert_eq!(emitter.emit(Step(2), 0), (true, false, true));
    assert_eq!(emitter.emit(Step(3), 0), (true, true, false));
    assert_eq!(emitter.emit(Step(4), 0), (true, false, true));
    assert_eq!(emitter.emit(Step(5), 0), (true, true, false));
    assert_eq!(emitter.running_numbers(), vec![0, 1, 3]);
    assert_eq!(emitter.count_waiting(), 2);
    assert_eq!(emitter.take_started(), vec![(0, 1), (1, 2), (3, 4)]);

    // The first and the fourth finishing changes nothing for the waiting ones.
    assert!(emitter.task_done(0, &Step(1)));
    assert!(emitter.task_done(3, &Step(4)));
    let mut nums = vec![0, 1, 3];
    assert_eq!(emitter.wait_round(&mut nums), WaitStep::Cleared(false));
    assert_eq!(nums, vec![1]);
    assert_eq!(emitter.count_waiting(), 2);

    // Once the second finished, the third and the fifth start, the latest first.
    assert!(emitter.task_done(1, &Step(2)));
    assert!(!emitter.task_done(1, &Step(2)));
    assert_eq!(emitter.wait_round(&mut nums), WaitStep::Cleared(true));
    assert_eq!(emitter.count_waiting(), 0);
    assert_eq!(emitter.running_numbers(), vec![4, 2]);
    assert_eq!(emitter.take_started(), vec![(4, 5), (2, 3)]);
    assert_eq!(emitter.wait_round(&mut nums), WaitStep::Cleared(false));
    assert_eq!(emitter.wait_round(&mut nums), WaitStep::Sleep);
    assert!(emitter.task_done(2, &Step(3)));
    assert!(emitter.task_done(4, &Step(5)));
    assert_eq!(emitter.wait_round(&mut nums), WaitStep::Done);
    assert!(emitter.is_empty());
}

#[test]
fn interleaving_with_everything_skips_the_backlog() {
    let mut emitter = readme_emitter();
    emitter.emit(Step(2), 0);
    assert_eq!(emitter.emit(Step(3), 0), (true, true, false));
    // The fourth starts while the third still waits.
    assert_eq!(emitter.emit(Step(4), 0), (true, false, true));
    assert_eq!(emitter.count_running(), 2);
    assert_eq!(emitter.count_waiting(), 1);
}

#[test]
fn registration_is_refused_while_an_emission_waits() {
    let mut emitter = readme_emitter();
    emitter.emit(Step(2), 0);
    emitter.emit(Step(3), 0);
    assert_eq!(
        emitter.on(Step(3), 9),
        Err("Already had a callback for that type of event and had some backlogs for it. Can't change it.".to_string())
    );
    assert_eq!(
        emitter.off(Step(3)),
        Err("Already had a callback for that type of event and had some backlogs for it. Can't remove it.".to_string())
    );
    // Nothing changed: the waiting one keeps its consumer.
    assert!(emitter.task_done(0, &Step(2)));
    let mut nums = vec![0];
    assert_eq!(emitter.wait_round(&mut nums), WaitStep::Cleared(true));
    assert_eq!(emitter.take_started(), vec![(0, 2), (1, 3)]);
    assert_eq!(emitter.on(Step(3), 9), Ok(false));
    assert_eq!(emitter.off(Step(3)), Ok(true));
    assert_eq!(emitter.off(Step(3)), Ok(false));
}

#[test]
fn all_off_keeps_what_waiting_emissions_need() {
    let mut emitter = readme_emitter();
    emitter.emit(Step(2), 0);
    emitter.emit(Step(5), 0);
    assert!(!emitter.all_off());
    let mut keys = emitter.all_keys();
    keys.sort_by_key(|s| s.0);
    assert_eq!(keys, vec![Step(5)]);
    let mut emitter = readme_emitter();
    assert!(emitter.all_off());
    assert!(emitter.all_keys().is_empty());
}

#[test]
fn emissions_are_numbered_in_order_and_each_is_held_once() {
    let mut emitter = readme_emitter();
    let mut held = 0;
    for (i, step) in [2u8, 3, 2, 5, 1, 4].iter().enumerate() {
        let (exists, later, now) = emitter.emit(Step(*step), i as u64);
        assert!(exists && (later != now));
        held += 1;
        assert_eq!(emitter.count_running() + emitter.count_waiting(), held);
    }
    assert_eq!(emitter.running_numbers(), vec![0, 4, 5]);
    // An emission without a consumer is numbered too, and nothing holds it.
    assert_eq!(emitter.emit(Step(9), 0), (false, false, false));
    assert_eq!(emitter.count_running() + emitter.count_waiting(), held);
    assert_eq!(emitter.emit(Step(1), 0), (true, false, true));
    assert_eq!(emitter.running_numbers(), vec![0, 4, 5, 7]);
}

#[test]
fn without_the_tainting_policy_nothing_waits_on_a_panic() {
    for policy in [PanicPolicy::PanicAgain, PanicPolicy::StoreButNoSubsequentProblem] {
        let mut emitter = readme_emitter();
        emitter.reset_panic_policy(policy.clone());
        emitter.emit(Step(2), 0);
        emitter.emit(Step(3), 0);
        emitter.emit(Step(5), 0);
        assert!(emitter.task_done(0, &Step(2)));
        let mut nums = vec![0];
        assert_eq!(emitter.wait_round(&mut nums), WaitStep::Cleared(true));
        assert_eq!(emitter.count_panicked(), 0);
        assert_eq!(emitter.running_numbers(), vec![2, 1]);
        assert_eq!(emitter.panic_policy(), policy);
    }
}

#[test]
fn a_panicking_consumer_is_recorded_under_the_storing_policies() {
    let mut emitter = readme_emitter();
    emitter.emit(Step(2), 0);
    assert_eq!(emitter.task_panicked(0, &Step(2)), PanicResponse::Propagate);
    assert_eq!(emitter.count_running(), 0);
    assert_eq!(emitter.count_panicked(), 0);
    assert_eq!(emitter.task_panicked(0, &Step(2)), PanicResponse::NotRunning);

    for policy in [PanicPolicy::StoreButNoSubsequentProblem, PanicPolicy::StoreButSubsequentProblem] {
        let mut emitter = readme_emitter();
        emitter.reset_panic_policy(policy);
        emitter.emit(Step(1), 0);
        emitter.emit(Step(2), 0);
        assert_eq!(emitter.task_panicked(1, &Step(1)), PanicResponse::NotRunning);
        assert_eq!(emitter.task_panicked(1, &Step(2)), PanicResponse::Recorded);
        assert_eq!(emitter.running_numbers(), vec![0]);
        assert_eq!(emitter.count_panicked(), 1);
    }
}

#[test]
fn a_recorded_panic_taints_what_depends_on_it() {
    let mut emitter = readme_emitter();
    emitter.reset_panic_policy(PanicPolicy::StoreButSubsequentProblem);
    emitter.emit(Step(2), 0);
    assert_eq!(emitter.task_panicked(0, &Step(2)), PanicResponse::Recorded);
    // The third does not commute with the second: it never starts and is recorded too.
    assert_eq!(emitter.emit(Step(3), 0), (true, false, false));
    assert_eq!(emitter.count_panicked(), 2);
    assert_eq!(emitter.count_running(), 0);
    // The first commutes with it and starts.
    assert_eq!(emitter.emit(Step(1), 0), (true, false, true));
    // Only the second and the first were ever handed out to run.
    assert_eq!(emitter.take_started(), vec![(0, 2), (2, 1)]);

    // Under the other storing policy the third starts as usual.
    let mut emitter = readme_emitter();
    emitter.reset_panic_policy(PanicPolicy::StoreButNoSubsequentProblem);
    emitter.emit(Step(2), 0);
    assert_eq!(emitter.task_panicked(0, &Step(2)), PanicResponse::Recorded);
    assert_eq!(emitter.emit(Step(3), 0), (true, false, true));
    assert_eq!(emitter.count_panicked(), 1);
}

#[test]
fn waiting_never_sleeps_while_nothing_runs() {
    let mut emitter = readme_emitter();
    let mut nums = Vec::new();
    assert_eq!(emitter.wait_round(&mut nums), WaitStep::Done);
    emitter.emit(Step(2), 0);
    emitter.emit(Step(3), 0);
    assert!(emitter.task_done(0, &Step(2)));
    // Nothing runs, and the same (empty) set ran before: the backlog is still cleared.
    assert_eq!(emitter.wait_round(&mut nums), WaitStep::Cleared(true));
    assert_eq!(emitter.running_numbers(), vec![1]);
}

#[test]
fn scheduler_finishing_and_clearing() {
    let mut s: Scheduler<Step, u64, u8> = Scheduler::new();
    assert_eq!(s.on(Step(1), 1), Ok(true));
    assert_eq!(s.on(Step(2), 2), Ok(true));
    assert_eq!(s.on(Step(3), 3), Ok(true));
    s.emit(Step(1), 10);
    s.emit(Step(2), 20);
    s.emit(Step(3), 30);
    assert_eq!(s.running_numbers(), vec![0, 1]);
    // Finished ones come back from the last to the first.
    let done = s.clear_finished(&vec![true, true]);
    assert_eq!(done, vec![(1, Step(2), 20), (0, Step(1), 10)]);
    assert_eq!(s.wait_after_poll(true), WaitStep::Cleared(true));
    assert_eq!(s.running_entry(2), Some(&(2, Step(3), 30)));
    assert_eq!(s.running_entry(0), None);
    assert_eq!(s.wait_after_poll(false), WaitStep::Sleep);
    assert_eq!(s.clear_finished(&vec![false]), vec![]);
    assert_eq!(s.clear_finished(&vec![true]), vec![(2, Step(3), 30)]);
    assert_eq!(s.wait_after_poll(true), WaitStep::Done);
}

#[test]
fn cascading_emits_what_a_finished_consumer_produced() {
    let mut c: Cascader<Step, u64, u8> = Cascader::new();
    c.on(Step(2), 2).unwrap();
    c.on(Step(3), 3).unwrap();
    c.on(Step(1), 1).unwrap();
    c.emit(Step(2), 0);
    c.cascade(vec![(Step(3), 7), (Step(1), 8), (Step(9), 9)]);
    assert_eq!(c.count_running(), 2);
    assert_eq!(c.count_waiting(), 1);
    assert_eq!(c.running_numbers(), vec![0, 2]);
    assert_eq!(c.take_started(), vec![(0, 2), (2, 1)]);
    assert_eq!(c.running_entry(2), Some(&(2, Step(1), 8)));
    c.emit(Step(1), 0);
    // The emission without a consumer was numbered too.
    assert_eq!(c.running_numbers(), vec![0, 2, 4]);
}

#[test]
fn cascading_waits_stop_after_a_round_in_which_nothing_finished() {
    let mut c: Cascader<Step, u64, u8> = Cascader::new();
    c.on(Step(2), 2).unwrap();
    c.on(Step(3), 3).unwrap();
    c.emit(Step(2), 0);
    c.emit(Step(3), 0);
    assert_eq!(c.cascade_round(false), WaitStep::Done);
    assert_eq!(c.count_waiting(), 1);
    assert_eq!(c.clear_finished(&vec![true]), vec![(0, Step(2), 0)]);
    assert_eq!(c.cascade_round(true), WaitStep::Cleared(true));
    assert_eq!(c.running_numbers(), vec![1]);
    assert_eq!(c.clear_finished(&vec![true]), vec![(1, Step(3), 0)]);
    assert_eq!(c.cascade_round(true), WaitStep::Done);
}

#[test]
fn slots_new_holds_no_slot() {
    let mut v: Vec<Option<u8>> = event_emitter::utils::GeneralMap::new();
    assert!(v.is_empty());
    assert_eq!(event_emitter::utils::GeneralMap::insert(&mut v, 1, 7), 0);
}
