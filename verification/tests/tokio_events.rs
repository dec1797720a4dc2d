use event_emitter::general_emitter::{GeneralEmitter, PanicPolicy, WaitStep};
use event_emitter::interleaving::Interleaves;
use event_emitter::tokio_events::TokioEmitter;

#[derive(PartialEq, Eq, Hash, Copy, Clone, Debug)]
struct ABTemp(bool);

impl<T> Interleaves<T> for ABTemp {
    fn interleave_spec(&self, _: &T, other: &Self, _: &T) -> bool {
        self == other
    }

    fn interleaves_with_everything_spec(&self, _my_aux: &T) -> bool {
        false
    }

    fn do_interleave(&self, my_aux: &T, other: &Self, others_aux: &T) -> bool {
        self.interleave_spec(my_aux, other, others_aux)
    }

    fn interleaves_with_everything(&self, my_aux: &T) -> bool {
        self.interleaves_with_everything_spec(my_aux)
    }
}

/// A consumer, run on a simulated clock: it gets its argument and answers how
/// many milliseconds it runs.
type Consumer<A> = fn(&A) -> u64;

/// The async runtime, simulated: tasks started by the emitter run until their
/// finishing time on a clock that only moves when the waiting loop sleeps; a
/// finished task reports itself done and sends its output.
struct Runtime<A> {
    clock: u64,
    tasks: Vec<(usize, ABTemp, A, u64)>,
    outputs: Vec<(usize, ABTemp, A)>,
}

impl<A: Clone> Runtime<A> {
    fn new() -> Self {
        Runtime { clock: 0, tasks: Vec::new(), outputs: Vec::new() }
    }

    fn spawn_started(&mut self, emitter: &mut TokioEmitter<ABTemp, A, Consumer<A>>) {
        for (pos, consumer) in emitter.take_started() {
            let entry = emitter.running_entry(pos).expect("a started emission runs");
            let runs_for = consumer(&entry.2);
            self.tasks.push((pos, entry.1, entry.2.clone(), self.clock + runs_for));
        }
    }

    fn sleep(&mut self, d: u64, emitter: &mut TokioEmitter<ABTemp, A, Consumer<A>>) {
        self.clock += d;
        self.tasks.sort_by_key(|t| t.3);
        let clock = self.clock;
        let (done, still): (Vec<_>, Vec<_>) = self.tasks.drain(..).partition(|t| t.3 <= clock);
        self.tasks = still;
        for (pos, event, arg, _) in done {
            assert!(emitter.task_done(pos, &event));
            self.outputs.push((pos, event, arg));
        }
    }

    fn wait_for_all(&mut self, d: u64, emitter: &mut TokioEmitter<ABTemp, A, Consumer<A>>) {
        let mut finished_nums = emitter.running_numbers();
        loop {
            match emitter.wait_round(&mut finished_nums) {
                WaitStep::Done => break,
                WaitStep::Cleared(_) => self.spawn_started(emitter),
                WaitStep::Sleep => self.sleep(d, emitter),
            }
        }
    }
}

#[test]
fn tokio_events_two_events() {
    let mut rt: Runtime<u64> = Runtime::new();
    let mut emitter: TokioEmitter<ABTemp, u64, Consumer<u64>> = TokioEmitter::new();
    let true_new = emitter.on(ABTemp(true), |wait_time| wait_time * 100);
    assert_eq!(true_new, Ok(true), "Should be no problem turning on");
    let false_new = emitter.on(ABTemp(false), |wait_time| wait_time * 1000);
    assert_eq!(false_new, Ok(true), "Should be no problem turning on");
    let mut total_emissions = 0;
    let mut expected_emissions: Vec<(ABTemp, u64, ())> = Vec::with_capacity(3);

    let emission_now = (ABTemp(true), 2);
    expected_emissions.push((emission_now.0, emission_now.1, ()));
    let (exists, spawn_later, spawned) = emitter.emit(emission_now.0, emission_now.1);
    rt.spawn_started(&mut emitter);
    total_emissions += 1;
    assert!(exists && spawned && !spawn_later);

    let emission_now = (ABTemp(true), 1);
    expected_emissions.push((emission_now.0, emission_now.1, ()));
    let (exists, spawn_later, spawned) = emitter.emit(emission_now.0, emission_now.1);
    rt.spawn_started(&mut emitter);
    total_emissions += 1;
    assert!(exists && spawned && !spawn_later);

    let emission_now: (ABTemp, u64) = (ABTemp(false), 1);
    expected_emissions.push((emission_now.0, emission_now.1, ()));
    let (exists, spawn_later, spawned) = emitter.emit(emission_now.0, emission_now.1);
    rt.spawn_started(&mut emitter);
    total_emissions += 1;
    assert!(exists && !spawned && spawn_later);

    let true_used_to_exist = emitter.off(ABTemp(true));
    assert_eq!(
        true_used_to_exist,
        Ok(true),
        "Should be able to turn true off because they should already be running"
    );
    let true_used_to_exist = emitter.off(ABTemp(true));
    assert_eq!(
        true_used_to_exist,
        Ok(false),
        "Should not be able to turn true off because it doesn't exist anymore"
    );
    let false_used_to_exist = emitter.off(ABTemp(false));
    assert!(
        false_used_to_exist.is_err(),
        "Should not be able to turn true off because they are in backlog"
    );

    let (exists, spawn_later, spawned) = emitter.emit(ABTemp(true), 10);
    rt.spawn_started(&mut emitter);
    assert!(!exists && !spawned && !spawn_later);

    rt.wait_for_all(250, &mut emitter);
    let expected_order = [1, 0, 2];

    for (received_order, v) in rt.outputs.iter().enumerate().take(total_emissions) {
        let which_item = expected_order[received_order];
        let expected = &expected_emissions[which_item];
        assert_eq!(v.0, which_item);
        assert_eq!(v.1, expected.0);
        assert_eq!(v.2, expected.1);
    }
    assert_eq!(rt.outputs.len(), total_emissions);

    assert_eq!(emitter.count_panicked(), 0);
    assert_eq!(emitter.panic_policy(), PanicPolicy::PanicAgain);
}

type MyArgType = (i32, u64);

fn common_resource_helper(policy: PanicPolicy) {
    let a: Consumer<MyArgType> = |(_, wait_millis)| *wait_millis;
    let b: Consumer<MyArgType> = |(_, wait_millis)| *wait_millis;

    let mut rt: Runtime<MyArgType> = Runtime::new();
    let mut emitter: TokioEmitter<ABTemp, MyArgType, Consumer<MyArgType>> = TokioEmitter::new();
    emitter.reset_panic_policy(policy.clone());
    let true_new = emitter.on(ABTemp(true), a);
    assert_eq!(true_new, Ok(true), "Should be no problem turning on");
    let false_new = emitter.on(ABTemp(false), b);
    assert_eq!(false_new, Ok(true), "Should be no problem turning on");

    let mut exp_data_val = 1;
    let mut other_operand;
    let mut expected_time = 0;
    let mut serial_time = 0;
    let mut total_operations = 0;

    other_operand = 1;
    let wait_time_1 = 50;
    emitter.emit(ABTemp(true), (other_operand, wait_time_1));
    rt.spawn_started(&mut emitter);
    exp_data_val += other_operand;
    total_operations += 1;
    assert_eq!(emitter.count_running() + emitter.count_waiting(), total_operations);

    other_operand = 10;
    let wait_time_2 = 60;
    emitter.emit(ABTemp(true), (other_operand, wait_time_2));
    rt.spawn_started(&mut emitter);
    exp_data_val += other_operand;
    total_operations += 1;
    assert_eq!(emitter.count_running() + emitter.count_waiting(), total_operations);

    expected_time += std::cmp::max(wait_time_1, wait_time_2);
    serial_time += wait_time_1;
    serial_time += wait_time_2;

    other_operand = 2;
    let wait_time_3 = 50;
    emitter.emit(ABTemp(false), (other_operand, wait_time_3));
    rt.spawn_started(&mut emitter);
    exp_data_val *= other_operand;
    expected_time += wait_time_3;
    serial_time += wait_time_3;
    total_operations += 1;
    assert_eq!(emitter.count_running() + emitter.count_waiting(), total_operations);

    other_operand = 24;
    let wait_time_4 = 20;
    emitter.emit(ABTemp(true), (other_operand, wait_time_4));
    rt.spawn_started(&mut emitter);
    exp_data_val += other_operand;
    expected_time += wait_time_4;
    serial_time += wait_time_4;
    total_operations += 1;
    assert_eq!(emitter.count_running() + emitter.count_waiting(), total_operations);

    let loop_time = 15;
    let now = rt.clock;
    rt.wait_for_all(loop_time, &mut emitter);
    let elapsed = rt.clock - now;
    assert!(elapsed < expected_time + 3 * loop_time);
    assert!(elapsed < serial_time);

    // The consumers act on the shared value in the order they finished.
    let mut data_val = 1;
    for (_, event, (operand, _)) in &rt.outputs {
        if event.0 {
            data_val += operand;
        } else {
            data_val *= operand;
        }
    }
    assert_eq!(data_val, exp_data_val);
    assert_eq!(emitter.count_panicked(), 0);
    assert_eq!(emitter.panic_policy(), policy);

    for v in rt.outputs.iter().take(total_operations) {
        assert!(v.0 < total_operations);
        if v.0 < 2 {
            assert_eq!(v.1, ABTemp(true));
            assert!([1, 10].contains(&v.2 .0));
            assert!([wait_time_1, wait_time_2].contains(&v.2 .1));
        } else if v.0 == 2 {
            assert_eq!(v.1, ABTemp(false));
            assert_eq!(2, v.2 .0);
            assert_eq!(wait_time_3, v.2 .1);
        } else {
            assert_eq!(v.1, ABTemp(true));
            assert_eq!(24, v.2 .0);
            assert_eq!(wait_time_4, v.2 .1);
        }
    }
    assert_eq!(rt.outputs.len(), total_operations);
}

#[test]
fn tokio_events_common_resource() {
    common_resource_helper(PanicPolicy::PanicAgain);
    common_resource_helper(PanicPolicy::StoreButNoSubsequentProblem);
    common_resource_helper(PanicPolicy::StoreButSubsequentProblem);
}
