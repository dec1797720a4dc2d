use event_emitter::events::{Emitter, Interleaves};
use event_emitter::general_emitter::WaitStep;

#[derive(PartialEq, Eq, Hash, Copy, Clone, Debug)]
struct ABTemp(bool);

impl<T> Interleaves<T> for ABTemp {
    fn interleave_spec(&self, _: &T, other: &Self, _: &T) -> bool {
        self == other
    }

    fn interleaves_with_everything_spec(&self, _my_aux: &T) -> bool {
        false
    }

    fn do_interleave(&self, my_aux: &T, other: &Self, others_aux: &T) -> bool {
        self.interleave_spec(my_aux, other, others_aux)
    }

    fn interleaves_with_everything(&self, my_aux: &T) -> bool {
        self.interleaves_with_everything_spec(my_aux)
    }
}

/// A consumer, run on a simulated clock: it answers how many milliseconds it runs.
type Consumer<A> = fn(&A) -> u64;

/// Threads, simulated: each started consumer finishes at a time on a clock that
/// moves only when the waiting loop sleeps; finished threads are joined when
/// the emitter polls them, and their outputs are sent in that order.
struct Threads<A> {
    clock: u64,
    handles: Vec<(usize, u64)>,
    outputs: Vec<(usize, ABTemp, A)>,
}

impl<A: Clone> Threads<A> {
    fn new() -> Self {
        Threads { clock: 0, handles: Vec::new(), outputs: Vec::new() }
    }

    fn spawn_started(&mut self, emitter: &mut Emitter<ABTemp, A, Consumer<A>>) {
        for (pos, consumer) in emitter.take_started() {
            let entry = emitter.running_entry(pos).expect("a started emission runs");
            let runs_for = consumer(&entry.2);
            self.handles.push((pos, self.clock + runs_for));
        }
    }

    fn is_finished(&self, pos: usize) -> bool {
        self.handles.iter().any(|(p, end)| *p == pos && *end <= self.clock)
    }

    fn clear_finished(&mut self, emitter: &mut Emitter<ABTemp, A, Consumer<A>>) -> bool {
        let flags: Vec<bool> = emitter.running_numbers().iter().map(|pos| self.is_finished(*pos)).collect();
        let done = emitter.clear_finished(&flags);
        let something_finished = !done.is_empty();
        for (pos, event, arg) in done {
            self.handles.retain(|(p, _)| *p != pos);
            self.outputs.push((pos, event, arg));
        }
        something_finished
    }

    fn emit(&mut self, emitter: &mut Emitter<ABTemp, A, Consumer<A>>, event: ABTemp, arg: A) -> (bool, bool, bool) {
        if !event.interleaves_with_everything(&arg) {
            self.clear_finished(emitter);
        }
        let r = emitter.emit(event, arg);
        self.spawn_started(emitter);
        r
    }

    fn wait_for_all(&mut self, d: u64, emitter: &mut Emitter<ABTemp, A, Consumer<A>>) {
        loop {
            let something_finished = self.clear_finished(emitter);
            match emitter.wait_after_poll(something_finished) {
                WaitStep::Done => break,
                WaitStep::Cleared(_) => self.spawn_started(emitter),
                WaitStep::Sleep => self.clock += d,
            }
        }
    }
}

#[test]
fn events_two_events() {
    let mut threads: Threads<u64> = Threads::new();
    let mut emitter: Emitter<ABTemp, u64, Consumer<u64>> = Emitter::new();
    let true_new = emitter.on(ABTemp(true), |wait_time| wait_time * 1000);
    assert!(true_new);
    let false_new = emitter.on(ABTemp(false), |wait_time| wait_time * 1000);
    assert!(false_new);
    let mut total_emissions = 0;
    let mut expected_emissions: Vec<(ABTemp, u64, ())> = Vec::with_capacity(3);

    let emission_now = (ABTemp(true), 2);
    expected_emissions.push((emission_now.0, emission_now.1, ()));
    let (exists, spawn_later, spawned) = threads.emit(&mut emitter, emission_now.0, emission_now.1);
    total_emissions += 1;
    assert!(exists && spawned && !spawn_later);

    let emission_now = (ABTemp(true), 1);
    expected_emissions.push((emission_now.0, emission_now.1, ()));
    let (exists, spawn_later, spawned) = threads.emit(&mut emitter, emission_now.0, emission_now.1);
    total_emissions += 1;
    assert!(exists && spawned && !spawn_later);

    let emission_now: (ABTemp, u64) = (ABTemp(false), 1);
    expected_emissions.push((emission_now.0, emission_now.1, ()));
    let (exists, spawn_later, spawned) = threads.emit(&mut emitter, emission_now.0, emission_now.1);
    total_emissions += 1;
    assert!(exists && !spawned && spawn_later);

    let true_used_to_exist = emitter.off(ABTemp(true));
    assert!(true_used_to_exist);

    let (exists, spawn_later, spawned) = threads.emit(&mut emitter, ABTemp(true), 10);
    assert!(!exists && !spawned && !spawn_later);

    threads.wait_for_all(250, &mut emitter);
    let expected_order = vec![1, 0, 2];

    for (received_order, v) in threads.outputs.iter().enumerate().take(total_emissions) {
        let which_item = expected_order[received_order];
        let expected = &expected_emissions[which_item];
        assert_eq!(v.0, which_item);
        assert_eq!(v.1, expected.0);
        assert_eq!(v.2, expected.1);
    }
    assert_eq!(threads.outputs.len(), total_emissions);
}

#[test]
fn events_common_resource() {
    type MyArgType = (i32, u64);
    let a: Consumer<MyArgType> = |(_, wait_millis)| *wait_millis;
    let b: Consumer<MyArgType> = |(_, wait_millis)| *wait_millis;

    let mut threads: Threads<MyArgType> = Threads::new();
    let mut emitter: Emitter<ABTemp, MyArgType, Consumer<MyArgType>> = Emitter::new();
    let true_new = emitter.on(ABTemp(true), a);
    assert!(true_new);
    let false_new = emitter.on(ABTemp(false), b);
    assert!(false_new);

    let mut exp_data_val = 1;
    let mut other_operand;
    let mut expected_time = 0;
    let mut serial_time = 0;

    other_operand = 1;
    let wait_time_1 = 50;
    threads.emit(&mut emitter, ABTemp(true), (other_operand, wait_time_1));
    exp_data_val += other_operand;

    other_operand = 10;
    let wait_time_2 = 60;
    threads.emit(&mut emitter, ABTemp(true), (other_operand, wait_time_2));
    exp_data_val += other_operand;

    expected_time += std::cmp::max(wait_time_1, wait_time_2);
    serial_time += wait_time_1;
    serial_time += wait_time_2;

    other_operand = 2;
    let wait_time_3 = 50;
    threads.emit(&mut emitter, ABTemp(false), (other_operand, wait_time_3));
    exp_data_val *= other_operand;
    expected_time += wait_time_3;
    serial_time += wait_time_3;

    other_operand = 24;
    let wait_time_4 = 20;
    threads.emit(&mut emitter, ABTemp(true), (other_operand, wait_time_4));
    exp_data_val += other_operand;
    expected_time += wait_time_4;
    serial_time += wait_time_4;

    let loop_time = 15;
    let now = threads.clock;
    threads.wait_for_all(loop_time, &mut emitter);
    let elapsed = threads.clock - now;
    assert!(elapsed < expected_time + 3 * loop_time);
    assert!(elapsed < serial_time);

    // The consumers act on the shared value in the order they finished.
    let mut data_val = 1;
    for (_, event, (operand, _)) in &threads.outputs {
        if event.0 {
            data_val += operand;
        } else {
            data_val *= operand;
        }
    }
    assert_eq!(data_val, exp_data_val);
}

#[test]
fn emitter_registration_and_all_off() {
    let mut emitter: Emitter<ABTemp, u64, Consumer<u64>> = Emitter::new();
    assert!(emitter.is_empty());
    assert!(emitter.on(ABTemp(true), |w| *w));
    assert!(!emitter.on(ABTemp(true), |w| *w + 1));
    assert!(emitter.on(ABTemp(false), |w| *w));
    assert!(!emitter.backlog_uses_this(&ABTemp(true)));
    emitter.all_off();
    let (exists, later, now) = emitter.emit(ABTemp(true), 1);
    assert!(!exists && !later && !now);
    assert!(!emitter.off(ABTemp(false)));
    assert!(emitter.is_empty());
}

#[test]
fn emitter_backlog_blocks_registration() {
    let mut emitter: Emitter<ABTemp, u64, Consumer<u64>> = Emitter::new();
    emitter.on(ABTemp(true), |w| *w);
    emitter.on(ABTemp(false), |w| *w);
    assert_eq!(emitter.emit(ABTemp(true), 5), (true, false, true));
    assert_eq!(emitter.take_started().iter().map(|s| s.0).collect::<Vec<_>>(), vec![0]);
    assert_eq!(emitter.emit(ABTemp(false), 5), (true, true, false));
    assert!(emitter.take_started().is_empty());
    assert!(emitter.backlog_uses_this(&ABTemp(false)));
    assert!(!emitter.backlog_uses_this(&ABTemp(true)));
    assert_eq!(emitter.count_waiting(), 1);
    // Once the first one finished, the waiting one starts.
    let done = emitter.clear_finished(&vec![true]);
    assert_eq!(done, vec![(0, ABTemp(true), 5)]);
    assert_eq!(emitter.wait_after_poll(true), WaitStep::Cleared(true));
    assert_eq!(emitter.running_numbers(), vec![1]);
    assert_eq!(emitter.take_started().iter().map(|s| s.0).collect::<Vec<_>>(), vec![1]);
    assert_eq!(emitter.count_waiting(), 0);
}
