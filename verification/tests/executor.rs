use async_basics::{example_round_robin_executor, run_round_robin, SimpleFuture, TrafficLightFuture};
use std::cell::RefCell;
use std::rc::Rc;

/// Adds its countdown to its sum on every poll and completes with the sum
/// once the countdown has reached zero.
struct CountdownFuture(u32, u32);

impl SimpleFuture for CountdownFuture {
    type Output = u32;

    fn poll(&mut self) -> Option<Self::Output> {
        self.1 += self.0;
        if self.0 == 0 {
            Some(self.1)
        } else {
            self.0 -= 1;
            None
        }
    }
}

/// Writes its own number into a shared log on every poll, answers "not yet"
/// `pending` times and then completes with its number.
struct Recorder {
    id: usize,
    pending: u32,
    log: Rc<RefCell<Vec<usize>>>,
}

impl SimpleFuture for Recorder {
    type Output = usize;

    fn poll(&mut self) -> Option<Self::Output> {
        self.log.borrow_mut().push(self.id);
        if self.pending == 0 {
            Some(self.id)
        } else {
            self.pending -= 1;
            None
        }
    }
}

fn recorders(pending: &[u32], log: &Rc<RefCell<Vec<usize>>>) -> Vec<Box<dyn SimpleFuture<Output = usize>>> {
    let mut tasks: Vec<Box<dyn SimpleFuture<Output = usize>>> = Vec::new();
    for (id, p) in pending.iter().enumerate() {
        tasks.push(Box::new(Recorder { id, pending: *p, log: Rc::clone(log) }));
    }
    tasks
}

fn polls_of(log: &[usize], id: usize) -> usize {
    log.iter().filter(|entry| **entry == id).count()
}

#[test]
fn test_round_robin() {
    let input = vec![
        Box::new(TrafficLightFuture::Green) as Box<dyn SimpleFuture<Output = ()>>,
        Box::new(TrafficLightFuture::Red) as Box<dyn SimpleFuture<Output = ()>>,
        Box::new(TrafficLightFuture::Yellow) as Box<dyn SimpleFuture<Output = ()>>,
    ];
    assert_eq!(&example_round_robin_executor(input), &[(), (), ()]);

    let input = vec![
        Box::new(CountdownFuture(4, 0)) as Box<dyn SimpleFuture<Output = u32>>,
        Box::new(CountdownFuture(2, 0)) as Box<dyn SimpleFuture<Output = u32>>,
        Box::new(CountdownFuture(3, 0)) as Box<dyn SimpleFuture<Output = u32>>,
    ];
    assert_eq!(&example_round_robin_executor(input), &[10, 3, 6]);
}

#[test]
fn no_tasks_give_no_results() {
    let input: Vec<Box<dyn SimpleFuture<Output = u32>>> = Vec::new();
    assert_eq!(example_round_robin_executor(input), Vec::<u32>::new());
}

#[test]
fn single_task_is_polled_to_completion() {
    let input = vec![Box::new(CountdownFuture(5, 1)) as Box<dyn SimpleFuture<Output = u32>>];
    assert_eq!(example_round_robin_executor(input), vec![16]);
}

#[test]
fn task_that_is_done_at_once_takes_one_poll() {
    let log = Rc::new(RefCell::new(Vec::new()));
    let out = example_round_robin_executor(recorders(&[0], &log));
    assert_eq!(out, vec![0]);
    assert_eq!(*log.borrow(), vec![0]);
}

#[test]
fn results_keep_the_order_of_the_tasks() {
    // The last task completes first and the first one last.
    let log = Rc::new(RefCell::new(Vec::new()));
    let out = example_round_robin_executor(recorders(&[6, 4, 2, 0], &log));
    assert_eq!(out, vec![0, 1, 2, 3]);

    let input = vec![
        Box::new(CountdownFuture(1, 100)) as Box<dyn SimpleFuture<Output = u32>>,
        Box::new(CountdownFuture(7, 0)) as Box<dyn SimpleFuture<Output = u32>>,
        Box::new(CountdownFuture(0, 42)) as Box<dyn SimpleFuture<Output = u32>>,
        Box::new(CountdownFuture(3, 5)) as Box<dyn SimpleFuture<Output = u32>>,
    ];
    assert_eq!(example_round_robin_executor(input), vec![101, 28, 42, 11]);
}

#[test]
fn polls_go_round_in_passes() {
    let log = Rc::new(RefCell::new(Vec::new()));
    let out = example_round_robin_executor(recorders(&[2, 0, 1], &log));
    assert_eq!(out, vec![0, 1, 2]);
    // Pass by pass: all three, then the two that are left, then the last one.
    assert_eq!(*log.borrow(), vec![0, 1, 2, 0, 2, 0]);
}

#[test]
fn one_task_does_not_run_ahead_of_another() {
    // Task 0 completes on its third poll, task 1 on its fifth.
    let log = Rc::new(RefCell::new(Vec::new()));
    example_round_robin_executor(recorders(&[2, 4], &log));
    let log = log.borrow();
    let third_of_first = log
        .iter()
        .enumerate()
        .filter(|(_, id)| **id == 0)
        .nth(2)
        .map(|(at, _)| at)
        .unwrap();
    assert!(polls_of(&log[..third_of_first], 1) >= 2);
    // At every poll, every task has been polled as often as the polled one,
    // unless it was complete with less.
    let needs = [3usize, 5];
    for at in 0..log.len() {
        let so_far = polls_of(&log[..at], log[at]);
        for other in 0..needs.len() {
            assert!(polls_of(&log[..at], other) >= so_far.min(needs[other]));
        }
    }
}

#[test]
fn no_task_is_polled_after_it_completed() {
    let pending = [3u32, 0, 5, 1, 0, 2];
    let log = Rc::new(RefCell::new(Vec::new()));
    let out = example_round_robin_executor(recorders(&pending, &log));
    assert_eq!(out, vec![0, 1, 2, 3, 4, 5]);
    let log = log.borrow();
    for (id, p) in pending.iter().enumerate() {
        assert_eq!(polls_of(&log, id), *p as usize + 1);
    }
    assert_eq!(log.len(), 17);
}

#[test]
fn two_runs_on_the_same_tasks_agree() {
    let first_log = Rc::new(RefCell::new(Vec::new()));
    let second_log = Rc::new(RefCell::new(Vec::new()));
    let first = example_round_robin_executor(recorders(&[1, 3, 0, 2], &first_log));
    let second = example_round_robin_executor(recorders(&[1, 3, 0, 2], &second_log));
    assert_eq!(first, second);
    assert_eq!(*first_log.borrow(), *second_log.borrow());

    let make = || {
        vec![
            Box::new(CountdownFuture(4, 0)) as Box<dyn SimpleFuture<Output = u32>>,
            Box::new(CountdownFuture(2, 0)) as Box<dyn SimpleFuture<Output = u32>>,
            Box::new(CountdownFuture(3, 0)) as Box<dyn SimpleFuture<Output = u32>>,
        ]
    };
    assert_eq!(example_round_robin_executor(make()), example_round_robin_executor(make()));
}

#[test]
fn traced_run_gives_the_same_results() {
    let input = vec![
        Box::new(CountdownFuture(4, 0)) as Box<dyn SimpleFuture<Output = u32>>,
        Box::new(CountdownFuture(2, 0)) as Box<dyn SimpleFuture<Output = u32>>,
        Box::new(CountdownFuture(3, 0)) as Box<dyn SimpleFuture<Output = u32>>,
    ];
    let (out, _trace) = run_round_robin(input);
    assert_eq!(out, vec![10, 3, 6]);
}

#[test]
fn tasks_of_one_type_need_no_trait_object() {
    let input = vec![
        Box::new(CountdownFuture(1, 0)),
        Box::new(CountdownFuture(0, 9)),
        Box::new(CountdownFuture(2, 1)),
    ];
    let (out, _trace) = run_round_robin(input);
    assert_eq!(out, vec![1, 9, 4]);

    let lights = vec![
        Box::new(TrafficLightFuture::Red),
        Box::new(TrafficLightFuture::Green),
    ];
    let (out, _trace) = run_round_robin(lights);
    assert_eq!(out, vec![(), ()]);
}

#[test]
fn executor_keeps_polling_a_task_that_is_not_done() {
    // A task that never completes keeps the executor busy for ever. This one
    // gives in after a bound of our choosing: up to that bound the executor
    // must neither return nor leave the task alone.
    let bound = 100_000u32;
    let log = Rc::new(RefCell::new(Vec::new()));
    let out = example_round_robin_executor(recorders(&[1, bound, 0], &log));
    assert_eq!(out, vec![0, 1, 2]);
    let log = log.borrow();
    assert_eq!(polls_of(&log, 1), bound as usize + 1);
    assert_eq!(polls_of(&log, 0), 2);
    assert_eq!(polls_of(&log, 2), 1);
    assert_eq!(log[..5], [0, 1, 2, 0, 1]);
    assert!(log[5..].iter().all(|id| *id == 1));
}
