use rust_thread_pool::{worker_step, worker_turn, ThreadPool, WorkerExit, WorkerStep};
use std::cell::RefCell;
use std::collections::VecDeque;
use std::rc::Rc;

type Queue = Rc<RefCell<VecDeque<String>>>;

type Seen = Rc<RefCell<Vec<(usize, String)>>>;

type Worker = Box<dyn FnOnce() -> bool>;

fn queue() -> Queue {
    Rc::new(RefCell::new(VecDeque::new()))
}

fn en_q(q: &Queue, msg: String) {
    q.borrow_mut().push_back(msg);
}

fn de_q(q: &Queue) -> String {
    q.borrow_mut().pop_front().expect("a worker would block on the empty queue")
}

fn items(q: &Queue) -> Vec<String> {
    q.borrow().iter().cloned().collect()
}

fn join(worker: Worker) -> bool {
    worker()
}

// One turn of worker `id`: it records what it executes, and stops at "quit".
fn turn(id: usize, q: &Queue, seen: &Seen) -> WorkerStep {
    let execute = |msg: &String| {
        if msg == "quit" {
            true
        } else {
            seen.borrow_mut().push((id, msg.clone()));
            false
        }
    };
    worker_turn(q, de_q, execute, en_q)
}

// A worker that runs its whole loop when it is joined.
fn relay_worker(id: usize, q: &Queue, seen: &Seen) -> Worker {
    let (q, seen) = (Rc::clone(q), Rc::clone(seen));
    Box::new(move || {
        while turn(id, &q, &seen) == WorkerStep::Next {}
        true
    })
}

// Lets the workers that still run take turns, one item at a time, until none
// can move. Returns how many have exited.
fn run_in_turns(running: &mut Vec<bool>, q: &Queue, seen: &Seen) -> usize {
    loop {
        let mut moved = false;
        for id in 0..running.len() {
            if running[id] && !q.borrow().is_empty() {
                moved = true;
                if turn(id, q, seen) == WorkerStep::Relay {
                    running[id] = false;
                }
            }
        }
        if !moved {
            break;
        }
    }
    running.iter().filter(|r| !**r).count()
}

fn executed(seen: &Seen) -> Vec<String> {
    seen.borrow().iter().map(|(_, msg)| msg.clone()).collect()
}

#[test]
fn worker_step_relays_only_the_terminal_item() {
    assert_eq!(worker_step(false), WorkerStep::Next);
    assert_eq!(worker_step(true), WorkerStep::Relay);
}

#[test]
fn worker_turn_executes_work_and_takes_it_off_the_queue() {
    let q = queue();
    let seen: Seen = Rc::new(RefCell::new(Vec::new()));
    en_q(&q, "a".to_string());
    en_q(&q, "b".to_string());
    assert_eq!(turn(0, &q, &seen), WorkerStep::Next);
    assert_eq!(*seen.borrow(), vec![(0, "a".to_string())]);
    assert_eq!(items(&q), vec!["b".to_string()]);
}

#[test]
fn worker_turn_puts_the_terminal_item_back_behind_the_rest() {
    let q = queue();
    let seen: Seen = Rc::new(RefCell::new(Vec::new()));
    en_q(&q, "quit".to_string());
    en_q(&q, "late".to_string());
    assert_eq!(turn(0, &q, &seen), WorkerStep::Relay);
    assert!(seen.borrow().is_empty());
    assert_eq!(items(&q), vec!["late".to_string(), "quit".to_string()]);
}

#[test]
fn worker_turn_hands_the_taken_item_to_execute() {
    let q = queue();
    en_q(&q, "only".to_string());
    let got = RefCell::new(Vec::new());
    let step = worker_turn(
        &q,
        de_q,
        |msg: &String| {
            got.borrow_mut().push(msg.clone());
            false
        },
        |_q: &Queue, _m: String| unreachable!(),
    );
    assert_eq!(step, WorkerStep::Next);
    assert_eq!(*got.borrow(), vec!["only".to_string()]);
}

#[test]
fn one_worker_sees_the_item_posted_before_quit() {
    let sbq = queue();
    let seen: Seen = Rc::new(RefCell::new(Vec::new()));
    let mut tp = ThreadPool::new(1, Rc::clone(&sbq), queue(), |q: &Queue, _r: &Queue| {
        relay_worker(0, q, &seen)
    });
    tp.post_message("a".to_string(), en_q);
    tp.post_message("quit".to_string(), en_q);
    assert_eq!(tp.wait(join), vec![WorkerExit::Finished]);
    assert_eq!(*seen.borrow(), vec![(0, "a".to_string())]);
}

#[test]
fn four_workers_record_twenty_messages_once_each() {
    let sbq = queue();
    let seen: Seen = Rc::new(RefCell::new(Vec::new()));
    let next = RefCell::new(0usize);
    let mut tp = ThreadPool::new(4, Rc::clone(&sbq), queue(), |q: &Queue, _r: &Queue| {
        let id = *next.borrow();
        *next.borrow_mut() += 1;
        relay_worker(id, q, &seen)
    });
    let msg = String::from("message #");
    for i in 0..20 {
        let mut msg = msg.clone();
        msg.push_str(&i.to_string());
        tp.post_message(msg, en_q);
    }
    tp.post_message("quit".to_string(), en_q);
    let report = tp.wait(join);
    assert_eq!(report, vec![WorkerExit::Finished; 4]);
    let expected: Vec<String> = (0..20).map(|i| format!("message #{}", i)).collect();
    assert_eq!(executed(&seen), expected);
    assert_eq!(items(&sbq), vec!["quit".to_string()]);
}

#[test]
fn every_item_is_executed_once_for_any_number_of_workers() {
    for n in 1..=5usize {
        for k in 0..=7usize {
            let q = queue();
            let seen: Seen = Rc::new(RefCell::new(Vec::new()));
            let work: Vec<String> = (0..k).map(|i| format!("item {}", i)).collect();
            for item in &work {
                en_q(&q, item.clone());
            }
            en_q(&q, "quit".to_string());
            let mut running = vec![true; n];
            assert_eq!(run_in_turns(&mut running, &q, &seen), n);
            assert_eq!(executed(&seen), work);
            assert!(seen.borrow().iter().all(|(id, _)| *id < n));
        }
    }
}

#[test]
fn the_relay_ends_with_the_one_sentinel_on_the_queue() {
    for n in 1..=4usize {
        let q = queue();
        let seen: Seen = Rc::new(RefCell::new(Vec::new()));
        en_q(&q, "x".to_string());
        en_q(&q, "quit".to_string());
        let mut running = vec![true; n];
        assert_eq!(run_in_turns(&mut running, &q, &seen), n);
        assert!(running.iter().all(|r| !*r));
        assert_eq!(items(&q), vec!["quit".to_string()]);
    }
}

#[test]
fn work_is_shared_out_when_workers_take_turns() {
    let q = queue();
    let seen: Seen = Rc::new(RefCell::new(Vec::new()));
    for i in 0..6 {
        en_q(&q, format!("w{}", i));
    }
    en_q(&q, "quit".to_string());
    let mut running = vec![true; 3];
    assert_eq!(run_in_turns(&mut running, &q, &seen), 3);
    let expected: Vec<(usize, String)> = (0..6).map(|i| (i % 3, format!("w{}", i))).collect();
    assert_eq!(*seen.borrow(), expected);
}

#[test]
fn three_producers_of_ten_items_lose_nothing() {
    let q = queue();
    let seen: Seen = Rc::new(RefCell::new(Vec::new()));
    let workers = 3usize;
    let mut running = vec![true; workers];
    let mut posted = Vec::new();
    for i in 0..10 {
        for producer in 0..3 {
            let item = format!("p{} #{}", producer, i);
            posted.push(item.clone());
            en_q(&q, item);
        }
        // The workers take some of it while the producers go on.
        if i % 2 == 1 {
            for id in 0..workers {
                assert_eq!(turn(id, &q, &seen), WorkerStep::Next);
            }
        }
    }
    for _ in 0..workers {
        en_q(&q, "quit".to_string());
    }
    assert_eq!(run_in_turns(&mut running, &q, &seen), workers);
    let mut got = executed(&seen);
    assert_eq!(got.len(), 30);
    assert_eq!(got, posted);
    got.sort();
    got.dedup();
    assert_eq!(got.len(), 30);
    assert_eq!(items(&q), vec!["quit".to_string(); 3]);
}

#[test]
fn a_worker_that_waits_for_work_is_not_lost() {
    let q = queue();
    let seen: Seen = Rc::new(RefCell::new(Vec::new()));
    let mut running = vec![true; 2];
    // Nothing is posted yet: both workers wait.
    assert_eq!(run_in_turns(&mut running, &q, &seen), 0);
    en_q(&q, "late".to_string());
    assert_eq!(run_in_turns(&mut running, &q, &seen), 0);
    assert_eq!(executed(&seen), vec!["late".to_string()]);
    en_q(&q, "quit".to_string());
    assert_eq!(run_in_turns(&mut running, &q, &seen), 2);
    assert_eq!(items(&q), vec!["quit".to_string()]);
}

#[test]
fn a_failed_worker_does_not_stop_the_relay() {
    let sbq = queue();
    let seen: Seen = Rc::new(RefCell::new(Vec::new()));
    let next = RefCell::new(0usize);
    // A worker ends abnormally on the item "bad": it neither records it nor
    // goes on.
    let start = |q: &Queue, _r: &Queue| -> Worker {
        let id = *next.borrow();
        *next.borrow_mut() += 1;
        let (q, seen) = (Rc::clone(q), Rc::clone(&seen));
        Box::new(move || loop {
            if q.borrow().front().map(|m| m == "bad").unwrap_or(false) {
                de_q(&q);
                return false;
            }
            if turn(id, &q, &seen) == WorkerStep::Relay {
                return true;
            }
        })
    };
    let mut tp = ThreadPool::new(3, Rc::clone(&sbq), queue(), start);
    for msg in ["a", "bad", "c", "d", "quit"] {
        tp.post_message(msg.to_string(), en_q);
    }
    let report = tp.wait(join);
    assert_eq!(report, vec![WorkerExit::Failed, WorkerExit::Finished, WorkerExit::Finished]);
    assert_eq!(
        *seen.borrow(),
        vec![(0, "a".to_string()), (1, "c".to_string()), (1, "d".to_string())]
    );
    assert_eq!(items(&sbq), vec!["quit".to_string()]);
}

// A work item that says by itself whether it is the terminal one.
#[derive(Debug, Clone, PartialEq)]
struct WorkItem {
    id: u32,
    stop: bool,
}

impl WorkItem {
    fn execute(&self, done: &RefCell<Vec<u32>>) -> bool {
        if !self.stop {
            done.borrow_mut().push(self.id);
        }
        self.stop
    }
}

#[test]
fn work_items_with_a_stop_flag_are_relayed_too() {
    let q: Rc<RefCell<VecDeque<WorkItem>>> = Rc::new(RefCell::new(VecDeque::new()));
    let done = RefCell::new(Vec::new());
    for id in 0..20 {
        q.borrow_mut().push_back(WorkItem { id, stop: false });
    }
    q.borrow_mut().push_back(WorkItem { id: 20, stop: true });
    let take = |q: &Rc<RefCell<VecDeque<WorkItem>>>| q.borrow_mut().pop_front().unwrap();
    let put = |q: &Rc<RefCell<VecDeque<WorkItem>>>, wi: WorkItem| q.borrow_mut().push_back(wi);
    let mut exits = 0;
    for _worker in 0..4 {
        while worker_turn(&q, take, |wi: &WorkItem| wi.execute(&done), put) == WorkerStep::Next {}
        exits += 1;
    }
    assert_eq!(exits, 4);
    assert_eq!(*done.borrow(), (0..20).collect::<Vec<u32>>());
    let left: Vec<WorkItem> = q.borrow().iter().cloned().collect();
    assert_eq!(left, vec![WorkItem { id: 20, stop: true }]);
}
