use std::cell::Cell;
use std::rc::Rc;
use std::task::Poll;

use futures_unordered::{FuturesUnordered, Step};
use futures_unordered::{Dequeue, ReadyToRunQueue};

/// A computation that stays pending for `rounds` polls, asking to be polled
/// again each time, and then yields `value`.
struct Countdown {
    rounds: u32,
    value: i32,
    wakes_itself: bool,
    drops: Rc<Cell<u32>>,
}

impl Drop for Countdown {
    fn drop(&mut self) {
        self.drops.set(self.drops.get() + 1);
    }
}

fn countdown(rounds: u32, value: i32, drops: &Rc<Cell<u32>>) -> Countdown {
    Countdown { rounds, value, wakes_itself: true, drops: drops.clone() }
}

/// Runs the poll driver the way a stream's `poll_next` would.
fn poll_next(set: &mut FuturesUnordered<Countdown>) -> Poll<Option<i32>> {
    loop {
        match set.poll_next_step() {
            Step::Exhausted => return Poll::Ready(None),
            Step::Pending | Step::PendingRewake => return Poll::Pending,
            Step::Poll(i, mut f) => {
                if f.rounds == 0 {
                    let v = f.value;
                    drop(f);
                    set.release(i);
                    return Poll::Ready(Some(v));
                }
                f.rounds -= 1;
                if f.wakes_itself {
                    set.wake(i);
                }
                set.relink(i, f);
            }
        }
    }
}

#[test]
fn new_set_is_empty_and_exhausted() {
    let mut set: FuturesUnordered<Countdown> = FuturesUnordered::new();
    assert_eq!(set.len(), 0);
    assert!(set.is_empty());
    assert_eq!(poll_next(&mut set), Poll::Ready(None));
}

#[test]
fn len_counts_pushes() {
    let drops = Rc::new(Cell::new(0));
    let mut set = FuturesUnordered::new();
    for n in 0..5 {
        assert_eq!(set.len(), n);
        set.push(countdown(1, n as i32, &drops));
    }
    assert_eq!(set.len(), 5);
    assert!(!set.is_empty());
    assert_eq!(set.scheduled(), 5);
}

#[test]
fn from_vec_is_like_pushing() {
    let drops = Rc::new(Cell::new(0));
    let v = vec![countdown(0, 7, &drops), countdown(0, 8, &drops), countdown(0, 9, &drops)];
    let mut set = FuturesUnordered::from_vec(v);
    assert_eq!(set.len(), 3);
    assert_eq!(set.members(), vec![2, 1, 0]);
    assert_eq!(poll_next(&mut set), Poll::Ready(Some(7)));
    assert_eq!(poll_next(&mut set), Poll::Ready(Some(8)));
    assert_eq!(poll_next(&mut set), Poll::Ready(Some(9)));
    assert_eq!(poll_next(&mut set), Poll::Ready(None));
}

#[test]
fn members_without_wakeup_are_pending_not_exhausted() {
    let drops = Rc::new(Cell::new(0));
    let mut set = FuturesUnordered::new();
    let mut quiet = countdown(1, 5, &drops);
    quiet.wakes_itself = false;
    set.push(quiet);
    assert_eq!(poll_next(&mut set), Poll::Pending);
    assert_eq!(set.len(), 1);
    assert_eq!(poll_next(&mut set), Poll::Pending);
    assert_eq!(set.scheduled(), 0);
    set.wake(0);
    assert_eq!(poll_next(&mut set), Poll::Ready(Some(5)));
    assert_eq!(poll_next(&mut set), Poll::Ready(None));
}

#[test]
fn each_value_is_delivered_once() {
    let drops = Rc::new(Cell::new(0));
    let mut set = FuturesUnordered::new();
    set.push(countdown(0, 1, &drops));
    set.push(countdown(0, 2, &drops));
    let mut seen = Vec::new();
    loop {
        match poll_next(&mut set) {
            Poll::Ready(Some(v)) => seen.push(v),
            Poll::Ready(None) => break,
            Poll::Pending => panic!("no member should be left waiting"),
        }
        // Waking a finished member must not bring it back.
        set.wake(0);
        set.wake(1);
    }
    seen.sort();
    assert_eq!(seen, vec![1, 2]);
    assert_eq!(poll_next(&mut set), Poll::Ready(None));
    assert_eq!(drops.get(), 2);
}

#[test]
fn wakeup_caught_mid_insertion_is_not_lost() {
    let drops = Rc::new(Cell::new(0));
    let mut set = FuturesUnordered::new();
    let mut quiet = countdown(1, 4, &drops);
    quiet.wakes_itself = false;
    set.push(quiet);
    assert_eq!(poll_next(&mut set), Poll::Pending);
    // A producer claims a position but has not published it yet.
    assert!(set.begin_wake(0));
    assert!(matches!(set.poll_next_step(), Step::PendingRewake));
    assert_eq!(set.scheduled(), 1);
    set.end_wake(0);
    assert_eq!(poll_next(&mut set), Poll::Ready(Some(4)));
    assert_eq!(poll_next(&mut set), Poll::Ready(None));
}

#[test]
fn results_come_in_completion_order() {
    let drops = Rc::new(Cell::new(0));
    let mut set = FuturesUnordered::new();
    set.push(countdown(3, 30, &drops));
    set.push(countdown(0, 10, &drops));
    set.push(countdown(1, 20, &drops));
    assert_eq!(poll_next(&mut set), Poll::Ready(Some(10)));
    assert_eq!(poll_next(&mut set), Poll::Ready(Some(20)));
    assert_eq!(poll_next(&mut set), Poll::Ready(Some(30)));
    assert_eq!(poll_next(&mut set), Poll::Ready(None));
}

#[test]
fn many_wakeups_enqueue_once() {
    let drops = Rc::new(Cell::new(0));
    let mut set = FuturesUnordered::new();
    let mut quiet = countdown(1, 6, &drops);
    quiet.wakes_itself = false;
    set.push(quiet);
    assert_eq!(poll_next(&mut set), Poll::Pending);
    assert!(!set.is_queued(0));
    for _ in 0..100 {
        set.wake(0);
    }
    assert!(set.is_queued(0));
    assert_eq!(set.scheduled(), 1);
    assert!(!set.begin_wake(0));
    assert_eq!(poll_next(&mut set), Poll::Ready(Some(6)));
    assert_eq!(poll_next(&mut set), Poll::Ready(None));
}

#[test]
fn cancel_all_drops_every_pending_member() {
    let drops = Rc::new(Cell::new(0));
    let mut set = FuturesUnordered::new();
    for n in 0..4 {
        let mut quiet = countdown(5, n, &drops);
        quiet.wakes_itself = false;
        set.push(quiet);
    }
    assert_eq!(poll_next(&mut set), Poll::Pending);
    set.wake(2);
    set.cancel_all();
    assert_eq!(drops.get(), 4);
    assert_eq!(set.len(), 0);
    // Later wakeups reach only inert records.
    for i in 0..4 {
        set.wake(i);
        assert!(set.is_queued(i));
    }
    assert_eq!(set.scheduled(), 1);
    assert_eq!(poll_next(&mut set), Poll::Ready(None));
    assert_eq!(set.scheduled(), 0);
}

#[test]
fn aborted_member_is_removed_and_others_finish() {
    let drops = Rc::new(Cell::new(0));
    let mut set = FuturesUnordered::new();
    set.push(countdown(0, 1, &drops));
    set.push(countdown(2, 2, &drops));
    match set.poll_next_step() {
        Step::Poll(i, f) => {
            assert_eq!(i, 0);
            // The poll of this member aborted: it is finalized without a value.
            drop(f);
            set.release(i);
        }
        _ => panic!("the first member should be handed out"),
    }
    assert_eq!(set.len(), 1);
    assert_eq!(drops.get(), 1);
    assert_eq!(poll_next(&mut set), Poll::Ready(Some(2)));
    assert_eq!(poll_next(&mut set), Poll::Ready(None));
}

#[test]
fn wake_during_poll_schedules_again() {
    let drops = Rc::new(Cell::new(0));
    let mut set = FuturesUnordered::new();
    set.push(countdown(0, 3, &drops));
    match set.poll_next_step() {
        Step::Poll(i, f) => {
            assert!(!set.is_queued(i));
            set.wake(i);
            assert!(set.is_queued(i));
            set.relink(i, f);
        }
        _ => panic!("the member should be handed out"),
    }
    assert_eq!(set.len(), 1);
    assert_eq!(poll_next(&mut set), Poll::Ready(Some(3)));
}

#[test]
fn zombie_left_in_queue_is_discarded() {
    let drops = Rc::new(Cell::new(0));
    let mut set = FuturesUnordered::new();
    set.push(countdown(0, 1, &drops));
    set.push(countdown(0, 2, &drops));
    match set.poll_next_step() {
        Step::Poll(i, f) => {
            set.wake(i);
            drop(f);
            set.release(i);
        }
        _ => panic!("the member should be handed out"),
    }
    assert_eq!(set.scheduled(), 2);
    assert_eq!(poll_next(&mut set), Poll::Ready(Some(2)));
    assert_eq!(set.scheduled(), 1);
    assert_eq!(poll_next(&mut set), Poll::Ready(None));
    assert_eq!(set.scheduled(), 0);
}

#[test]
fn three_results_in_resolution_order() {
    let drops = Rc::new(Cell::new(0));
    let mut set = FuturesUnordered::new();
    set.push(countdown(0, 1, &drops));
    set.push(countdown(2, 2, &drops));
    set.push(countdown(1, 3, &drops));
    assert_eq!(poll_next(&mut set), Poll::Ready(Some(1)));
    assert_eq!(poll_next(&mut set), Poll::Ready(Some(3)));
    assert_eq!(poll_next(&mut set), Poll::Ready(Some(2)));
    assert_eq!(poll_next(&mut set), Poll::Ready(None));
}

#[test]
fn future_mut_changes_member_in_place() {
    let drops = Rc::new(Cell::new(0));
    let mut set = FuturesUnordered::new();
    set.push(countdown(0, 1, &drops));
    set.push(countdown(0, 2, &drops));
    for i in set.members() {
        set.future_mut(i).value *= 10;
    }
    assert_eq!(set.len(), 2);
    assert_eq!(poll_next(&mut set), Poll::Ready(Some(10)));
    assert_eq!(poll_next(&mut set), Poll::Ready(Some(20)));
}

#[test]
fn queue_reports_empty_inconsistent_and_data() {
    let mut q = ReadyToRunQueue::new();
    assert_eq!(q.dequeue(), Dequeue::Empty);
    q.claim(4);
    q.enqueue(7);
    assert!(q.contains(4));
    assert_eq!(q.dequeue(), Dequeue::Inconsistent);
    assert_eq!(q.len(), 2);
    q.publish(4);
    assert_eq!(q.dequeue(), Dequeue::Data(4));
    assert!(!q.contains(4));
    assert_eq!(q.dequeue(), Dequeue::Data(7));
    assert_eq!(q.dequeue(), Dequeue::Empty);
}

#[test]
fn default_is_an_empty_set() {
    let mut set: FuturesUnordered<Countdown> = FuturesUnordered::default();
    assert!(set.is_empty());
    assert_eq!(set.scheduled(), 0);
    assert_eq!(poll_next(&mut set), Poll::Ready(None));
}
