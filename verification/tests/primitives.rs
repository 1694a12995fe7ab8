//! Tests of the two leaf types: the fork's atomic check-and-set and the
//! philosopher's ring adjacency.

use dining_philosophers::fork::{Fork, Status};
use dining_philosophers::philosopher::{Philosopher, PhilosopherState};

#[test]
fn fork_check_and_set() {
    let mut f = Fork::new(3);
    assert_eq!(f.id, 3);
    assert!(f.is_free());
    assert_eq!(f.status, Status::Free);
    // First acquisition succeeds and occupies; a second one fails.
    assert!(f.pick_up());
    assert!(!f.is_free());
    assert_eq!(f.status, Status::Occupied);
    assert!(!f.pick_up());
    assert_eq!(f.status, Status::Occupied);
    // Release frees unconditionally, and acquisition works again.
    f.put_down();
    assert!(f.is_free());
    assert!(f.pick_up());
    assert!(!f.is_free());
}

#[test]
fn put_down_a_free_fork_keeps_it_free() {
    let mut f = Fork::new(0);
    f.put_down();
    assert!(f.is_free());
}

#[test]
fn ring_adjacency() {
    // An ordinary agent needs its own fork and the next one.
    let p = Philosopher::new(2, 5);
    assert_eq!(p.number, 2);
    assert_eq!(p.state, PhilosopherState::Thinking);
    assert_eq!(p.left_fork(), 2);
    assert_eq!(p.right_fork(), 3);
    // The last agent wraps around to fork 0: the ring closes.
    let last = Philosopher::new(4, 5);
    assert_eq!(last.left_fork(), 4);
    assert_eq!(last.right_fork(), 0);
    // The minimal ring: both agents share forks 0 and 1.
    let a = Philosopher::new(0, 2);
    let b = Philosopher::new(1, 2);
    assert_eq!((a.left_fork(), a.right_fork()), (0, 1));
    assert_eq!((b.left_fork(), b.right_fork()), (1, 0));
}

#[test]
fn new_agent_holds_nothing() {
    let p = Philosopher::new(0, 3);
    assert!(!p.holds_left);
    assert!(!p.holds_right);
}
