//! Scenario tests for the ring protocol: contention on a shared fork,
//! the minimal two-agent ring, the circular-wait hazard of the naive
//! order, and liveness of the lower-fork-first order under a
//! synchronized start.

use dining_philosophers::philosopher::PhilosopherState;
use dining_philosophers::table::{Event, Policy, SimError, Table};

fn eating_count(t: &Table) -> usize {
    let n = t.num_agents();
    let mut c = 0;
    for i in 0..n {
        if t.state_of(i) == PhilosopherState::Eating {
            c += 1;
        }
    }
    c
}

#[test]
fn rejects_ring_smaller_than_two() {
    assert_eq!(
        Table::new(0, Policy::LowerFirst).err(),
        Some(SimError::ConfigurationError)
    );
    assert_eq!(
        Table::new(1, Policy::LowerFirst).err(),
        Some(SimError::ConfigurationError)
    );
    assert!(Table::new(2, Policy::LowerFirst).is_ok());
}

#[test]
fn new_table_starts_thinking_with_free_forks() {
    let t = Table::new(5, Policy::LowerFirst).unwrap();
    assert_eq!(t.num_agents(), 5);
    for i in 0..5 {
        assert_eq!(t.state_of(i), PhilosopherState::Thinking);
        assert_eq!(t.holdings(i), (false, false));
        assert!(t.fork_is_free(i));
    }
}

#[test]
fn rejects_illegal_transitions() {
    let mut t = Table::new(3, Policy::LowerFirst).unwrap();
    // A thinking agent can neither eat, finish, nor pick up.
    assert_eq!(t.try_pick_up(0), Err(SimError::InvariantViolation));
    assert_eq!(t.start_eating(0).err(), Some(SimError::InvariantViolation));
    assert_eq!(t.finish_eating(0).err(), Some(SimError::InvariantViolation));
    // Hungry twice in a row is illegal.
    assert!(t.become_hungry(0).is_ok());
    assert_eq!(t.become_hungry(0).err(), Some(SimError::InvariantViolation));
    // Hungry without both forks may not start eating.
    assert_eq!(t.start_eating(0).err(), Some(SimError::InvariantViolation));
    // With both forks, picking up again is illegal, eating twice too.
    assert_eq!(t.try_pick_up(0), Ok(true));
    assert_eq!(t.try_pick_up(0), Ok(true));
    assert_eq!(t.try_pick_up(0), Err(SimError::InvariantViolation));
    assert!(t.start_eating(0).is_ok());
    assert_eq!(t.start_eating(0).err(), Some(SimError::InvariantViolation));
}

#[test]
fn transitions_emit_events() {
    let mut t = Table::new(4, Policy::LowerFirst).unwrap();
    assert_eq!(
        t.become_hungry(3),
        Ok(Event {
            agent_id: 3,
            from_state: PhilosopherState::Thinking,
            to_state: PhilosopherState::Hungry,
            left_fork: 3,
            right_fork: 0,
        })
    );
    assert_eq!(t.try_pick_up(3), Ok(true));
    assert_eq!(t.try_pick_up(3), Ok(true));
    assert_eq!(
        t.start_eating(3),
        Ok(Event {
            agent_id: 3,
            from_state: PhilosopherState::Hungry,
            to_state: PhilosopherState::Eating,
            left_fork: 3,
            right_fork: 0,
        })
    );
    assert_eq!(
        t.finish_eating(3),
        Ok(Event {
            agent_id: 3,
            from_state: PhilosopherState::Eating,
            to_state: PhilosopherState::Thinking,
            left_fork: 3,
            right_fork: 0,
        })
    );
}

/// Agents 0 and 4 of a five-ring both need fork 0. Exactly one wins it;
/// the other stays blocked on it until the winner releases, and the two
/// are never eating at the same time.
#[test]
fn shared_fork_contention() {
    let mut t = Table::new(5, Policy::LowerFirst).unwrap();
    assert!(t.become_hungry(0).is_ok());
    assert!(t.become_hungry(4).is_ok());
    // Agent 0 wins fork 0, its lower fork.
    assert_eq!(t.try_pick_up(0), Ok(true));
    assert!(!t.fork_is_free(0));
    // Agent 4's lower fork is fork 0 too: it is blocked there, holding
    // nothing — no partial hold builds up behind a blocked first fork.
    assert_eq!(t.try_pick_up(4), Ok(false));
    assert_eq!(t.holdings(4), (false, false));
    // Retrying changes nothing while the fork is occupied.
    assert_eq!(t.try_pick_up(4), Ok(false));
    // Agent 0 completes its pair and eats; agent 4 still blocked.
    assert_eq!(t.try_pick_up(0), Ok(true));
    assert!(t.start_eating(0).is_ok());
    assert_eq!(t.try_pick_up(4), Ok(false));
    assert_eq!(t.state_of(4), PhilosopherState::Hungry);
    assert_eq!(eating_count(&t), 1);
    // Release: fork 0 is free again and agent 4's retry now succeeds.
    assert!(t.finish_eating(0).is_ok());
    assert!(t.fork_is_free(0));
    assert_eq!(t.try_pick_up(4), Ok(true));
    assert_eq!(t.try_pick_up(4), Ok(true));
    assert!(t.start_eating(4).is_ok());
    assert_eq!(t.state_of(0), PhilosopherState::Thinking);
    assert_eq!(eating_count(&t), 1);
}

/// The minimal degenerate ring: two agents share both forks. They can
/// never eat simultaneously; the table alternates.
#[test]
fn two_agents_alternate() {
    let mut t = Table::new(2, Policy::LowerFirst).unwrap();
    assert!(t.become_hungry(0).is_ok());
    assert!(t.become_hungry(1).is_ok());
    // Agent 0 takes fork 0; agent 1 wants fork 0 first as well (its
    // right fork, the lower one) and is blocked holding nothing.
    assert_eq!(t.try_pick_up(0), Ok(true));
    assert_eq!(t.try_pick_up(1), Ok(false));
    assert_eq!(t.holdings(1), (false, false));
    assert_eq!(t.try_pick_up(0), Ok(true));
    assert!(t.start_eating(0).is_ok());
    assert_eq!(t.try_pick_up(1), Ok(false));
    assert_eq!(eating_count(&t), 1);
    // First release; now the turn passes to agent 1.
    assert!(t.finish_eating(0).is_ok());
    assert_eq!(t.try_pick_up(1), Ok(true));
    assert_eq!(t.try_pick_up(1), Ok(true));
    assert!(t.start_eating(1).is_ok());
    // Agent 0, hungry again, is blocked exactly as agent 1 was.
    assert!(t.become_hungry(0).is_ok());
    assert_eq!(t.try_pick_up(0), Ok(false));
    assert_eq!(eating_count(&t), 1);
    assert!(t.finish_eating(1).is_ok());
    assert_eq!(t.try_pick_up(0), Ok(true));
}

/// The circular-wait hazard, demonstrated: under the naive left-then-right
/// order, a synchronized start where every agent grabs its left fork
/// leaves every agent blocked on its right fork, forever.
#[test]
fn naive_order_deadlocks_on_synchronized_start() {
    let n = 5;
    let mut t = Table::new(n, Policy::LeftThenRight).unwrap();
    for i in 0..n {
        assert!(t.become_hungry(i).is_ok());
    }
    // Every agent claims its left fork: all succeed, each on its own fork.
    for i in 0..n {
        assert_eq!(t.try_pick_up(i), Ok(true));
        assert_eq!(t.holdings(i), (true, false));
    }
    // Now every fork is occupied and every agent waits on its neighbour:
    // no retry can ever succeed again.
    for round in 0..3 {
        for i in 0..n {
            assert_eq!(t.try_pick_up(i), Ok(false), "round {round}");
            assert_eq!(t.holdings(i), (true, false));
            assert_eq!(t.state_of(i), PhilosopherState::Hungry);
        }
    }
}

/// Liveness of the lower-fork-first order: after a synchronized start a
/// fair round-robin scheduler gets every agent through a full
/// Thinking -> Hungry -> Eating -> Thinking cycle within a bounded number
/// of retries — and never more than floor(N/2) agents eat at once.
#[test]
fn lower_first_all_eat_after_synchronized_start() {
    let n = 7;
    let mut t = Table::new(n, Policy::LowerFirst).unwrap();
    let mut ate = vec![false; n];
    for i in 0..n {
        assert!(t.become_hungry(i).is_ok());
    }
    let mut steps = 0;
    while ate.iter().any(|done| !done) {
        for i in 0..n {
            match t.state_of(i) {
                PhilosopherState::Hungry => {
                    let (l, r) = t.holdings(i);
                    if l && r {
                        assert!(t.start_eating(i).is_ok());
                    } else {
                        // Ok(true) or Ok(false); never an error.
                        assert!(t.try_pick_up(i).is_ok());
                    }
                }
                PhilosopherState::Eating => {
                    ate[i] = true;
                    assert!(t.finish_eating(i).is_ok());
                }
                PhilosopherState::Thinking => {}
            }
            assert!(eating_count(&t) <= n / 2);
            // The circular-wait configuration never forms: someone
            // always holds no fork at all.
            let holders = (0..n).filter(|&j| t.holdings(j) != (false, false)).count();
            assert!(holders < n);
        }
        steps += 1;
        assert!(steps <= 4 * n, "agents still hungry after {steps} sweeps");
    }
    // Everybody ate and everything was released.
    for i in 0..n {
        assert!(ate[i]);
        assert!(t.fork_is_free(i));
    }
}

/// A partial hold is transient and only ever of the first fork in policy
/// order: whoever holds exactly one fork is hungry and mid-retry.
#[test]
fn partial_hold_is_hungry_retry() {
    let n = 3;
    let mut t = Table::new(n, Policy::LowerFirst).unwrap();
    assert!(t.become_hungry(1).is_ok());
    assert_eq!(t.try_pick_up(1), Ok(true));
    // Exactly one fork held: the agent is hungry, not eating.
    assert_eq!(t.holdings(1), (true, false));
    assert_eq!(t.state_of(1), PhilosopherState::Hungry);
    // The hold clears as the cycle completes.
    assert_eq!(t.try_pick_up(1), Ok(true));
    assert!(t.start_eating(1).is_ok());
    assert!(t.finish_eating(1).is_ok());
    assert_eq!(t.holdings(1), (false, false));
}
