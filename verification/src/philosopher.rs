//! The philosopher: a lifecycle state machine.
//!
//! A philosopher cycles Thinking -> Hungry -> Eating -> Thinking. While
//! Hungry it claims its two adjacent forks one atomic step at a time; the
//! `holds_left` / `holds_right` flags record which claims it currently has.

use vstd::prelude::*;

verus! {

/// The lifecycle state of a philosopher.
#[derive(Clone, Copy, PartialEq, Eq, Structural, Debug)]
pub enum PhilosopherState {
    Hungry,
    Eating,
    Thinking,
}

/// One agent of the ring. Agent `number` needs fork `number` (left) and
/// fork `(number + 1) % count` (right); `count` is the ring size N.
#[derive(Clone, Copy, PartialEq, Eq, Structural, Debug)]
pub struct Philosopher {
    pub number: usize,
    pub count: usize,
    pub state: PhilosopherState,
    pub holds_left: bool,
    pub holds_right: bool,
}

impl Philosopher {
    /// Index of the left fork: the agent's own index.
    pub open spec fn left_id(self) -> int {
        self.number as int
    }

    /// Index of the right fork: the next index around the ring.
    pub open spec fn right_id(self) -> int {
        if self.number + 1 == self.count {
            0
        } else {
            self.number + 1
        }
    }

    /// The agent's slot in the ring is valid.
    pub open spec fn in_ring(self) -> bool {
        &&& 2 <= self.count
        &&& self.number < self.count
    }

    /// A philosopher starts Thinking and holding nothing.
    pub fn new(number: usize, count: usize) -> (p: Philosopher)
        requires
            2 <= count,
            number < count,
        ensures
            p.number == number,
            p.count == count,
            p.state == PhilosopherState::Thinking,
            !p.holds_left,
            !p.holds_right,
            p.in_ring(),
    {
        Philosopher {
            number,
            count,
            state: PhilosopherState::Thinking,
            holds_left: false,
            holds_right: false,
        }
    }

    /// The left fork's index, as executable code.
    pub fn left_fork(&self) -> (r: usize)
        requires
            self.in_ring(),
        ensures
            r == self.left_id(),
    {
        self.number
    }

    /// The right fork's index, as executable code.
    pub fn right_fork(&self) -> (r: usize)
        requires
            self.in_ring(),
        ensures
            r == self.right_id(),
    {
        if self.number + 1 == self.count {
            0
        } else {
            self.number + 1
        }
    }
}

} // verus!
