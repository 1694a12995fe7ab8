//! A verified model of the dining-philosophers problem: N agents in a ring
//! contend for N exclusive forks, each agent needing the two forks adjacent
//! to it before it may eat.
//!
//! The library holds the whole protocol as an explicit state machine: the
//! fork (a binary exclusive-hold primitive with an atomic check-and-set
//! acquire), the philosopher lifecycle (Thinking -> Hungry -> Eating ->
//! Thinking), and the table that ties them together and validates every
//! transition. Mutual exclusion, the bound on simultaneous eaters, and
//! deadlock freedom under the lower-fork-first acquisition policy are proved
//! here; a driver may run the agents concurrently, serializing every step
//! through the table.

pub mod fork;
pub mod philosopher;
pub mod table;

pub mod laws;
