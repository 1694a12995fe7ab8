//! The table: N forks and N philosophers in a ring, with every step of the
//! protocol validated.
//!
//! The table is the single serialization point of the simulation: a driver
//! that runs the agents concurrently performs each agent step as one call
//! here (under a lock of its choosing), and the contracts guarantee that the
//! well-formedness invariant — mutual exclusion on every fork among them —
//! is preserved by every step.
//!
//! Acquisition policy: `LowerFirst` is the deadlock-free strategy (each
//! agent acquires its lower-indexed fork first, which breaks the circular
//! wait); `LeftThenRight` is the naive order, kept so that the circular-wait
//! hazard can be exercised and shown.

use vstd::prelude::*;

use crate::fork::{Fork, Status};
use crate::philosopher::{Philosopher, PhilosopherState};

verus! {

/// The order in which a hungry agent attempts its two forks.
#[derive(Clone, Copy, PartialEq, Eq, Structural, Debug)]
pub enum Policy {
    /// Always left fork first: reproduces the classic circular-wait hazard.
    LeftThenRight,
    /// Always the lower-indexed fork first: deadlock-free.
    LowerFirst,
}

/// The errors a step can report.
#[derive(Clone, Copy, PartialEq, Eq, Structural, Debug)]
pub enum SimError {
    /// The ring would not close: fewer than two agents requested.
    ConfigurationError,
    /// An illegal transition was requested, a programming error.
    InvariantViolation,
}

/// A state-change event, emitted at each transition for an observability
/// sink to consume.
#[derive(Clone, Copy, PartialEq, Eq, Structural, Debug)]
pub struct Event {
    pub agent_id: usize,
    pub from_state: PhilosopherState,
    pub to_state: PhilosopherState,
    pub left_fork: usize,
    pub right_fork: usize,
}

/// The shared state of the simulation: the ring of forks and the agents
/// contending for them.
pub struct Table {
    pub policy: Policy,
    pub forks: Vec<Fork>,
    pub philosophers: Vec<Philosopher>,
}

impl Table {
    /// The ring size N.
    pub open spec fn n(self) -> int {
        self.forks@.len() as int
    }

    /// The philosopher at slot `i`.
    pub open spec fn phil(self, i: int) -> Philosopher {
        self.philosophers@[i]
    }

    /// Whether fork `k` is currently occupied.
    pub open spec fn fork_held(self, k: int) -> bool {
        self.forks@[k].status is Occupied
    }

    /// The ring predecessor of index `k`.
    pub open spec fn prev(self, k: int) -> int {
        if k == 0 {
            self.n() - 1
        } else {
            k - 1
        }
    }

    /// Whether agent `i` currently holds fork `k`. In the ring, fork `k`
    /// can only ever be claimed by agent `k` (as its left fork) or by
    /// agent `prev(k)` (as its right fork).
    pub open spec fn holds_fork(self, i: int, k: int) -> bool {
        ||| (k == self.phil(i).left_id() && self.phil(i).holds_left)
        ||| (k == self.phil(i).right_id() && self.phil(i).holds_right)
    }

    /// The claim of agent `k` on fork `k`, its left fork.
    pub open spec fn left_claim(self, k: int) -> bool {
        self.phil(k).holds_left
    }

    /// The claim of agent `prev(k)` on fork `k`, its right fork.
    pub open spec fn right_claim(self, k: int) -> bool {
        self.phil(self.prev(k)).holds_right
    }

    /// Whether agent `i` attempts its left fork before its right one under
    /// the table's policy.
    pub open spec fn first_is_left(self, i: int) -> bool {
        match self.policy {
            Policy::LeftThenRight => true,
            Policy::LowerFirst => i != self.n() - 1,
        }
    }

    /// The fork agent `i` attempts first.
    pub open spec fn first_id(self, i: int) -> int {
        if self.first_is_left(i) {
            self.phil(i).left_id()
        } else {
            self.phil(i).right_id()
        }
    }

    /// The fork agent `i` attempts second.
    pub open spec fn second_id(self, i: int) -> int {
        if self.first_is_left(i) {
            self.phil(i).right_id()
        } else {
            self.phil(i).left_id()
        }
    }

    /// Whether agent `i` holds the fork it attempts first.
    pub open spec fn holds_first(self, i: int) -> bool {
        if self.first_is_left(i) {
            self.phil(i).holds_left
        } else {
            self.phil(i).holds_right
        }
    }

    /// Whether agent `i` holds the fork it attempts second.
    pub open spec fn holds_second(self, i: int) -> bool {
        if self.first_is_left(i) {
            self.phil(i).holds_right
        } else {
            self.phil(i).holds_left
        }
    }

    /// Whether agent `i` holds both of its forks.
    pub open spec fn holds_both(self, i: int) -> bool {
        self.phil(i).holds_left && self.phil(i).holds_right
    }

    /// The fork a hungry agent `i` needs next: its first fork while it
    /// holds nothing, its second once the first is held.
    pub open spec fn next_id(self, i: int) -> int {
        if self.holds_first(i) {
            self.second_id(i)
        } else {
            self.first_id(i)
        }
    }

    /// The well-formedness invariant, established by `new` and preserved by
    /// every step.
    pub open spec fn wf(self) -> bool {
        &&& 2 <= self.n()
        &&& self.philosophers@.len() == self.n()
        &&& (forall|i: int|
            0 <= i < self.n() ==> (#[trigger] self.phil(i)).number == i && self.phil(
                i,
            ).count == self.n())
        &&& (forall|k: int| 0 <= k < self.n() ==> (#[trigger] self.forks@[k]).id == k)
        &&& (forall|i: int|
            0 <= i < self.n() ==> ((#[trigger] self.phil(i)).state is Thinking ==> !self.phil(
                i,
            ).holds_left && !self.phil(i).holds_right))
        &&& (forall|i: int|
            0 <= i < self.n() ==> ((#[trigger] self.phil(i)).state is Eating ==> self.phil(
                i,
            ).holds_left && self.phil(i).holds_right))
        &&& (forall|k: int|
            #![trigger self.fork_held(k)]
            #![trigger self.left_claim(k)]
            #![trigger self.right_claim(k)]
            0 <= k < self.n() ==> (self.fork_held(k) <==> (self.left_claim(k) || self.right_claim(
                k,
            ))))
        &&& (forall|k: int|
            #![trigger self.left_claim(k)]
            #![trigger self.right_claim(k)]
            0 <= k < self.n() ==> !(self.left_claim(k) && self.right_claim(k)))
        &&& (forall|i: int|
            0 <= i < self.n() ==> (#[trigger] self.holds_second(i) ==> self.holds_first(i)))
    }

    /// The two forks of one agent are distinct indices in range.
    pub proof fn lemma_fork_ids(self, i: int)
        requires
            self.wf(),
            0 <= i < self.n(),
        ensures
            self.phil(i).left_id() == i,
            0 <= self.phil(i).right_id() < self.n(),
            self.phil(i).left_id() != self.phil(i).right_id(),
            self.prev(self.phil(i).right_id()) == i,
            self.first_id(i) == self.phil(i).left_id() || self.first_id(i) == self.phil(
                i,
            ).right_id(),
            self.second_id(i) == self.phil(i).left_id() || self.second_id(i) == self.phil(
                i,
            ).right_id(),
            self.first_id(i) != self.second_id(i),
            self.next_id(i) == self.first_id(i) || self.next_id(i) == self.second_id(i),
    {
        assert(self.phil(i).number == i && self.phil(i).count == self.n());
    }

    /// A step that only changes the lifecycle state of one agent, leaving
    /// every hold flag and every fork as it was, preserves well-formedness.
    proof fn lemma_wf_state_update(pre: Table, post: Table, i: int, q: Philosopher)
        requires
            pre.wf(),
            0 <= i < pre.n(),
            post.policy == pre.policy,
            post.forks@ == pre.forks@,
            post.philosophers@ == pre.philosophers@.update(i, q),
            q.number == pre.phil(i).number,
            q.count == pre.phil(i).count,
            q.holds_left == pre.phil(i).holds_left,
            q.holds_right == pre.phil(i).holds_right,
            q.state is Thinking ==> !q.holds_left && !q.holds_right,
            q.state is Eating ==> q.holds_left && q.holds_right,
        ensures
            post.wf(),
    {
        let n = pre.n();
        assert(post.n() == n);
        assert(forall|j: int|
            0 <= j < n ==> #[trigger] post.phil(j) == (if j == i {
                q
            } else {
                pre.phil(j)
            }));
        assert forall|k: int|
            #![trigger post.left_claim(k)]
            #![trigger post.right_claim(k)]
            0 <= k < n implies post.left_claim(k) == pre.left_claim(k) && post.right_claim(k)
            == pre.right_claim(k) by {
            assert(post.prev(k) == pre.prev(k));
            assert(post.phil(k).holds_left == pre.phil(k).holds_left);
            assert(post.phil(pre.prev(k)).holds_right == pre.phil(pre.prev(k)).holds_right);
        }
        assert(forall|k: int| 0 <= k < n ==> #[trigger] post.fork_held(k) == pre.fork_held(k));
        assert forall|j: int| 0 <= j < n implies (#[trigger] post.holds_second(j)
            ==> post.holds_first(j)) by {
            assert(post.first_is_left(j) == pre.first_is_left(j));
            assert(pre.holds_second(j) ==> pre.holds_first(j));
        }
    }

    /// A successful acquisition step — a hungry agent occupies the free
    /// fork it needs next — preserves well-formedness.
    proof fn lemma_wf_acquire(pre: Table, post: Table, i: int)
        requires
            pre.wf(),
            0 <= i < pre.n(),
            pre.phil(i).state is Hungry,
            !pre.holds_both(i),
            !pre.fork_held(pre.next_id(i)),
            post.policy == pre.policy,
            post.forks@ == pre.forks@.update(
                pre.next_id(i),
                (Fork { id: pre.forks@[pre.next_id(i)].id, status: Status::Occupied }),
            ),
            post.philosophers@ == pre.philosophers@.update(
                i,
                (Philosopher {
                    holds_left: pre.phil(i).holds_left || pre.next_id(i) == pre.phil(i).left_id(),
                    holds_right: pre.phil(i).holds_right || pre.next_id(i) == pre.phil(
                        i,
                    ).right_id(),
                    ..pre.phil(i)
                }),
            ),
        ensures
            post.wf(),
            post.holds_fork(i, pre.next_id(i)),
    {
        let n = pre.n();
        let f = pre.next_id(i);
        let q = (Philosopher {
            holds_left: pre.phil(i).holds_left || f == pre.phil(i).left_id(),
            holds_right: pre.phil(i).holds_right || f == pre.phil(i).right_id(),
            ..pre.phil(i)
        });
        pre.lemma_fork_ids(i);
        assert(post.n() == n);
        assert(forall|j: int|
            0 <= j < n ==> #[trigger] post.phil(j) == (if j == i {
                q
            } else {
                pre.phil(j)
            }));
        assert(forall|k: int|
            0 <= k < n ==> #[trigger] post.fork_held(k) == (if k == f {
                true
            } else {
                pre.fork_held(k)
            }));
        // The fork being taken had no holder at all.
        assert(!pre.left_claim(f) && !pre.right_claim(f));
        // Which of the agent's two forks is being taken.
        assert(f == pre.phil(i).left_id() || f == pre.phil(i).right_id());
        // How each fork's two possible claims moved: only the taken fork
        // gains a claim, and only from agent `i`.
        assert forall|k: int|
            #![trigger post.left_claim(k)]
            #![trigger post.right_claim(k)]
            0 <= k < n implies post.left_claim(k) == (pre.left_claim(k) || (k == f && f == pre.phil(
            i,
        ).left_id())) && post.right_claim(k) == (pre.right_claim(k) || (k == f && f == pre.phil(
            i,
        ).right_id())) by {
            assert(post.prev(k) == pre.prev(k));
            assert(post.phil(k) == (if k == i {
                q
            } else {
                pre.phil(k)
            }));
            assert(post.phil(pre.prev(k)) == (if pre.prev(k) == i {
                q
            } else {
                pre.phil(pre.prev(k))
            }));
            if pre.prev(k) == i {
                assert(k == pre.phil(i).right_id());
            }
            if k == pre.phil(i).right_id() {
                assert(pre.prev(k) == i);
            }
        }
        assert forall|j: int| 0 <= j < n implies (#[trigger] post.holds_second(j)
            ==> post.holds_first(j)) by {
            assert(post.first_is_left(j) == pre.first_is_left(j));
            if j == i {
                if pre.holds_first(i) {
                    assert(f == pre.second_id(i));
                } else {
                    assert(f == pre.first_id(i));
                    assert(!pre.holds_second(i));
                }
            } else {
                assert(pre.holds_second(j) ==> pre.holds_first(j));
            }
        }
    }

    /// The release step — an eating agent frees both its forks and goes
    /// back to thinking — preserves well-formedness, and afterwards both
    /// of its forks are observably free.
    proof fn lemma_wf_release(pre: Table, post: Table, i: int)
        requires
            pre.wf(),
            0 <= i < pre.n(),
            pre.phil(i).state is Eating,
            post.policy == pre.policy,
            post.forks@ == pre.forks@.update(
                pre.phil(i).left_id(),
                (Fork { id: pre.forks@[pre.phil(i).left_id()].id, status: Status::Free }),
            ).update(
                pre.phil(i).right_id(),
                (Fork { id: pre.forks@[pre.phil(i).right_id()].id, status: Status::Free }),
            ),
            post.philosophers@ == pre.philosophers@.update(
                i,
                (Philosopher {
                    state: PhilosopherState::Thinking,
                    holds_left: false,
                    holds_right: false,
                    ..pre.phil(i)
                }),
            ),
        ensures
            post.wf(),
            !post.fork_held(pre.phil(i).left_id()),
            !post.fork_held(pre.phil(i).right_id()),
    {
        let n = pre.n();
        let li = pre.phil(i).left_id();
        let ri = pre.phil(i).right_id();
        let q = (Philosopher {
            state: PhilosopherState::Thinking,
            holds_left: false,
            holds_right: false,
            ..pre.phil(i)
        });
        pre.lemma_fork_ids(i);
        assert(pre.phil(i).holds_left && pre.phil(i).holds_right);
        assert(post.n() == n);
        assert(forall|j: int|
            0 <= j < n ==> #[trigger] post.phil(j) == (if j == i {
                q
            } else {
                pre.phil(j)
            }));
        assert(forall|k: int|
            0 <= k < n ==> #[trigger] post.fork_held(k) == (if k == li || k == ri {
                false
            } else {
                pre.fork_held(k)
            }));
        // Nobody else held either fork: the exclusion clause at the left
        // fork rules out the left neighbour's claim, the one at the right
        // fork rules out the right-hand neighbour's.
        assert(pre.left_claim(li) && pre.right_claim(ri));
        assert(!pre.right_claim(li));
        assert(!pre.left_claim(ri));
        // Only the two released forks lose a claim.
        assert forall|k: int|
            #![trigger post.left_claim(k)]
            #![trigger post.right_claim(k)]
            0 <= k < n implies post.left_claim(k) == (pre.left_claim(k) && k != li)
            && post.right_claim(k) == (pre.right_claim(k) && k != ri) by {
            assert(post.prev(k) == pre.prev(k));
            assert(post.phil(k) == (if k == i {
                q
            } else {
                pre.phil(k)
            }));
            assert(post.phil(pre.prev(k)) == (if pre.prev(k) == i {
                q
            } else {
                pre.phil(pre.prev(k))
            }));
            if pre.prev(k) == i {
                assert(k == ri);
            }
            if k == ri {
                assert(pre.prev(k) == i);
            }
        }
        assert forall|j: int| 0 <= j < n implies (#[trigger] post.holds_second(j)
            ==> post.holds_first(j)) by {
            assert(post.first_is_left(j) == pre.first_is_left(j));
            if j != i {
                assert(pre.holds_second(j) ==> pre.holds_first(j));
            }
        }
    }

    /// The ring size N.
    pub fn num_agents(&self) -> (r: usize)
        ensures
            r as int == self.n(),
    {
        self.forks.len()
    }

    /// Non-mutating snapshot of an agent's lifecycle state.
    pub fn state_of(&self, i: usize) -> (r: PhilosopherState)
        requires
            self.wf(),
            i < self.n(),
        ensures
            r == self.phil(i as int).state,
    {
        self.philosophers[i].state
    }

    /// Non-mutating snapshot of an agent's claims: whether it holds its
    /// left fork, and whether it holds its right one.
    pub fn holdings(&self, i: usize) -> (r: (bool, bool))
        requires
            self.wf(),
            i < self.n(),
        ensures
            r.0 == self.phil(i as int).holds_left,
            r.1 == self.phil(i as int).holds_right,
    {
        (self.philosophers[i].holds_left, self.philosophers[i].holds_right)
    }

    /// Non-mutating snapshot of a fork's status.
    pub fn fork_is_free(&self, k: usize) -> (r: bool)
        requires
            k < self.n(),
        ensures
            r == !self.fork_held(k as int),
    {
        self.forks[k].is_free()
    }

    /// Build a table of `n` free forks and `n` thinking agents under the
    /// given policy. The ring needs at least two agents; fewer is a
    /// configuration error, reported before anything starts.
    pub fn new(n: usize, policy: Policy) -> (r: Result<Table, SimError>)
        ensures
            match r {
                Ok(t) => {
                    &&& 2 <= n
                    &&& t.wf()
                    &&& t.n() == n
                    &&& t.policy == policy
                    &&& (forall|i: int|
                        0 <= i < n ==> (#[trigger] t.phil(i)).state is Thinking && !t.phil(
                            i,
                        ).holds_left && !t.phil(i).holds_right)
                    &&& (forall|k: int| 0 <= k < n ==> !(#[trigger] t.fork_held(k)))
                },
                Err(e) => n < 2 && e == SimError::ConfigurationError,
            },
    {
        if n < 2 {
            return Err(SimError::ConfigurationError);
        }
        let mut forks: Vec<Fork> = Vec::new();
        let mut idx: usize = 0;
        while idx < n
            invariant
                idx <= n,
                forks@.len() == idx,
                forall|k: int|
                    0 <= k < idx ==> (#[trigger] forks@[k]).id == k && forks@[k].status is Free,
            decreases n - idx,
        {
            forks.push(Fork::new(idx));
            idx += 1;
        }
        let mut philosophers: Vec<Philosopher> = Vec::new();
        let mut j: usize = 0;
        while j < n
            invariant
                j <= n,
                2 <= n,
                philosophers@.len() == j,
                forall|i: int|
                    0 <= i < j ==> (#[trigger] philosophers@[i]).number == i && philosophers@[i].count
                        == n && philosophers@[i].state is Thinking && !philosophers@[i].holds_left
                        && !philosophers@[i].holds_right,
            decreases n - j,
        {
            philosophers.push(Philosopher::new(j, n));
            j += 1;
        }
        Ok(Table { policy, forks, philosophers })
    }

    /// Thinking -> Hungry: the agent decides to seek its forks after its
    /// think time elapses. Any other source state is an illegal transition
    /// and is rejected without a change.
    pub fn become_hungry(&mut self, i: usize) -> (r: Result<Event, SimError>)
        requires
            old(self).wf(),
            i < old(self).n(),
        ensures
            final(self).wf(),
            final(self).n() == old(self).n(),
            final(self).policy == old(self).policy,
            if old(self).phil(i as int).state is Thinking {
                &&& (r matches Ok(e) && {
                    &&& e.agent_id == i
                    &&& e.from_state is Thinking
                    &&& e.to_state is Hungry
                    &&& e.left_fork as int == old(self).phil(i as int).left_id()
                    &&& e.right_fork as int == old(self).phil(i as int).right_id()
                })
                &&& final(self).forks@ == old(self).forks@
                &&& final(self).philosophers@ == old(self).philosophers@.update(
                    i as int,
                    (Philosopher {
                        state: PhilosopherState::Hungry,
                        ..old(self).phil(i as int)
                    }),
                )
            } else {
                &&& (r matches Err(e) && e == SimError::InvariantViolation)
                &&& *final(self) == *old(self)
            },
    {
        let p = self.philosophers[i];
        if p.state == PhilosopherState::Thinking {
            let mut q = p;
            q.state = PhilosopherState::Hungry;
            self.philosophers[i] = q;
            proof {
                assert(q == (Philosopher {
                    state: PhilosopherState::Hungry,
                    ..old(self).phil(i as int)
                }));
                Table::lemma_wf_state_update(*old(self), *self, i as int, q);
            }
            Ok(
                Event {
                    agent_id: i,
                    from_state: PhilosopherState::Thinking,
                    to_state: PhilosopherState::Hungry,
                    left_fork: p.number,
                    right_fork: if p.number + 1 == p.count {
                        0
                    } else {
                        p.number + 1
                    },
                },
            )
        } else {
            Err(SimError::InvariantViolation)
        }
    }

    /// One atomic acquisition step for a hungry agent: attempt the next
    /// fork in policy order, as a single check-and-set. `Ok(true)` means
    /// the fork was free and the agent now holds it; `Ok(false)` means it
    /// was occupied and nothing changed, so the caller backs off and
    /// retries. Calling this for an agent that is not hungry, or that
    /// already holds both forks, is rejected as a programming error.
    pub fn try_pick_up(&mut self, i: usize) -> (r: Result<bool, SimError>)
        requires
            old(self).wf(),
            i < old(self).n(),
        ensures
            final(self).wf(),
            final(self).n() == old(self).n(),
            final(self).policy == old(self).policy,
            if old(self).phil(i as int).state is Hungry && !old(self).holds_both(i as int) {
                if !old(self).fork_held(old(self).next_id(i as int)) {
                    &&& r == Ok::<bool, SimError>(true)
                    &&& final(self).forks@ == old(self).forks@.update(
                        old(self).next_id(i as int),
                        (Fork {
                            id: old(self).forks@[old(self).next_id(i as int)].id,
                            status: Status::Occupied,
                        }),
                    )
                    &&& final(self).philosophers@ == old(self).philosophers@.update(
                        i as int,
                        (Philosopher {
                            holds_left: old(self).phil(i as int).holds_left || old(self).next_id(
                                i as int,
                            ) == old(self).phil(i as int).left_id(),
                            holds_right: old(self).phil(i as int).holds_right || old(self).next_id(
                                i as int,
                            ) == old(self).phil(i as int).right_id(),
                            ..old(self).phil(i as int)
                        }),
                    )
                    &&& final(self).holds_fork(i as int, old(self).next_id(i as int))
                } else {
                    &&& r == Ok::<bool, SimError>(false)
                    &&& *final(self) == *old(self)
                }
            } else {
                &&& (r matches Err(e) && e == SimError::InvariantViolation)
                &&& *final(self) == *old(self)
            },
    {
        let p = self.philosophers[i];
        if !(p.state == PhilosopherState::Hungry) || (p.holds_left && p.holds_right) {
            return Err(SimError::InvariantViolation);
        }
        let left = p.number;
        let right = if p.number + 1 == p.count {
            0
        } else {
            p.number + 1
        };
        let first_is_left = match self.policy {
            Policy::LeftThenRight => true,
            Policy::LowerFirst => p.number + 1 != p.count,
        };
        let holds_first = if first_is_left {
            p.holds_left
        } else {
            p.holds_right
        };
        let target = if holds_first {
            if first_is_left {
                right
            } else {
                left
            }
        } else {
            if first_is_left {
                left
            } else {
                right
            }
        };
        assert(target as int == old(self).next_id(i as int));
        let mut f = self.forks[target];
        if f.pick_up() {
            self.forks[target] = f;
            let mut q = p;
            if target == left {
                q.holds_left = true;
            } else {
                q.holds_right = true;
            }
            self.philosophers[i] = q;
            proof {
                old(self).lemma_fork_ids(i as int);
                assert(q == (Philosopher {
                    holds_left: old(self).phil(i as int).holds_left || old(self).next_id(i as int)
                        == old(self).phil(i as int).left_id(),
                    holds_right: old(self).phil(i as int).holds_right || old(self).next_id(
                        i as int,
                    ) == old(self).phil(i as int).right_id(),
                    ..old(self).phil(i as int)
                }));
                Table::lemma_wf_acquire(*old(self), *self, i as int);
            }
            Ok(true)
        } else {
            Ok(false)
        }
    }

    /// Hungry -> Eating: permitted exactly when the agent holds both its
    /// forks; anything else is an illegal transition.
    pub fn start_eating(&mut self, i: usize) -> (r: Result<Event, SimError>)
        requires
            old(self).wf(),
            i < old(self).n(),
        ensures
            final(self).wf(),
            final(self).n() == old(self).n(),
            final(self).policy == old(self).policy,
            if old(self).phil(i as int).state is Hungry && old(self).holds_both(i as int) {
                &&& (r matches Ok(e) && {
                    &&& e.agent_id == i
                    &&& e.from_state is Hungry
                    &&& e.to_state is Eating
                    &&& e.left_fork as int == old(self).phil(i as int).left_id()
                    &&& e.right_fork as int == old(self).phil(i as int).right_id()
                })
                &&& final(self).forks@ == old(self).forks@
                &&& final(self).philosophers@ == old(self).philosophers@.update(
                    i as int,
                    (Philosopher { state: PhilosopherState::Eating, ..old(self).phil(i as int) }),
                )
            } else {
                &&& (r matches Err(e) && e == SimError::InvariantViolation)
                &&& *final(self) == *old(self)
            },
    {
        let p = self.philosophers[i];
        if p.state == PhilosopherState::Hungry && p.holds_left && p.holds_right {
            let mut q = p;
            q.state = PhilosopherState::Eating;
            self.philosophers[i] = q;
            proof {
                assert(q == (Philosopher {
                    state: PhilosopherState::Eating,
                    ..old(self).phil(i as int)
                }));
                Table::lemma_wf_state_update(*old(self), *self, i as int, q);
            }
            Ok(
                Event {
                    agent_id: i,
                    from_state: PhilosopherState::Hungry,
                    to_state: PhilosopherState::Eating,
                    left_fork: p.number,
                    right_fork: if p.number + 1 == p.count {
                        0
                    } else {
                        p.number + 1
                    },
                },
            )
        } else {
            Err(SimError::InvariantViolation)
        }
    }

    /// Eating -> Thinking: both held forks are released (each becomes
    /// `Free`, so a blocked neighbour's next acquisition attempt on it can
    /// succeed) and the agent goes back to thinking. Only an eating agent
    /// may finish; anything else is an illegal transition.
    pub fn finish_eating(&mut self, i: usize) -> (r: Result<Event, SimError>)
        requires
            old(self).wf(),
            i < old(self).n(),
        ensures
            final(self).wf(),
            final(self).n() == old(self).n(),
            final(self).policy == old(self).policy,
            if old(self).phil(i as int).state is Eating {
                &&& (r matches Ok(e) && {
                    &&& e.agent_id == i
                    &&& e.from_state is Eating
                    &&& e.to_state is Thinking
                    &&& e.left_fork as int == old(self).phil(i as int).left_id()
                    &&& e.right_fork as int == old(self).phil(i as int).right_id()
                })
                &&& final(self).forks@ == old(self).forks@.update(
                    old(self).phil(i as int).left_id(),
                    (Fork {
                        id: old(self).forks@[old(self).phil(i as int).left_id()].id,
                        status: Status::Free,
                    }),
                ).update(
                    old(self).phil(i as int).right_id(),
                    (Fork {
                        id: old(self).forks@[old(self).phil(i as int).right_id()].id,
                        status: Status::Free,
                    }),
                )
                &&& final(self).philosophers@ == old(self).philosophers@.update(
                    i as int,
                    (Philosopher {
                        state: PhilosopherState::Thinking,
                        holds_left: false,
                        holds_right: false,
                        ..old(self).phil(i as int)
                    }),
                )
                &&& !final(self).fork_held(old(self).phil(i as int).left_id())
                &&& !final(self).fork_held(old(self).phil(i as int).right_id())
            } else {
                &&& (r matches Err(e) && e == SimError::InvariantViolation)
                &&& *final(self) == *old(self)
            },
    {
        let p = self.philosophers[i];
        if p.state == PhilosopherState::Eating {
            let left = p.number;
            let right = if p.number + 1 == p.count {
                0
            } else {
                p.number + 1
            };
            let mut lf = self.forks[left];
            lf.put_down();
            self.forks[left] = lf;
            let mut rf = self.forks[right];
            rf.put_down();
            self.forks[right] = rf;
            let mut q = p;
            q.state = PhilosopherState::Thinking;
            q.holds_left = false;
            q.holds_right = false;
            self.philosophers[i] = q;
            proof {
                old(self).lemma_fork_ids(i as int);
                assert(q == (Philosopher {
                    state: PhilosopherState::Thinking,
                    holds_left: false,
                    holds_right: false,
                    ..old(self).phil(i as int)
                }));
                Table::lemma_wf_release(*old(self), *self, i as int);
            }
            Ok(
                Event {
                    agent_id: i,
                    from_state: PhilosopherState::Eating,
                    to_state: PhilosopherState::Thinking,
                    left_fork: left,
                    right_fork: right,
                },
            )
        } else {
            Err(SimError::InvariantViolation)
        }
    }
}

} // verus!
