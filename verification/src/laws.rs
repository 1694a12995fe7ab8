//! The guarantees of the protocol, stated and proved once over the table's
//! model. Every lemma here speaks about an arbitrary well-formed table, so
//! it covers every state a run can reach: the transitions in `table`
//! establish well-formedness at construction and preserve it at each step.

use vstd::prelude::*;

use crate::table::{Policy, Table};

verus! {

/// 1 when agent `i` is eating at this instant, else 0.
pub open spec fn eating_flag(t: Table, i: int) -> int {
    if t.phil(i).state is Eating {
        1
    } else {
        0
    }
}

/// The number of agents among slots `[a, b)` that are eating.
pub open spec fn eating_count_range(t: Table, a: int, b: int) -> int
    decreases b - a,
{
    if a >= b {
        0
    } else {
        eating_flag(t, a) + eating_count_range(t, a + 1, b)
    }
}

/// The number of agents eating at this instant.
pub open spec fn eating_count(t: Table) -> int {
    eating_count_range(t, 0, t.n())
}

/// Whether hungry agent `i` could make progress right now: it already
/// holds both forks (and may start eating), or the fork it needs next is
/// free, so its next check-and-set attempt succeeds.
pub open spec fn can_act(t: Table, i: int) -> bool {
    t.holds_both(i) || !t.fork_held(t.next_id(i))
}

/// Mutual exclusion: two agents never hold the same fork at the same
/// instant — for any fork, the number of simultaneous holders is at most
/// one.
pub proof fn lemma_mutual_exclusion(t: Table, i: int, j: int, k: int)
    requires
        t.wf(),
        0 <= i < t.n(),
        0 <= j < t.n(),
        0 <= k < t.n(),
        t.holds_fork(i, k),
        t.holds_fork(j, k),
    ensures
        i == j,
{
    t.lemma_fork_ids(i);
    t.lemma_fork_ids(j);
    if k == t.phil(i).left_id() && t.phil(i).holds_left {
        assert(t.left_claim(k));
        assert(k == i);
    } else {
        assert(t.right_claim(k));
        assert(t.prev(k) == i);
    }
    if k == t.phil(j).left_id() && t.phil(j).holds_left {
        assert(t.left_claim(k));
        assert(k == j);
    } else {
        assert(t.right_claim(k));
        assert(t.prev(k) == j);
    }
    // Both claims at once would break the table's exclusion invariant.
    assert(!(t.left_claim(k) && t.right_claim(k)));
}

/// A free fork has no holder at all.
pub proof fn lemma_free_fork_unheld(t: Table, i: int, k: int)
    requires
        t.wf(),
        0 <= i < t.n(),
        0 <= k < t.n(),
        !t.fork_held(k),
    ensures
        !t.holds_fork(i, k),
{
    t.lemma_fork_ids(i);
}

/// Two neighbours in the ring never eat at the same instant: both would
/// need the fork between them.
proof fn lemma_no_adjacent_eaters(t: Table, i: int)
    requires
        t.wf(),
        0 <= i < t.n(),
    ensures
        !(t.phil(i).state is Eating && t.phil(
            if i + 1 == t.n() {
                0
            } else {
                i + 1
            },
        ).state is Eating),
{
    let j: int = if i + 1 == t.n() {
        0
    } else {
        i + 1
    };
    if t.phil(i).state is Eating && t.phil(j).state is Eating {
        t.lemma_fork_ids(i);
        // Eating agents hold both forks, so agent i claims fork j from the
        // left of the gap and agent j claims it as its own left fork.
        assert(t.phil(i).holds_right);
        assert(t.phil(j).holds_left);
        assert(j == t.phil(i).right_id());
        assert(t.right_claim(j));
        assert(t.left_claim(j));
        assert(false);
    }
}

/// The eater count of a single slot is its flag.
proof fn lemma_count_one(t: Table, a: int, b: int)
    requires
        b == a + 1,
    ensures
        eating_count_range(t, a, b) == eating_flag(t, a),
{
    assert(eating_count_range(t, a + 1, b) == 0);
}

/// Splitting the eater count of a range at a midpoint.
proof fn lemma_count_split(t: Table, a: int, m: int, b: int)
    requires
        a <= m <= b,
    ensures
        eating_count_range(t, a, b) == eating_count_range(t, a, m) + eating_count_range(t, m, b),
    decreases m - a,
{
    if a < m {
        lemma_count_split(t, a + 1, m, b);
    }
}

/// Among any stretch of the ring that does not wrap, eaters never sit
/// next to each other, so at most every other slot eats.
proof fn lemma_linear_eaters_bound(t: Table, a: int, b: int)
    requires
        t.wf(),
        0 <= a <= b <= t.n(),
    ensures
        2 * eating_count_range(t, a, b) <= b - a + 1,
    decreases b - a,
{
    if b - a >= 2 {
        lemma_no_adjacent_eaters(t, a);
        if eating_flag(t, a) == 1 {
            assert(eating_flag(t, a + 1) == 0);
            lemma_linear_eaters_bound(t, a + 2, b);
            assert(eating_count_range(t, a, b) == 1 + eating_count_range(t, a + 1, b));
            assert(eating_count_range(t, a + 1, b) == eating_count_range(t, a + 2, b));
        } else {
            lemma_linear_eaters_bound(t, a + 1, b);
            assert(eating_count_range(t, a, b) == eating_count_range(t, a + 1, b));
        }
    } else if b - a == 1 {
        lemma_count_one(t, a, b);
    } else {
        assert(eating_count_range(t, a, b) == 0);
    }
}

/// Bounded concurrent eaters: in a ring of N agents, at most floor(N/2)
/// eat at the same instant.
pub proof fn lemma_bounded_eaters(t: Table)
    requires
        t.wf(),
    ensures
        2 * eating_count(t) <= t.n(),
{
    let n = t.n();
    if t.phil(0).state is Eating {
        // Both neighbours of agent 0 around the ring are not eating.
        lemma_no_adjacent_eaters(t, 0);
        lemma_no_adjacent_eaters(t, n - 1);
        assert(eating_flag(t, 0) == 1);
        if n == 2 {
            lemma_count_one(t, 1, 2);
            assert(eating_count_range(t, 0, 2) == eating_flag(t, 0) + eating_count_range(t, 1, 2));
            assert(eating_flag(t, 1) == 0);
        } else {
            assert(eating_flag(t, 1) == 0);
            assert(eating_flag(t, n - 1) == 0);
            assert(eating_count_range(t, 0, n) == 1 + eating_count_range(t, 1, n));
            assert(eating_count_range(t, 1, n) == eating_count_range(t, 2, n));
            lemma_count_split(t, 2, n - 1, n);
            lemma_count_one(t, n - 1, n);
            lemma_linear_eaters_bound(t, 2, n - 1);
        }
    } else {
        assert(eating_count_range(t, 0, n) == eating_count_range(t, 1, n));
        lemma_linear_eaters_bound(t, 1, n);
    }
}

/// A partial hold is transient, never a resting state: an agent holding
/// exactly one of its two forks is necessarily Hungry — mid-acquisition,
/// retrying — and what it holds is the first fork in policy order, so the
/// one it is waiting for is its second.
pub proof fn lemma_partial_hold_is_transient(t: Table, i: int)
    requires
        t.wf(),
        0 <= i < t.n(),
        t.phil(i).holds_left != t.phil(i).holds_right,
    ensures
        t.phil(i).state is Hungry,
        t.holds_first(i),
        !t.holds_second(i),
        t.next_id(i) == t.second_id(i),
{
    assert(t.holds_second(i) ==> t.holds_first(i));
}

/// The circular-wait hazard of the naive left-then-right order: when all
/// agents are hungry and each holds exactly its left fork, every agent is
/// blocked — each one's next attempt is its right fork, occupied by its
/// neighbour — and no acquisition can ever succeed again: total deadlock.
pub proof fn lemma_naive_circular_wait(t: Table)
    requires
        t.wf(),
        t.policy == Policy::LeftThenRight,
        forall|i: int|
            0 <= i < t.n() ==> (#[trigger] t.phil(i)).state is Hungry && t.phil(i).holds_left
                && !t.phil(i).holds_right,
    ensures
        forall|i: int| 0 <= i < t.n() ==> !(#[trigger] can_act(t, i)),
{
    assert forall|i: int| 0 <= i < t.n() implies !(#[trigger] can_act(t, i)) by {
        t.lemma_fork_ids(i);
        let k = t.next_id(i);
        assert(t.holds_first(i));
        assert(k == t.phil(i).right_id());
        // The agent to the right holds that fork as its own left fork.
        assert(t.left_claim(k));
        assert(t.fork_held(k));
    }
}

/// Under the lower-fork-first policy the circular-wait configuration
/// cannot form: some agent always holds no fork at all. Were every agent
/// a holder, each would hold its first fork in policy order — and agents
/// 0 and N-1 share fork 0 as their first.
pub proof fn lemma_no_circular_wait(t: Table)
    requires
        t.wf(),
        t.policy == Policy::LowerFirst,
    ensures
        exists|i: int|
            0 <= i < t.n() && !(#[trigger] t.phil(i)).holds_left && !t.phil(i).holds_right,
{
    let n = t.n();
    if !(exists|i: int|
        0 <= i < n && !(#[trigger] t.phil(i)).holds_left && !t.phil(i).holds_right) {
        t.lemma_fork_ids(0);
        t.lemma_fork_ids(n - 1);
        // Every agent holds at least one fork, and by the acquisition
        // discipline whoever holds any fork holds its first.
        assert(t.phil(0).holds_left || t.phil(0).holds_right);
        assert(t.holds_first(0) || t.holds_second(0));
        assert(t.holds_second(0) ==> t.holds_first(0));
        assert(t.phil(n - 1).holds_left || t.phil(n - 1).holds_right);
        assert(t.holds_first(n - 1) || t.holds_second(n - 1));
        assert(t.holds_second(n - 1) ==> t.holds_first(n - 1));
        // Agent 0 holds fork 0 as its left fork, agent N-1 holds fork 0
        // as its right fork: two claims on one fork, contradicting the
        // exclusion invariant.
        assert(t.left_claim(0));
        assert(t.right_claim(0));
        assert(false);
    }
}

/// The largest held fork index at or above `k`, given fork `k` is held.
proof fn lemma_find_max_held(t: Table, k: int) -> (m: int)
    requires
        t.wf(),
        0 <= k < t.n(),
        t.fork_held(k),
    ensures
        k <= m < t.n(),
        t.fork_held(m),
        forall|j: int| m < j < t.n() ==> !(#[trigger] t.fork_held(j)),
    decreases t.n() - k,
{
    if exists|j: int| k < j < t.n() && #[trigger] t.fork_held(j) {
        let j = choose|j: int| k < j < t.n() && #[trigger] t.fork_held(j);
        lemma_find_max_held(t, j)
    } else {
        k
    }
}

/// Deadlock freedom of the lower-fork-first policy: however the agents'
/// steps interleave, whenever all of them are hungry at once — the
/// synchronized start that deadlocks the naive order — at least one agent
/// can still act: it already holds both forks, or the fork it needs next
/// is free. The ordering breaks the circular wait: the holder of the
/// highest held fork either holds a second fork by the acquisition
/// discipline, or waits on a fork higher than every held one.
pub proof fn lemma_no_deadlock(t: Table)
    requires
        t.wf(),
        t.policy == Policy::LowerFirst,
        forall|i: int| 0 <= i < t.n() ==> (#[trigger] t.phil(i)).state is Hungry,
    ensures
        exists|i: int| 0 <= i < t.n() && #[trigger] can_act(t, i),
{
    let n = t.n();
    if !(exists|i: int| 0 <= i < n && #[trigger] can_act(t, i)) {
        // Agent 0 cannot act, so the fork it needs is held by someone.
        t.lemma_fork_ids(0);
        assert(!can_act(t, 0));
        let f0 = t.next_id(0);
        assert(0 <= f0 < n);
        let m = lemma_find_max_held(t, f0);
        // Fork m, the highest held one, has a claimant.
        assert(t.left_claim(m) || t.right_claim(m));
        if t.left_claim(m) {
            // Agent m holds its own left fork.
            t.lemma_fork_ids(m);
            if m == n - 1 {
                // The last agent's left fork is its second in lower-first
                // order, so by the discipline it holds both: it can act.
                assert(t.holds_second(m));
                assert(t.holds_first(m));
                assert(t.holds_both(m));
                assert(can_act(t, m));
                assert(false);
            } else {
                // The left fork is agent m's first, so it waits on fork
                // m + 1 — held, yet above the maximum held fork.
                assert(t.holds_first(m));
                assert(t.next_id(m) == m + 1);
                assert(!can_act(t, m));
                assert(t.fork_held(m + 1));
                assert(false);
            }
        } else {
            // Agent prev(m) holds fork m as its right fork.
            let p = t.prev(m);
            t.lemma_fork_ids(p);
            assert(t.phil(p).holds_right);
            if p == n - 1 {
                // The last agent's right fork (fork 0) is its first, so it
                // waits on fork n - 1 — held, yet m == 0 was the maximum.
                assert(m == 0);
                assert(t.holds_first(p));
                assert(t.next_id(p) == n - 1);
                assert(!can_act(t, p));
                assert(t.fork_held(n - 1));
                assert(false);
            } else {
                // An ordinary agent's right fork is its second, so by the
                // discipline it holds both: it can act.
                assert(t.holds_second(p));
                assert(t.holds_first(p));
                assert(t.holds_both(p));
                assert(can_act(t, p));
                assert(false);
            }
        }
    }
}

} // verus!
