//! Why hand-over-hand locking cannot deadlock.
//!
//! Every traversal of the list acquires node locks in one fixed direction:
//! increasing list order, head toward tail. Whenever a thread blocks on a
//! lock, the position it waits for lies strictly past every position it
//! already holds (`acquires_in_order`). This module proves that under that
//! discipline no wait-for cycle can exist: a cycle of threads, each waiting
//! for a lock held by the next, would force a strictly increasing circular
//! chain of positions, which is impossible.
//!
//! Positions are list positions (head = 0, increasing toward tail); each
//! thread is described by the set of positions whose locks it holds and the
//! single position it is waiting to acquire.

use vstd::prelude::*;

verus! {

/// The lock-coupling acquisition discipline for one blocked thread: every
/// lock it holds sits at a position strictly before the one it waits for.
///
/// `find` obeys this by construction: when it blocks on the lock at list
/// position `p`, it holds only the locks at positions `p - 2` and `p - 1`
/// (or only position 0 when acquiring its second lock).
pub open spec fn acquires_in_order(held: Set<int>, waiting: int) -> bool {
    forall|h: int| held.contains(h) ==> h < waiting
}

/// A traversal in its steady state — holding the adjacent pair at positions
/// `pos` and `pos + 1`, blocked acquiring `pos + 2` — obeys the ordered
/// acquisition discipline. (So do the two start-up states, which hold a
/// subset of such a pair.)
pub proof fn lemma_traversal_acquires_in_order(pos: int)
    ensures
        acquires_in_order(set![pos, pos + 1], pos + 2),
{
    let held = set![pos, pos + 1];
    assert forall|h: int| #[trigger] held.contains(h) implies h < pos + 2 by {
        assert(h == pos || h == pos + 1);
    }
}

/// Along a wait-for chain of ordered threads, waited-for positions only grow:
/// the position thread `cycle[0]` waits for is at most the one `cycle[i]`
/// waits for.
proof fn lemma_wait_chain_grows(
    holds: Map<int, Set<int>>,
    waits: Map<int, int>,
    cycle: Seq<int>,
    i: int,
)
    requires
        0 <= i < cycle.len(),
        forall|j: int| 0 <= j < cycle.len() ==> holds.dom().contains(#[trigger] cycle[j]),
        forall|j: int| 0 <= j < cycle.len() ==> waits.dom().contains(#[trigger] cycle[j]),
        forall|j: int|
            0 <= j < cycle.len() ==> acquires_in_order(
                holds[#[trigger] cycle[j]],
                waits[cycle[j]],
            ),
        forall|j: int|
            0 <= j < cycle.len() - 1 ==> holds[#[trigger] cycle[j + 1]].contains(waits[cycle[j]]),
    ensures
        waits[cycle[0]] <= waits[cycle[i]],
    decreases i,
{
    if i > 0 {
        lemma_wait_chain_grows(holds, waits, cycle, i - 1);
        assert(holds[cycle[(i - 1) + 1]].contains(waits[cycle[i - 1]]));
        assert(waits[cycle[i - 1]] < waits[cycle[i]]);
    }
}

/// Deadlock freedom of ordered acquisition: a chain of threads, each obeying
/// `acquires_in_order` and each waiting for a lock held by the next, can
/// never close into a ring — the first thread's lock set cannot contain the
/// position the last thread waits for. A wait-for cycle is therefore
/// impossible, and in any blocked group some thread's awaited lock holder is
/// not itself waiting, so it can run.
pub proof fn lemma_ordered_locking_no_cycle(
    holds: Map<int, Set<int>>,
    waits: Map<int, int>,
    cycle: Seq<int>,
)
    requires
        cycle.len() >= 1,
        forall|j: int| 0 <= j < cycle.len() ==> holds.dom().contains(#[trigger] cycle[j]),
        forall|j: int| 0 <= j < cycle.len() ==> waits.dom().contains(#[trigger] cycle[j]),
        forall|j: int|
            0 <= j < cycle.len() ==> acquires_in_order(
                holds[#[trigger] cycle[j]],
                waits[cycle[j]],
            ),
        forall|j: int|
            0 <= j < cycle.len() - 1 ==> holds[#[trigger] cycle[j + 1]].contains(waits[cycle[j]]),
    ensures
        !holds[cycle[0]].contains(waits[cycle[cycle.len() - 1]]),
{
    let last = cycle.len() - 1;
    lemma_wait_chain_grows(holds, waits, cycle, last);
    assert(waits[cycle[0]] <= waits[cycle[last]]);
}

} // verus!
