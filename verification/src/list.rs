//! The ordered set itself: a sorted singly-linked chain of lock-guarded
//! nodes between two sentinels, traversed with hand-over-hand locking.
//!
//! Nodes live in an arena (`Vec<Node>`); a link is the arena index of the
//! successor. The reachable chain, from the head sentinel to the tail
//! sentinel, is named by a ghost sequence of arena indices (the spine).
//! Well-formedness (`wf`) states the structural invariants: the spine starts
//! at head and ends at tail, links follow it, keys strictly increase along
//! it, and a node is off the spine exactly when it has been removed and
//! reclaimed (`freed`). The abstract value of the set is a map from key to
//! stored value (`view`).
//!
//! Every node carries its own lock, modelled by the `locked` bit; `find` is
//! the one traversal primitive, and acquires and releases those bits in
//! hand-over-hand order, holding at most two at any instant. The contracts
//! enforce the discipline — an operation demands a quiescent list and a
//! mutation demands the bracketing pair's locks; an embedding that runs
//! many threads substitutes real blocking locks for the bits and relies on
//! the same discipline (the `deadlock` module shows why it cannot hang).
//! Lock poisoning cannot arise inside the engine: verified code never
//! panics while holding a lock; an embedding whose locks can poison must
//! treat a poisoned node as fatal for the whole list rather than traverse
//! past it.

use vstd::pervasive::VecAdditionalExecFns;
use vstd::prelude::*;

verus! {

/// One node of the chain. The lock guards `key`, `value` and `next` as one
/// unit; `freed` marks a node that `remove` has unlinked and reclaimed.
#[derive(Clone, Copy)]
struct Node {
    key: i64,
    value: u64,
    next: usize,
    locked: bool,
    freed: bool,
}

/// Two simultaneously held node locks, handed back by `find`: the
/// predecessor and current handles bracketing a key's position. The value
/// owns the two locks by construction — no lifetime tricks are needed to
/// hold them together — and `List::release_pair` consumes it, so a released
/// pair cannot be used again.
pub struct LockedPair {
    /// Arena index of the locked predecessor node.
    pub pred: usize,
    /// Arena index of the locked current node.
    pub curr: usize,
    /// The predecessor's position on the spine.
    pub pos: Ghost<int>,
}

/// The concurrent ordered set: an arena of nodes and the ghost spine naming
/// the chain that is reachable from the head sentinel.
///
/// The head sentinel sits at arena index 0 with key `i64::MIN`; the tail
/// sentinel at arena index 1 with key `i64::MAX`. Both are created by `new`
/// and never removed, so every insertable key lies strictly between them.
pub struct List {
    nodes: Vec<Node>,
    chain: Ghost<Seq<int>>,
}

impl List {
    /// How many nodes the arena holds, freed ones included.
    pub closed spec fn node_count(self) -> nat {
        self.nodes@.len()
    }

    /// The spine: arena indices of the reachable chain, head first, tail last.
    pub closed spec fn spine(self) -> Seq<int> {
        self.chain@
    }

    /// Number of nodes on the spine, sentinels included.
    pub closed spec fn spine_len(self) -> nat {
        self.chain@.len()
    }

    /// The key stored at arena index `j`.
    pub closed spec fn key_of_index(self, j: int) -> i64 {
        self.nodes@[j].key
    }

    /// The key of the node at spine position `p`.
    pub closed spec fn key_at(self, p: int) -> i64 {
        self.key_of_index(self.chain@[p])
    }

    /// The link (successor's arena index) stored at arena index `j`.
    pub closed spec fn link_of(self, j: int) -> int {
        self.nodes@[j].next as int
    }

    /// Whether the node at arena index `j` has been removed and reclaimed.
    pub closed spec fn node_freed(self, j: int) -> bool {
        self.nodes@[j].freed
    }

    /// Whether the lock of the node at arena index `j` is held.
    pub closed spec fn node_locked(self, j: int) -> bool {
        self.nodes@[j].locked
    }

    /// Structural well-formedness: the invariants of the chain.
    ///
    /// - the spine runs from the head sentinel (index 0) to the tail
    ///   sentinel (index 1), and every spine entry is a valid arena index;
    /// - each node's `next` link points to its spine successor;
    /// - keys strictly increase along the spine (so no duplicates), with the
    ///   sentinels carrying the extremal keys;
    /// - a node is freed exactly when it is unreachable from the head.
    pub closed spec fn wf(self) -> bool {
        &&& self.nodes@.len() >= 2
        &&& self.chain@.len() >= 2
        &&& self.chain@[0] == 0
        &&& self.chain@[self.chain@.len() - 1] == 1
        &&& self.nodes@[0].key == i64::MIN
        &&& self.nodes@[1].key == i64::MAX
        &&& (forall|p: int|
            0 <= p < self.chain@.len() ==> 0 <= #[trigger] self.chain@[p] < self.nodes@.len())
        &&& (forall|p: int|
            0 <= p < self.chain@.len() - 1 ==> self.nodes@[#[trigger] self.chain@[p]].next
                == self.chain@[p + 1])
        &&& (forall|p: int, q: int|
            0 <= p < q < self.chain@.len() ==> #[trigger] self.key_at(p) < #[trigger] self.key_at(
                q,
            ))
        &&& (forall|j: int|
            0 <= j < self.nodes@.len() ==> (!(#[trigger] self.nodes@[j].freed)
                <==> self.chain@.contains(j)))
    }

    /// No thread holds any node lock.
    pub closed spec fn quiescent(self) -> bool {
        forall|j: int| 0 <= j < self.nodes@.len() ==> !(#[trigger] self.nodes@[j].locked)
    }

    /// Exactly the locks of arena indices `a` and `b` are held.
    pub closed spec fn locked_exactly(self, a: int, b: int) -> bool {
        forall|j: int|
            0 <= j < self.nodes@.len() ==> ((#[trigger] self.nodes@[j].locked) <==> (j == a || j
                == b))
    }

    /// `other` is `self` with possibly different lock bits: same arena size,
    /// same spine, and every node unchanged in key, value, link and freed
    /// mark.
    pub closed spec fn same_structure(self, other: List) -> bool {
        &&& other.nodes@.len() == self.nodes@.len()
        &&& other.chain@ == self.chain@
        &&& (forall|j: int|
            0 <= j < self.nodes@.len() ==> (#[trigger] other.nodes@[j]).key == self.nodes@[j].key
                && other.nodes@[j].value == self.nodes@[j].value && other.nodes@[j].next
                == self.nodes@[j].next && other.nodes@[j].freed == self.nodes@[j].freed)
    }

    /// Every node already freed in `self` is untouched in `other`: reclaimed
    /// nodes are never again locked, read or written.
    pub closed spec fn frees_preserved(self, other: List) -> bool {
        forall|j: int|
            0 <= j < self.nodes@.len() && (#[trigger] self.nodes@[j]).freed ==> other.nodes@.len()
                > j && other.nodes@[j] == self.nodes@[j]
    }

    /// Some non-sentinel node on the spine carries key `k`.
    pub closed spec fn has_key(self, k: i64) -> bool {
        exists|p: int| 1 <= p < self.chain@.len() - 1 && #[trigger] self.key_at(p) == k
    }

    /// The spine position of the node carrying key `k` (meaningful only when
    /// `has_key(k)`).
    pub closed spec fn key_pos(self, k: i64) -> int {
        choose|p: int| 1 <= p < self.chain@.len() - 1 && #[trigger] self.key_at(p) == k
    }

    /// The value stored with key `k` (meaningful only when `has_key(k)`).
    pub closed spec fn value_of(self, k: i64) -> u64 {
        self.nodes@[self.chain@[self.key_pos(k)]].value
    }
}

impl View for List {
    type V = Map<i64, u64>;

    /// The abstract value of the set: each key on the spine, mapped to its
    /// stored value.
    closed spec fn view(&self) -> Map<i64, u64> {
        Map::new(|k: i64| self.has_key(k), |k: i64| self.value_of(k))
    }
}

impl List {
    /// A new list: the two sentinels, with the head linked to the tail and
    /// no other node. The set is empty.
    pub fn new() -> (l: List)
        ensures
            l.wf(),
            l.quiescent(),
            l@ == Map::<i64, u64>::empty(),
            l.spine_len() == 2,
            l.node_count() == 2,
    {
        let mut nodes: Vec<Node> = Vec::new();
        nodes.push(Node { key: i64::MIN, value: 0, next: 1, locked: false, freed: false });
        nodes.push(Node { key: i64::MAX, value: 0, next: 1, locked: false, freed: false });
        let ghost spine0: Seq<int> = seq![0int, 1int];
        let l = List { nodes, chain: Ghost(spine0) };
        proof {
            assert(l.chain@.contains(0int)) by {
                assert(l.chain@[0] == 0int);
            }
            assert(l.chain@.contains(1int)) by {
                assert(l.chain@[1] == 1int);
            }
            assert forall|k: i64| !l.has_key(k) by {
                assert(l.chain@.len() - 1 == 1);
            }
            assert(l@ =~= Map::<i64, u64>::empty());
        }
        l
    }

    /// Keys strictly increase along the spine, so two spine positions with
    /// the same key coincide.
    proof fn lemma_key_pos_unique(self, p: int, q: int)
        requires
            self.wf(),
            0 <= p < self.chain@.len(),
            0 <= q < self.chain@.len(),
            self.key_at(p) == self.key_at(q),
        ensures
            p == q,
    {
        if p < q {
            assert(self.key_at(p) < self.key_at(q));
        }
        if q < p {
            assert(self.key_at(q) < self.key_at(p));
        }
    }

    /// Two distinct spine positions name distinct arena indices.
    proof fn lemma_spine_distinct(self, p: int, q: int)
        requires
            self.wf(),
            0 <= p < self.chain@.len(),
            0 <= q < self.chain@.len(),
            p != q,
        ensures
            self.chain@[p] != self.chain@[q],
    {
        if self.chain@[p] == self.chain@[q] {
            assert(self.key_at(p) == self.key_at(q));
            self.lemma_key_pos_unique(p, q);
        }
    }

    /// Changing lock bits alone preserves well-formedness and every key
    /// along the spine.
    proof fn lemma_same_structure_wf(self, other: List)
        requires
            self.wf(),
            self.same_structure(other),
        ensures
            other.wf(),
            forall|p: int|
                0 <= p < self.chain@.len() ==> #[trigger] other.key_at(p) == self.key_at(p),
    {
        assert forall|p: int|
            0 <= p < self.chain@.len() implies #[trigger] other.key_at(p) == self.key_at(p) by {
            assert(0 <= self.chain@[p] < self.nodes@.len());
        }
        assert forall|p: int, q: int|
            0 <= p < q < other.chain@.len() implies #[trigger] other.key_at(p)
                < #[trigger] other.key_at(q) by {
            assert(self.key_at(p) < self.key_at(q));
        }
    }

    /// `same_structure` composes.
    proof fn lemma_same_structure_trans(self, mid: List, other: List)
        requires
            self.same_structure(mid),
            mid.same_structure(other),
        ensures
            self.same_structure(other),
    {
    }

    /// Changing lock bits alone preserves the abstract map.
    proof fn lemma_same_structure_view(self, other: List)
        requires
            self.wf(),
            self.same_structure(other),
        ensures
            other@ == self@,
    {
        self.lemma_same_structure_wf(other);
        assert forall|k: i64| #[trigger] other.has_key(k) == self.has_key(k) by {
            if self.has_key(k) {
                let p = choose|p: int|
                    1 <= p < self.chain@.len() - 1 && #[trigger] self.key_at(p) == k;
                assert(other.key_at(p) == k);
            }
            if other.has_key(k) {
                let p = choose|p: int|
                    1 <= p < other.chain@.len() - 1 && #[trigger] other.key_at(p) == k;
                assert(self.key_at(p) == k);
            }
        }
        assert forall|k: i64| self.has_key(k) implies #[trigger] other.value_of(k)
            == self.value_of(k) by {
            assert(other.has_key(k));
            let p1 = self.key_pos(k);
            let p2 = other.key_pos(k);
            assert(self.key_at(p1) == k);
            assert(1 <= p2 < other.chain@.len() - 1 && other.key_at(p2) == k);
            assert(self.key_at(p2) == k);
            self.lemma_key_pos_unique(p1, p2);
        }
        assert(other@ =~= self@);
    }

    /// What `find`'s bracketing pair says about membership: with
    /// `key_at(pos) < k <= key_at(pos + 1)`, the key is present exactly when
    /// the current node carries it, and then `pos + 1` is its position.
    proof fn lemma_bracket(self, k: i64, pos: int)
        requires
            self.wf(),
            0 <= pos < self.chain@.len() - 1,
            self.key_at(pos) < k,
            k <= self.key_at(pos + 1),
            k < i64::MAX,
        ensures
            self.has_key(k) <==> self.key_at(pos + 1) == k,
            self.key_at(pos + 1) == k ==> self.key_pos(k) == pos + 1,
    {
        let last = self.chain@.len() - 1;
        assert(self.key_at(last) == i64::MAX);
        if self.key_at(pos + 1) == k {
            assert(pos + 1 < last) by {
                if pos + 1 == last {
                    assert(self.key_at(pos + 1) == i64::MAX);
                }
            }
            assert(self.has_key(k));
            let p = self.key_pos(k);
            assert(self.key_at(p) == k);
            self.lemma_key_pos_unique(p, pos + 1);
        } else {
            assert forall|p: int|
                1 <= p < self.chain@.len() - 1 implies #[trigger] self.key_at(p) != k by {
                if p < pos {
                    assert(self.key_at(p) < self.key_at(pos));
                } else if p == pos {
                } else if p == pos + 1 {
                } else {
                    assert(self.key_at(pos + 1) < self.key_at(p));
                }
            }
        }
    }

    /// Set or clear the lock bit of the node at arena index `i`, leaving
    /// every other field and every other node unchanged.
    fn set_locked(&mut self, i: usize, b: bool)
        requires
            i < old(self).nodes@.len(),
        ensures
            final(self).chain == old(self).chain,
            final(self).nodes@.len() == old(self).nodes@.len(),
            final(self).nodes@[i as int].key == old(self).nodes@[i as int].key,
            final(self).nodes@[i as int].value == old(self).nodes@[i as int].value,
            final(self).nodes@[i as int].next == old(self).nodes@[i as int].next,
            final(self).nodes@[i as int].freed == old(self).nodes@[i as int].freed,
            final(self).nodes@[i as int].locked == b,
            forall|j: int|
                0 <= j < final(self).nodes@.len() && j != i as int ==> final(self).nodes@[j] == old(
                    self,
                ).nodes@[j],
    {
        let mut n = self.nodes[i];
        n.locked = b;
        self.nodes.set(i, n);
    }

    /// One hand-over-hand step: release the trailing lock, move the pair one
    /// edge toward the tail, and lock the new current node. The old current
    /// node's lock is held throughout, so at least one lock — and at most
    /// two — is held at every instant.
    fn advance(&mut self, pred: usize, curr: usize, Ghost(pos): Ghost<int>) -> (r: (usize, usize))
        requires
            old(self).wf(),
            0 <= pos,
            pos + 1 < old(self).chain@.len() - 1,
            old(self).chain@[pos] == pred as int,
            old(self).chain@[pos + 1] == curr as int,
            pred < old(self).nodes@.len(),
            curr < old(self).nodes@.len(),
            old(self).locked_exactly(pred as int, curr as int),
        ensures
            final(self).wf(),
            old(self).same_structure(*final(self)),
            final(self).chain@[pos + 1] == r.0 as int,
            final(self).chain@[pos + 2] == r.1 as int,
            r.0 < final(self).nodes@.len(),
            r.1 < final(self).nodes@.len(),
            final(self).locked_exactly(r.0 as int, r.1 as int),
    {
        // Release the trailing lock; the current node's lock stays held.
        self.set_locked(pred, false);
        let npred = curr;
        proof {
            assert(old(self).same_structure(*self));
            old(self).lemma_same_structure_wf(*self);
        }
        // Read the link under the held lock, then lock its target.
        let ncurr = self.nodes[npred].next;
        proof {
            assert(self.nodes@[self.chain@[pos + 1]].next == self.chain@[pos + 2]);
            self.lemma_spine_distinct(pos + 1, pos + 2);
        }
        self.set_locked(ncurr, true);
        proof {
            assert(old(self).same_structure(*self));
            old(self).lemma_same_structure_wf(*self);
        }
        (npred, ncurr)
    }

    /// Lock-coupling traversal. Walks the chain from the head sentinel,
    /// holding at most two adjacent node locks at any instant and never
    /// fewer than one once the head is locked, and returns the arena indices
    /// of two nodes whose locks are still held: a predecessor with
    /// `pred.key < key` and a current node with `key <= curr.key`, adjacent
    /// on the spine (the ghost result is the predecessor's spine position).
    ///
    /// The caller must release both locks itself, in either order, once it
    /// has inspected — and possibly mutated — the pair; `release_pair` does
    /// so.
    #[verifier::rlimit(100)]
    pub fn find(&mut self, key: i64) -> (r: LockedPair)
        requires
            old(self).wf(),
            old(self).quiescent(),
            i64::MIN < key,
            key < i64::MAX,
        ensures
            final(self).wf(),
            old(self).same_structure(*final(self)),
            old(self).frees_preserved(*final(self)),
            final(self)@ == old(self)@,
            0 <= r.pos@ < final(self).spine_len() - 1,
            final(self).spine()[r.pos@] == r.pred as int,
            final(self).spine()[r.pos@ + 1] == r.curr as int,
            final(self).key_at(r.pos@) < key,
            key <= final(self).key_at(r.pos@ + 1),
            final(self).locked_exactly(r.pred as int, r.curr as int),
            final(self).link_of(r.pred as int) == r.curr as int,
            r.pred != r.curr,
    {
        let ghost mut pos: int = 0;
        // Step 1: lock the head sentinel; it is the first predecessor.
        self.set_locked(0, true);
        let mut pred: usize = 0;
        // Step 2: read the head's link (its lock is held) and lock the
        // successor; it is the first current node.
        let mut curr: usize = self.nodes[0].next;
        proof {
            assert(old(self).same_structure(*self));
            old(self).lemma_same_structure_wf(*self);
            assert(self.nodes@[self.chain@[0]].next == self.chain@[1]);
            self.lemma_spine_distinct(0, 1);
        }
        self.set_locked(curr, true);
        proof {
            assert(old(self).same_structure(*self));
            old(self).lemma_same_structure_wf(*self);
        }
        while self.nodes[curr].key < key
            invariant
                self.wf(),
                old(self).same_structure(*self),
                i64::MIN < key,
                key < i64::MAX,
                0 <= pos < self.chain@.len() - 1,
                self.chain@[pos] == pred as int,
                self.chain@[pos + 1] == curr as int,
                curr < self.nodes@.len(),
                pred < self.nodes@.len(),
                self.key_at(pos) < key,
                self.locked_exactly(pred as int, curr as int),
            decreases self.chain@.len() - pos,
        {
            proof {
                // The current node's key is below `key`, which is below the
                // tail sentinel's key, so the current node is not the tail
                // and the spine continues past it.
                assert(self.key_at(pos + 1) == self.nodes@[curr as int].key);
                assert(self.key_at(self.chain@.len() - 1) == i64::MAX);
                if pos + 1 == self.chain@.len() - 1 {
                    assert(self.key_at(pos + 1) == i64::MAX);
                }
                assert(pos + 1 < self.chain@.len() - 1);
            }
            let ghost prev_state: List = *self;
            let stepped = self.advance(pred, curr, Ghost(pos));
            pred = stepped.0;
            curr = stepped.1;
            proof {
                pos = pos + 1;
                old(self).lemma_same_structure_trans(prev_state, *self);
                prev_state.lemma_same_structure_wf(*self);
                assert(self.key_at(pos) == prev_state.key_at(pos));
            }
        }
        proof {
            old(self).lemma_same_structure_wf(*self);
            old(self).lemma_same_structure_view(*self);
            self.lemma_spine_distinct(pos, pos + 1);
            assert forall|j: int|
                0 <= j < old(self).nodes@.len() && (#[trigger] old(
                    self,
                ).nodes@[j]).freed implies self.nodes@.len() > j && self.nodes@[j] == old(
                self,
            ).nodes@[j] by {
                assert(self.nodes@[j].freed);
                assert(!self.chain@.contains(j));
                assert(self.chain@.contains(pred as int)) by {
                    assert(self.chain@[pos] == pred as int);
                }
                assert(self.chain@.contains(curr as int)) by {
                    assert(self.chain@[pos + 1] == curr as int);
                }
                assert(!self.nodes@[j].locked);
                assert(!old(self).nodes@[j].locked);
            }
        }
        LockedPair { pred, curr, pos: Ghost(pos) }
    }

    /// Release the two locks a `find` handed back, in either order (no
    /// mutation depends on it once the caller is done). The pair is
    /// consumed: a released handle cannot be used again. With exactly that
    /// pair held, the list is quiescent afterwards.
    pub fn release_pair(&mut self, pair: LockedPair)
        requires
            pair.pred < old(self).node_count(),
            pair.curr < old(self).node_count(),
        ensures
            old(self).same_structure(*final(self)),
            old(self).wf() ==> final(self).wf(),
            old(self).wf() ==> final(self)@ == old(self)@,
            forall|j: int|
                0 <= j < final(self).node_count() ==> (final(self).node_locked(j) <==> (old(
                    self,
                ).node_locked(j) && j != pair.pred as int && j != pair.curr as int)),
            old(self).locked_exactly(pair.pred as int, pair.curr as int) ==> final(self).quiescent(),
    {
        self.set_locked(pair.pred, false);
        self.set_locked(pair.curr, false);
        proof {
            if old(self).wf() {
                old(self).lemma_same_structure_wf(*self);
                old(self).lemma_same_structure_view(*self);
            }
        }
    }

    /// Membership test. One `find`, one key comparison under the returned
    /// locks, then both locks are released; the set is untouched.
    pub fn contains(&mut self, key: i64) -> (r: bool)
        requires
            old(self).wf(),
            old(self).quiescent(),
            i64::MIN < key,
            key < i64::MAX,
        ensures
            final(self).wf(),
            final(self).quiescent(),
            old(self).same_structure(*final(self)),
            old(self).frees_preserved(*final(self)),
            final(self)@ == old(self)@,
            r == old(self)@.dom().contains(key),
    {
        let found = self.find(key);
        let pred = found.pred;
        let curr = found.curr;
        let ghost pos = found.pos@;
        let ghost mid: List = *self;
        proof {
            assert(0 <= self.chain@[pos + 1] < self.nodes@.len());
        }
        let r = self.nodes[curr].key == key;
        proof {
            mid.lemma_bracket(key, pos);
            assert(mid@.dom().contains(key) == mid.has_key(key));
            assert(r == mid.has_key(key));
        }
        self.set_locked(curr, false);
        self.set_locked(pred, false);
        proof {
            assert(mid.same_structure(*self));
            old(self).lemma_same_structure_trans(mid, *self);
            old(self).lemma_same_structure_wf(*self);
            old(self).lemma_same_structure_view(*self);
        }
        r
    }

    /// Splice a fresh node carrying `key` and `value` in between a locked
    /// bracketing pair: the new node's link is set to the current node while
    /// the latter is still locked, then the predecessor's link — mutable
    /// because its lock is held — is redirected to the new node. Both locks
    /// stay held; the caller releases them.
    #[verifier::rlimit(100)]
    fn splice_in(&mut self, pred: usize, curr: usize, key: i64, value: u64, Ghost(pos): Ghost<int>)
        requires
            old(self).wf(),
            0 <= pos < old(self).chain@.len() - 1,
            old(self).chain@[pos] == pred as int,
            old(self).chain@[pos + 1] == curr as int,
            old(self).locked_exactly(pred as int, curr as int),
            old(self).key_at(pos) < key,
            key < old(self).key_at(pos + 1),
        ensures
            final(self).wf(),
            final(self).locked_exactly(pred as int, curr as int),
            final(self)@ == old(self)@.insert(key, value),
            old(self).frees_preserved(*final(self)),
            final(self).node_count() == old(self).node_count() + 1,
            final(self).spine_len() == old(self).spine_len() + 1,
            pred < final(self).node_count(),
            curr < final(self).node_count(),
    {
        proof {
            assert(0 <= old(self).chain@[pos] < old(self).nodes@.len());
            assert(0 <= old(self).chain@[pos + 1] < old(self).nodes@.len());
        }
        let new_idx = self.nodes.len();
        self.nodes.push(Node { key, value, next: curr, locked: false, freed: false });
        let mut pn = self.nodes[pred];
        pn.next = new_idx;
        self.nodes.set(pred, pn);
        let ghost new_chain: Seq<int> = old(self).chain@.insert(pos + 1, new_idx as int);
        self.chain = Ghost(new_chain);
        proof {
            old(self).lemma_splice_structure(*self, pred, curr, key, value, pos);
            old(self).lemma_splice_view(*self, pred, curr, key, value, pos);
        }
    }

    /// Add `key` with `value` to the set. One `find`; if the current node
    /// already carries `key` the list is left unchanged and the result is
    /// `false` — under a race of two inserts of the same key, the first
    /// writer wins. Otherwise a fresh node is spliced in between the locked
    /// pair and the result is `true`. Both locks are then released,
    /// predecessor first.
    pub fn insert(&mut self, key: i64, value: u64) -> (r: bool)
        requires
            old(self).wf(),
            old(self).quiescent(),
            i64::MIN < key,
            key < i64::MAX,
        ensures
            final(self).wf(),
            final(self).quiescent(),
            old(self).frees_preserved(*final(self)),
            r == !old(self)@.dom().contains(key),
            final(self)@ == (if r {
                old(self)@.insert(key, value)
            } else {
                old(self)@
            }),
            r ==> final(self).node_count() == old(self).node_count() + 1,
            !r ==> old(self).same_structure(*final(self)),
    {
        let found = self.find(key);
        let pred = found.pred;
        let curr = found.curr;
        let ghost pos = found.pos@;
        let ghost mid: List = *self;
        proof {
            assert(0 <= self.chain@[pos] < self.nodes@.len());
            assert(0 <= self.chain@[pos + 1] < self.nodes@.len());
            mid.lemma_bracket(key, pos);
            assert(mid@.dom().contains(key) == mid.has_key(key));
        }
        if self.nodes[curr].key == key {
            // Key already present: no mutation, report the loss of the race.
            self.set_locked(pred, false);
            self.set_locked(curr, false);
            proof {
                assert(mid.same_structure(*self));
                old(self).lemma_same_structure_trans(mid, *self);
                old(self).lemma_same_structure_wf(*self);
                old(self).lemma_same_structure_view(*self);
            }
            false
        } else {
            self.splice_in(pred, curr, key, value, Ghost(pos));
            let ghost spl: List = *self;
            // The splice is complete: release the predecessor, then the
            // current node.
            self.set_locked(pred, false);
            self.set_locked(curr, false);
            proof {
                assert(spl.same_structure(*self));
                spl.lemma_same_structure_wf(*self);
                spl.lemma_same_structure_view(*self);
                assert forall|j: int|
                    0 <= j < self.nodes@.len() implies !(#[trigger] self.nodes@[j].locked) by {
                    assert(spl.nodes@[j].locked <==> (j == pred as int || j == curr as int));
                }
                assert forall|j: int|
                    0 <= j < old(self).nodes@.len() && (#[trigger] old(
                        self,
                    ).nodes@[j]).freed implies self.nodes@.len() > j && self.nodes@[j] == old(
                    self,
                ).nodes@[j] by {
                    assert(mid.nodes@[j] == old(self).nodes@[j]);
                    assert(mid.nodes@[j].freed);
                    assert(spl.nodes@[j] == mid.nodes@[j]);
                    assert(mid.chain@.contains(pred as int)) by {
                        assert(mid.chain@[pos] == pred as int);
                    }
                    assert(mid.chain@.contains(curr as int)) by {
                        assert(mid.chain@[pos + 1] == curr as int);
                    }
                    assert(!mid.nodes@[pred as int].freed);
                    assert(!mid.nodes@[curr as int].freed);
                    assert(self.nodes@[j] == spl.nodes@[j]);
                }
            }
            true
        }
    }

    /// The key of the node at arena index `i`, read without taking any
    /// lock; meant for inspecting the two locked handles a `find` returned,
    /// whose fields are stable while their locks are held.
    pub fn node_key(&self, i: usize) -> (k: i64)
        requires
            i < self.node_count(),
        ensures
            k == self.key_of_index(i as int),
    {
        self.nodes[i].key
    }

    /// Sorted invariant: at any quiescent point — in fact whenever the list
    /// is well formed — the keys of the reachable chain strictly increase
    /// from the head sentinel to the tail sentinel.
    pub proof fn lemma_sorted_invariant(self)
        requires
            self.wf(),
        ensures
            forall|p: int, q: int|
                0 <= p < q < self.spine_len() ==> #[trigger] self.key_at(p) < #[trigger] self.key_at(
                    q,
                ),
    {
    }

    /// No duplicates: two reachable spine positions carrying the same key
    /// coincide, so at most one reachable node carries any given key.
    pub proof fn lemma_no_duplicate_keys(self)
        requires
            self.wf(),
        ensures
            forall|p: int, q: int|
                0 <= p < self.spine_len() && 0 <= q < self.spine_len() && #[trigger] self.key_at(p)
                    == #[trigger] self.key_at(q) ==> p == q,
    {
        assert forall|p: int, q: int|
            0 <= p < self.spine_len() && 0 <= q < self.spine_len() && #[trigger] self.key_at(p)
                == #[trigger] self.key_at(q) implies p == q by {
            self.lemma_key_pos_unique(p, q);
        }
    }

    /// Reclamation safety, structural half: a node marked freed is off the
    /// spine, hence unreachable from the head. Since `find` only ever locks
    /// and reads nodes at spine positions, and every operation leaves freed
    /// nodes byte-for-byte untouched (`frees_preserved` in their contracts),
    /// a reclaimed node is never subsequently locked, read or written.
    pub proof fn lemma_reclaimed_unreachable(self)
        requires
            self.wf(),
        ensures
            forall|j: int|
                0 <= j < self.node_count() && #[trigger] self.node_freed(j)
                    ==> !self.spine().contains(j),
    {
    }

    /// The pointwise relation between the list before a splice and after it:
    /// the arena gained one node at the end, the predecessor's link moved to
    /// it, and the spine gained its index right after `pos`.
    spec fn spliced(self, s: List, pred: usize, curr: usize, key: i64, value: u64, pos: int) -> bool {
        let ni = self.nodes@.len() as int;
        &&& s.chain@ == self.chain@.insert(pos + 1, ni)
        &&& s.nodes@.len() == ni + 1
        &&& (forall|j: int| 0 <= j < ni && j != pred as int ==> #[trigger] s.nodes@[j] == self.nodes@[j])
        &&& s.nodes@[pred as int].key == self.nodes@[pred as int].key
        &&& s.nodes@[pred as int].value == self.nodes@[pred as int].value
        &&& s.nodes@[pred as int].freed == self.nodes@[pred as int].freed
        &&& s.nodes@[pred as int].locked == self.nodes@[pred as int].locked
        &&& s.nodes@[pred as int].next == ni
        &&& s.nodes@[ni].key == key
        &&& s.nodes@[ni].value == value
        &&& s.nodes@[ni].next == curr
        &&& s.nodes@[ni].locked == false
        &&& s.nodes@[ni].freed == false
    }

    /// The bracketing hypotheses under which `splice_in` runs.
    spec fn splice_pre(self, pred: usize, curr: usize, key: i64, pos: int) -> bool {
        &&& self.wf()
        &&& 0 <= pos < self.chain@.len() - 1
        &&& self.chain@[pos] == pred as int
        &&& self.chain@[pos + 1] == curr as int
        &&& self.key_at(pos) < key
        &&& key < self.key_at(pos + 1)
    }

    /// After a splice the list is well formed again, the lock state is
    /// untouched, and freed nodes are untouched.
    #[verifier::rlimit(100)]
    proof fn lemma_splice_structure(
        self,
        s: List,
        pred: usize,
        curr: usize,
        key: i64,
        value: u64,
        pos: int,
    )
        requires
            self.splice_pre(pred, curr, key, pos),
            self.spliced(s, pred, curr, key, value, pos),
        ensures
            s.wf(),
            self.locked_exactly(pred as int, curr as int) ==> s.locked_exactly(
                pred as int,
                curr as int,
            ),
            self.frees_preserved(s),
            forall|p: int| 0 <= p <= pos ==> #[trigger] s.key_at(p) == self.key_at(p),
            s.key_at(pos + 1) == key,
    {
        let m = self;
        let n = m.chain@.len() as int;
        let ni = m.nodes@.len() as int;
        m.chain@.insert_ensures(pos + 1, ni);
        assert(s.chain@.len() == n + 1);
        assert(s.chain@[pos + 1] == ni);
        assert forall|p: int| 0 <= p <= pos implies s.chain@[p] == m.chain@[p] by {}
        assert forall|p: int| pos + 2 <= p <= n implies s.chain@[p] == m.chain@[p - 1] by {}
        // Keys by spine position, old against new.
            assert forall|p: int| 0 <= p <= pos implies #[trigger] s.key_at(p) == m.key_at(p) by {
                assert(0 <= m.chain@[p] < ni);
            }
            assert(s.key_at(pos + 1) == key);
            assert forall|p: int|
                pos + 2 <= p <= n implies #[trigger] s.key_at(p) == m.key_at(p - 1) by {
                assert(0 <= m.chain@[p - 1] < ni);
            }
            // Spine bounds.
            assert forall|p: int|
                0 <= p < s.chain@.len() implies 0 <= #[trigger] s.chain@[p] < s.nodes@.len() by {
                if p <= pos {
                    assert(0 <= m.chain@[p] < ni);
                } else if p >= pos + 2 {
                    assert(0 <= m.chain@[p - 1] < ni);
                }
            }
            // Links still follow the spine.
            assert forall|p: int|
                0 <= p < s.chain@.len() - 1 implies s.nodes@[#[trigger] s.chain@[p]].next
                    == s.chain@[p + 1] by {
                if p < pos {
                    m.lemma_spine_distinct(p, pos);
                    assert(m.nodes@[m.chain@[p]].next == m.chain@[p + 1]);
                } else if p == pos {
                    assert(s.chain@[p] == pred as int);
                } else if p == pos + 1 {
                    assert(s.chain@[p] == ni);
                    assert(s.chain@[p + 1] == m.chain@[pos + 1]);
                } else {
                    m.lemma_spine_distinct(p - 1, pos);
                    assert(m.nodes@[m.chain@[p - 1]].next == m.chain@[p]);
                }
            }
            // Keys still strictly increase.
            assert forall|p: int, q: int|
                0 <= p < q < s.chain@.len() implies #[trigger] s.key_at(p) < #[trigger] s.key_at(
                    q,
                ) by {
                if q <= pos {
                    assert(m.key_at(p) < m.key_at(q));
                } else if q == pos + 1 {
                    if p < pos {
                        assert(m.key_at(p) < m.key_at(pos));
                    }
                } else {
                    if p <= pos {
                        if p < pos {
                            assert(m.key_at(p) < m.key_at(pos));
                        }
                        if pos + 1 < q - 1 {
                            assert(m.key_at(pos + 1) < m.key_at(q - 1));
                        }
                    } else if p == pos + 1 {
                        if pos + 1 < q - 1 {
                            assert(m.key_at(pos + 1) < m.key_at(q - 1));
                        }
                    } else {
                        assert(m.key_at(p - 1) < m.key_at(q - 1));
                    }
                }
            }
            // A node is freed exactly when it is off the new spine.
            assert forall|j: int|
                0 <= j < s.nodes@.len() implies (!(#[trigger] s.nodes@[j].freed)
                    <==> s.chain@.contains(j)) by {
                if j == ni {
                    assert(s.chain@[pos + 1] == j);
                    assert(s.chain@.contains(j));
                } else {
                    if !m.nodes@[j].freed {
                        assert(m.chain@.contains(j));
                        let p = choose|p: int| 0 <= p < m.chain@.len() && m.chain@[p] == j;
                        if p <= pos {
                            assert(s.chain@[p] == j);
                        } else {
                            assert(s.chain@[p + 1] == j);
                        }
                        assert(s.chain@.contains(j));
                    }
                    if s.chain@.contains(j) {
                        let p = choose|p: int| 0 <= p < s.chain@.len() && s.chain@[p] == j;
                        if p <= pos {
                            assert(m.chain@[p] == j);
                        } else if p == pos + 1 {
                            assert(j == ni);
                        } else {
                            assert(m.chain@[p - 1] == j);
                        }
                        assert(m.chain@.contains(j));
                    }
                }
            }
            assert(s.wf());
        // Lock bits are untouched: the new node is unlocked and every old
        // node keeps its bit.
        if m.locked_exactly(pred as int, curr as int) {
            assert forall|j: int|
                0 <= j < s.nodes@.len() implies ((#[trigger] s.nodes@[j].locked) <==> (j
                    == pred as int || j == curr as int)) by {
                assert(0 <= (curr as int) < ni);
            }
        }
        // Freed nodes sit off the old spine, so neither the link move at
        // `pred` nor the appended node touches them.
        assert forall|j: int|
            0 <= j < m.nodes@.len() && (#[trigger] m.nodes@[j]).freed implies s.nodes@.len() > j
                && s.nodes@[j] == m.nodes@[j] by {
            assert(m.chain@.contains(pred as int)) by {
                assert(m.chain@[pos] == pred as int);
            }
            assert(!m.nodes@[pred as int].freed);
        }
    }

    /// After a splice, keys by spine position: unchanged up to `pos`, the
    /// new key at `pos + 1`, shifted by one past it.
    proof fn lemma_splice_keymap(
        self,
        s: List,
        pred: usize,
        curr: usize,
        key: i64,
        value: u64,
        pos: int,
    )
        requires
            self.splice_pre(pred, curr, key, pos),
            self.spliced(s, pred, curr, key, value, pos),
        ensures
            s.chain@.len() == self.chain@.len() + 1,
            forall|p: int| 0 <= p <= pos ==> #[trigger] s.key_at(p) == self.key_at(p),
            s.key_at(pos + 1) == key,
            forall|p: int|
                pos + 2 <= p <= self.chain@.len() ==> #[trigger] s.key_at(p) == self.key_at(p - 1),
    {
        let m = self;
        let n = m.chain@.len() as int;
        let ni = m.nodes@.len() as int;
        m.chain@.insert_ensures(pos + 1, ni);
        assert forall|p: int| 0 <= p <= pos implies #[trigger] s.key_at(p) == m.key_at(p) by {
            assert(0 <= m.chain@[p] < ni);
            assert(s.chain@[p] == m.chain@[p]);
        }
        assert(s.key_at(pos + 1) == key);
        assert forall|p: int|
            pos + 2 <= p <= n implies #[trigger] s.key_at(p) == m.key_at(p - 1) by {
            assert(0 <= m.chain@[p - 1] < ni);
            assert(s.chain@[p] == m.chain@[p - 1]);
        }
    }

    /// After a splice the keys present are the old ones plus `key`.
    #[verifier::rlimit(100)]
    proof fn lemma_splice_has_key(
        self,
        s: List,
        pred: usize,
        curr: usize,
        key: i64,
        value: u64,
        pos: int,
    )
        requires
            self.splice_pre(pred, curr, key, pos),
            self.spliced(s, pred, curr, key, value, pos),
        ensures
            forall|k2: i64| #[trigger] s.has_key(k2) <==> (self.has_key(k2) || k2 == key),
    {
        let m = self;
        let n = m.chain@.len() as int;
        self.lemma_splice_keymap(s, pred, curr, key, value, pos);
        assert forall|k2: i64| #[trigger] s.has_key(k2) <==> (m.has_key(k2) || k2 == key) by {
                if m.has_key(k2) {
                    let p = m.key_pos(k2);
                    assert(1 <= p < n - 1 && m.key_at(p) == k2);
                    if p <= pos {
                        assert(s.key_at(p) == k2);
                    } else {
                        assert(s.key_at(p + 1) == k2);
                    }
                }
                if k2 == key {
                    assert(s.key_at(pos + 1) == k2);
                }
                if s.has_key(k2) && k2 != key {
                    let p = s.key_pos(k2);
                    assert(1 <= p < s.chain@.len() - 1 && s.key_at(p) == k2);
                    if p <= pos {
                        assert(m.key_at(p) == k2);
                    } else if p == pos + 1 {
                        assert(k2 == key);
                    } else {
                        assert(m.key_at(p - 1) == k2);
                    }
                }
            }
    }

    /// After a splice every old key keeps its value, and `key` carries
    /// `value`.
    #[verifier::rlimit(100)]
    proof fn lemma_splice_values(
        self,
        s: List,
        pred: usize,
        curr: usize,
        key: i64,
        value: u64,
        pos: int,
    )
        requires
            self.splice_pre(pred, curr, key, pos),
            self.spliced(s, pred, curr, key, value, pos),
            s.wf(),
            s.key_at(pos + 1) == key,
        ensures
            forall|k2: i64|
                self.has_key(k2) && k2 != key ==> #[trigger] s.value_of(k2) == self.value_of(k2),
            s.has_key(key),
            s.value_of(key) == value,
    {
        let m = self;
        let n = m.chain@.len() as int;
        self.lemma_splice_keymap(s, pred, curr, key, value, pos);
            assert forall|k2: i64|
                m.has_key(k2) && k2 != key implies #[trigger] s.value_of(k2) == m.value_of(
                    k2,
                ) by {
                let pm = m.key_pos(k2);
                assert(1 <= pm < n - 1 && m.key_at(pm) == k2);
                if pm <= pos {
                    assert(s.key_at(pm) == k2);
                } else {
                    assert(s.key_at(pm + 1) == k2);
                }
                assert(s.has_key(k2));
                let ps = s.key_pos(k2);
                assert(1 <= ps < s.chain@.len() - 1 && s.key_at(ps) == k2);
                if ps == pos + 1 {
                    assert(k2 == key);
                }
                if ps <= pos {
                    assert(m.key_at(ps) == k2);
                    m.lemma_key_pos_unique(pm, ps);
                } else {
                    assert(m.key_at(ps - 1) == k2);
                    m.lemma_key_pos_unique(pm, ps - 1);
                }
            }
            assert(1 <= pos + 1 < s.chain@.len() - 1);
            assert(s.has_key(key));
            assert(s.value_of(key) == value) by {
                let ps = s.key_pos(key);
                assert(1 <= ps < s.chain@.len() - 1 && s.key_at(ps) == key);
                s.lemma_key_pos_unique(ps, pos + 1);
            }
    }

    /// The hypotheses under which `unlink_reclaim` runs: a locked bracketing
    /// pair whose current node is a non-sentinel.
    spec fn unlink_pre(self, pred: usize, curr: usize, pos: int) -> bool {
        &&& self.wf()
        &&& 0 <= pos
        &&& pos + 1 < self.chain@.len() - 1
        &&& self.chain@[pos] == pred as int
        &&& self.chain@[pos + 1] == curr as int
    }

    /// The pointwise relation between the list before an unlink and after
    /// it: the spine lost the entry at `pos + 1`, the predecessor's link
    /// jumped over it, the unlinked node is marked freed with its storage
    /// cleared, and both locks are released.
    spec fn unlinked(self, s: List, pred: usize, curr: usize, pos: int) -> bool {
        &&& s.chain@ == self.chain@.remove(pos + 1)
        &&& s.nodes@.len() == self.nodes@.len()
        &&& (forall|j: int|
            0 <= j < self.nodes@.len() && j != pred as int && j != curr as int
                ==> #[trigger] s.nodes@[j] == self.nodes@[j])
        &&& s.nodes@[pred as int].key == self.nodes@[pred as int].key
        &&& s.nodes@[pred as int].value == self.nodes@[pred as int].value
        &&& s.nodes@[pred as int].freed == self.nodes@[pred as int].freed
        &&& s.nodes@[pred as int].next == self.nodes@[curr as int].next
        &&& s.nodes@[pred as int].locked == false
        &&& s.nodes@[curr as int].key == self.nodes@[curr as int].key
        &&& s.nodes@[curr as int].value == 0
        &&& s.nodes@[curr as int].freed == true
        &&& s.nodes@[curr as int].locked == false
    }

    /// After an unlink, keys by spine position: unchanged up to `pos`,
    /// shifted down by one past it.
    proof fn lemma_unlink_keymap(self, s: List, pred: usize, curr: usize, pos: int)
        requires
            self.unlink_pre(pred, curr, pos),
            self.unlinked(s, pred, curr, pos),
        ensures
            s.chain@.len() == self.chain@.len() - 1,
            forall|p: int| 0 <= p <= pos ==> #[trigger] s.key_at(p) == self.key_at(p),
            forall|p: int|
                pos + 1 <= p < self.chain@.len() - 1 ==> #[trigger] s.key_at(p) == self.key_at(
                    p + 1,
                ),
    {
        let m = self;
        let n = m.chain@.len() as int;
        m.chain@.remove_ensures(pos + 1);
        assert forall|p: int| 0 <= p <= pos implies #[trigger] s.key_at(p) == m.key_at(p) by {
            assert(s.chain@[p] == m.chain@[p]);
            assert(0 <= m.chain@[p] < m.nodes@.len());
            m.lemma_spine_distinct(p, pos + 1);
        }
        assert forall|p: int|
            pos + 1 <= p < n - 1 implies #[trigger] s.key_at(p) == m.key_at(p + 1) by {
            assert(s.chain@[p] == m.chain@[p + 1]);
            assert(0 <= m.chain@[p + 1] < m.nodes@.len());
            if p + 1 != pos + 1 {
                m.lemma_spine_distinct(p + 1, pos + 1);
            }
        }
    }

    /// After an unlink the list is well formed again, quiescent if only the
    /// pair's locks were held, and the unlinked node is freed, off the
    /// spine, and the only node that changed its freed mark.
    #[verifier::rlimit(100)]
    proof fn lemma_unlink_structure(self, s: List, pred: usize, curr: usize, pos: int)
        requires
            self.unlink_pre(pred, curr, pos),
            self.unlinked(s, pred, curr, pos),
            self.locked_exactly(pred as int, curr as int),
        ensures
            s.wf(),
            s.quiescent(),
            self.frees_preserved(s),
            s.nodes@[curr as int].freed,
            !s.chain@.contains(curr as int),
    {
        let m = self;
        let n = m.chain@.len() as int;
        m.chain@.remove_ensures(pos + 1);
        self.lemma_unlink_keymap(s, pred, curr, pos);
        assert(s.chain@.len() == n - 1);
        assert forall|p: int| 0 <= p <= pos implies s.chain@[p] == m.chain@[p] by {}
        assert forall|p: int| pos + 1 <= p < n - 1 implies s.chain@[p] == m.chain@[p + 1] by {}
        assert(s.chain@[0] == 0);
        assert(s.chain@[s.chain@.len() - 1] == 1) by {
            if pos + 1 <= n - 2 {
                assert(s.chain@[n - 2] == m.chain@[n - 1]);
            }
        }
        // The unlinked node is on no spine position any more.
        assert forall|p: int| 0 <= p < s.chain@.len() implies s.chain@[p] != curr as int by {
            if p <= pos {
                m.lemma_spine_distinct(p, pos + 1);
            } else {
                m.lemma_spine_distinct(p + 1, pos + 1);
            }
        }
        assert(!s.chain@.contains(curr as int));
        // Spine bounds.
        assert forall|p: int|
            0 <= p < s.chain@.len() implies 0 <= #[trigger] s.chain@[p] < s.nodes@.len() by {
            if p <= pos {
                assert(0 <= m.chain@[p] < m.nodes@.len());
            } else {
                assert(0 <= m.chain@[p + 1] < m.nodes@.len());
            }
        }
        // Links still follow the spine.
        assert forall|p: int|
            0 <= p < s.chain@.len() - 1 implies s.nodes@[#[trigger] s.chain@[p]].next
                == s.chain@[p + 1] by {
            if p < pos {
                m.lemma_spine_distinct(p, pos);
                m.lemma_spine_distinct(p, pos + 1);
                assert(m.nodes@[m.chain@[p]].next == m.chain@[p + 1]);
            } else if p == pos {
                assert(s.chain@[p] == pred as int);
                assert(m.nodes@[m.chain@[pos + 1]].next == m.chain@[pos + 2]);
                assert(s.chain@[p + 1] == m.chain@[pos + 2]);
            } else {
                m.lemma_spine_distinct(p + 1, pos);
                m.lemma_spine_distinct(p + 1, pos + 1);
                assert(m.nodes@[m.chain@[p + 1]].next == m.chain@[p + 2]);
                assert(s.chain@[p + 1] == m.chain@[p + 2]);
            }
        }
        // Keys still strictly increase.
        assert forall|p: int, q: int|
            0 <= p < q < s.chain@.len() implies #[trigger] s.key_at(p) < #[trigger] s.key_at(
                q,
            ) by {
            if q <= pos {
                assert(m.key_at(p) < m.key_at(q));
            } else if p <= pos {
                assert(m.key_at(p) < m.key_at(q + 1));
            } else {
                assert(m.key_at(p + 1) < m.key_at(q + 1));
            }
        }
        // A node is freed exactly when it is off the new spine.
        assert forall|j: int|
            0 <= j < s.nodes@.len() implies (!(#[trigger] s.nodes@[j].freed) <==> s.chain@.contains(
                j,
            )) by {
            if j == curr as int {
            } else {
                if !s.nodes@[j].freed {
                    assert(!m.nodes@[j].freed);
                    assert(m.chain@.contains(j));
                    let p = choose|p: int| 0 <= p < m.chain@.len() && m.chain@[p] == j;
                    if p == pos + 1 {
                        assert(j == curr as int);
                    } else if p <= pos {
                        assert(s.chain@[p] == j);
                    } else {
                        assert(s.chain@[p - 1] == j);
                    }
                    assert(s.chain@.contains(j));
                }
                if s.chain@.contains(j) {
                    let p = choose|p: int| 0 <= p < s.chain@.len() && s.chain@[p] == j;
                    if p <= pos {
                        assert(m.chain@[p] == j);
                    } else {
                        assert(m.chain@[p + 1] == j);
                    }
                    assert(m.chain@.contains(j));
                    assert(!m.nodes@[j].freed);
                    assert(!s.nodes@[j].freed);
                }
            }
        }
        assert(s.wf());
        // All locks are released.
        assert forall|j: int| 0 <= j < s.nodes@.len() implies !(#[trigger] s.nodes@[j].locked) by {
            if j != pred as int && j != curr as int {
                assert(m.nodes@[j].locked <==> (j == pred as int || j == curr as int));
            }
        }
        // Nodes freed before the unlink sit off the old spine and are
        // untouched.
        assert forall|j: int|
            0 <= j < m.nodes@.len() && (#[trigger] m.nodes@[j]).freed implies s.nodes@.len() > j
                && s.nodes@[j] == m.nodes@[j] by {
            assert(m.chain@.contains(pred as int)) by {
                assert(m.chain@[pos] == pred as int);
            }
            assert(m.chain@.contains(curr as int)) by {
                assert(m.chain@[pos + 1] == curr as int);
            }
            assert(!m.nodes@[pred as int].freed);
            assert(!m.nodes@[curr as int].freed);
        }
    }

    /// After an unlink the keys present are the old ones less the unlinked
    /// node's key.
    #[verifier::rlimit(100)]
    proof fn lemma_unlink_has_key(self, s: List, pred: usize, curr: usize, pos: int)
        requires
            self.unlink_pre(pred, curr, pos),
            self.unlinked(s, pred, curr, pos),
        ensures
            forall|k2: i64| #[trigger] s.has_key(k2) <==> (self.has_key(k2) && k2 != self.key_at(
                pos + 1,
            )),
    {
        let m = self;
        let n = m.chain@.len() as int;
        let key = m.key_at(pos + 1);
        self.lemma_unlink_keymap(s, pred, curr, pos);
        assert forall|k2: i64| #[trigger] s.has_key(k2) <==> (m.has_key(k2) && k2 != key) by {
            if s.has_key(k2) {
                let ps = s.key_pos(k2);
                assert(1 <= ps < s.chain@.len() - 1 && s.key_at(ps) == k2);
                if ps <= pos {
                    assert(m.key_at(ps) == k2);
                    if k2 == key {
                        m.lemma_key_pos_unique(ps, pos + 1);
                    }
                } else {
                    assert(m.key_at(ps + 1) == k2);
                    if k2 == key {
                        m.lemma_key_pos_unique(ps + 1, pos + 1);
                    }
                }
            }
            if m.has_key(k2) && k2 != key {
                let pm = m.key_pos(k2);
                assert(1 <= pm < n - 1 && m.key_at(pm) == k2);
                if pm == pos + 1 {
                    assert(k2 == key);
                } else if pm <= pos {
                    assert(s.key_at(pm) == k2);
                } else {
                    assert(s.key_at(pm - 1) == k2);
                }
                assert(s.has_key(k2));
            }
        }
    }

    /// After an unlink every surviving key keeps its value.
    #[verifier::rlimit(100)]
    proof fn lemma_unlink_values(self, s: List, pred: usize, curr: usize, pos: int)
        requires
            self.unlink_pre(pred, curr, pos),
            self.unlinked(s, pred, curr, pos),
            s.wf(),
        ensures
            forall|k2: i64|
                self.has_key(k2) && k2 != self.key_at(pos + 1) ==> #[trigger] s.value_of(k2)
                    == self.value_of(k2),
    {
        let m = self;
        let n = m.chain@.len() as int;
        let key = m.key_at(pos + 1);
        self.lemma_unlink_keymap(s, pred, curr, pos);
        m.chain@.remove_ensures(pos + 1);
        assert forall|k2: i64|
            m.has_key(k2) && k2 != key implies #[trigger] s.value_of(k2) == m.value_of(k2) by {
            let pm = m.key_pos(k2);
            assert(1 <= pm < n - 1 && m.key_at(pm) == k2);
            if pm == pos + 1 {
                assert(k2 == key);
            }
            if pm <= pos {
                assert(s.key_at(pm) == k2);
            } else {
                assert(s.key_at(pm - 1) == k2);
            }
            assert(s.has_key(k2));
            let ps = s.key_pos(k2);
            assert(1 <= ps < s.chain@.len() - 1 && s.key_at(ps) == k2);
            if ps <= pos {
                assert(m.key_at(ps) == k2);
                m.lemma_key_pos_unique(pm, ps);
                assert(s.chain@[ps] == m.chain@[ps]);
                m.lemma_spine_distinct(ps, pos + 1);
            } else {
                assert(m.key_at(ps + 1) == k2);
                m.lemma_key_pos_unique(pm, ps + 1);
                assert(s.chain@[ps] == m.chain@[ps + 1]);
                m.lemma_spine_distinct(ps + 1, pos + 1);
            }
        }
    }

    /// After an unlink the abstract map has lost exactly the unlinked
    /// node's key.
    #[verifier::rlimit(100)]
    proof fn lemma_unlink_view(self, s: List, pred: usize, curr: usize, pos: int)
        requires
            self.unlink_pre(pred, curr, pos),
            self.unlinked(s, pred, curr, pos),
            s.wf(),
        ensures
            s@ == self@.remove(self.key_at(pos + 1)),
    {
        self.lemma_unlink_has_key(s, pred, curr, pos);
        self.lemma_unlink_values(s, pred, curr, pos);
        assert(s@ =~= self@.remove(self.key_at(pos + 1)));
    }

    /// Unlink the locked current node from in front of the locked
    /// predecessor and reclaim it: redirect the predecessor's link past it
    /// (the atomic unlink point — strictly before any lock is released),
    /// release the now-unreachable node's lock, release the predecessor's,
    /// and only then mark the node freed and clear its storage. No thread
    /// can reach the node any more: reaching it would require first holding
    /// the predecessor's lock, which this thread held across the unlink.
    fn unlink_reclaim(&mut self, pred: usize, curr: usize, Ghost(pos): Ghost<int>)
        requires
            old(self).unlink_pre(pred, curr, pos),
            old(self).locked_exactly(pred as int, curr as int),
        ensures
            final(self).wf(),
            final(self).quiescent(),
            old(self).frees_preserved(*final(self)),
            final(self)@ == old(self)@.remove(old(self).key_at(pos + 1)),
            final(self).node_count() == old(self).node_count(),
            final(self).node_freed(curr as int),
            !old(self).node_freed(curr as int),
            !final(self).spine().contains(curr as int),
    {
        proof {
            assert(0 <= old(self).chain@[pos] < old(self).nodes@.len());
            assert(0 <= old(self).chain@[pos + 1] < old(self).nodes@.len());
            assert(0 <= old(self).chain@[pos + 2] < old(self).nodes@.len());
            assert(old(self).chain@.contains(curr as int)) by {
                assert(old(self).chain@[pos + 1] == curr as int);
            }
            old(self).lemma_spine_distinct(pos, pos + 1);
        }
        // Read the successor under the current node's held lock.
        let succ = self.nodes[curr].next;
        // Atomic unlink point: the predecessor's lock is held, so its link
        // may move; the current node becomes unreachable from the head.
        let mut pn = self.nodes[pred];
        pn.next = succ;
        self.nodes.set(pred, pn);
        let ghost new_chain: Seq<int> = old(self).chain@.remove(pos + 1);
        self.chain = Ghost(new_chain);
        // Release the unreachable node's lock, then the predecessor's —
        // unlink first, release after, never the other way round.
        self.set_locked(curr, false);
        self.set_locked(pred, false);
        // Reclaim the unlinked node's storage.
        let mut cn = self.nodes[curr];
        cn.freed = true;
        cn.value = 0;
        self.nodes.set(curr, cn);
        proof {
            old(self).lemma_unlink_structure(*self, pred, curr, pos);
            old(self).lemma_unlink_view(*self, pred, curr, pos);
        }
    }

    /// Remove `key` from the set. One `find`; if the current node does not
    /// carry `key` the list is left unchanged and the result is `false`.
    /// Otherwise the current node is unlinked, both locks are released in
    /// unlink-then-release order, the node is reclaimed, and the result is
    /// `true`.
    pub fn remove(&mut self, key: i64) -> (r: bool)
        requires
            old(self).wf(),
            old(self).quiescent(),
            i64::MIN < key,
            key < i64::MAX,
        ensures
            final(self).wf(),
            final(self).quiescent(),
            old(self).frees_preserved(*final(self)),
            r == old(self)@.dom().contains(key),
            final(self)@ == old(self)@.remove(key),
            r ==> final(self).node_count() == old(self).node_count() && (exists|j: int|
                0 <= j < final(self).node_count() && #[trigger] final(self).node_freed(j) && !old(
                    self,
                ).node_freed(j)),
    {
        let found = self.find(key);
        let pred = found.pred;
        let curr = found.curr;
        let ghost pos = found.pos@;
        let ghost mid: List = *self;
        proof {
            assert(0 <= self.chain@[pos] < self.nodes@.len());
            assert(0 <= self.chain@[pos + 1] < self.nodes@.len());
            mid.lemma_bracket(key, pos);
            assert(mid@.dom().contains(key) == mid.has_key(key));
        }
        if self.nodes[curr].key != key {
            // Key absent: nothing to unlink.
            self.set_locked(curr, false);
            self.set_locked(pred, false);
            proof {
                assert(mid.same_structure(*self));
                old(self).lemma_same_structure_trans(mid, *self);
                old(self).lemma_same_structure_wf(*self);
                old(self).lemma_same_structure_view(*self);
                assert(old(self)@.remove(key) =~= old(self)@);
            }
            false
        } else {
            proof {
                // The current node carries `key`, which is below the tail
                // sentinel's key, so it is a non-sentinel.
                assert(mid.key_at(mid.chain@.len() - 1) == i64::MAX);
                if pos + 1 == mid.chain@.len() - 1 {
                    assert(mid.key_at(pos + 1) == i64::MAX);
                }
            }
            self.unlink_reclaim(pred, curr, Ghost(pos));
            proof {
                assert(mid@ == old(self)@);
                assert(mid.key_at(pos + 1) == key);
                assert forall|j: int|
                    0 <= j < old(self).nodes@.len() && (#[trigger] old(
                        self,
                    ).nodes@[j]).freed implies self.nodes@.len() > j && self.nodes@[j] == old(
                    self,
                ).nodes@[j] by {
                    assert(mid.nodes@[j] == old(self).nodes@[j]);
                    assert(mid.nodes@[j].freed);
                    assert(self.nodes@[j] == mid.nodes@[j]);
                }
                assert(!old(self).node_freed(curr as int)) by {
                    assert(mid.chain@.contains(curr as int)) by {
                        assert(mid.chain@[pos + 1] == curr as int);
                    }
                    assert(!mid.nodes@[curr as int].freed);
                    assert(mid.nodes@[curr as int].freed == old(self).nodes@[curr as int].freed);
                }
            }
            true
        }
    }

    /// After a splice the abstract map has gained exactly `key`, bound to
    /// `value`.
    #[verifier::rlimit(100)]
    proof fn lemma_splice_view(
        self,
        s: List,
        pred: usize,
        curr: usize,
        key: i64,
        value: u64,
        pos: int,
    )
        requires
            self.splice_pre(pred, curr, key, pos),
            self.spliced(s, pred, curr, key, value, pos),
            s.wf(),
            s.key_at(pos + 1) == key,
        ensures
            s@ == self@.insert(key, value),
    {
        self.lemma_splice_has_key(s, pred, curr, key, value, pos);
        self.lemma_splice_values(s, pred, curr, key, value, pos);
        assert(s@ =~= self@.insert(key, value));
    }
}

/// What one call of `insert` does to the abstract map, exactly as the
/// operation's contract states it: the first writer wins, a later writer of
/// the same key changes nothing.
pub open spec fn insert_outcome(s: Map<i64, u64>, key: i64, value: u64) -> (bool, Map<i64, u64>) {
    if s.dom().contains(key) {
        (false, s)
    } else {
        (true, s.insert(key, value))
    }
}

/// No duplicates under races: when two inserts of the same key run against
/// each other, the per-node locks serialize them at the bracketing edge, so
/// their effects are those of the two calls in sequence. Starting from a set
/// without the key, the first call returns `true`, the second `false`, the
/// second changes nothing, and the key is present once, with the first
/// writer's value. (That "once" is literal: `lemma_no_duplicate_keys` shows
/// a key occupies at most one reachable node.)
pub proof fn lemma_insert_race_one_winner(s0: Map<i64, u64>, key: i64, v1: u64, v2: u64)
    requires
        !s0.dom().contains(key),
    ensures
        ({
            let (r1, s1) = insert_outcome(s0, key, v1);
            let (r2, s2) = insert_outcome(s1, key, v2);
            &&& r1
            &&& !r2
            &&& s2 == s1
            &&& s2.dom().contains(key)
            &&& s2[key] == v1
        }),
{
}

/// Remove visibility: once a `remove(key)` has returned `true`, the abstract
/// map no longer carries the key, and every later operation on any other key
/// leaves it absent; only a later successful `insert(key, _)` — which is
/// then owed success — makes it present again.
pub proof fn lemma_remove_visibility(s0: Map<i64, u64>, key: i64, other: i64, value: u64)
    requires
        other != key,
    ensures
        !s0.remove(key).dom().contains(key),
        !(insert_outcome(s0.remove(key), other, value).1).dom().contains(key),
        !s0.remove(key).remove(other).dom().contains(key),
        insert_outcome(s0.remove(key), key, value).0,
        (insert_outcome(s0.remove(key), key, value).1).dom().contains(key),
{
}

} // verus!
