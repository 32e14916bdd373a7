//! The collection of nodes that wait to be merged: a binary heap.
//!
//! Every node gets a ticket when it arrives, and tickets only grow. The heap
//! is ordered by weight and, among equal weights, by ticket, so that of
//! several equally light nodes the one that arrived first leaves first.

use vstd::prelude::*;
use vstd::seq_lib::{to_multiset_build, to_multiset_insert, to_multiset_remove};
use crate::forest::{is_first_min, lemma_min_index, lemma_total_weight_push, lemma_total_weight_remove, min_index, total_weight};
use crate::tree::{Node, Tree};
use crate::weight::weight_max;

verus! {

/// A tree that has arrived, with its ticket.
struct Arrival {
    ticket: nat,
    tree: Tree,
}

/// Whether `a` leaves before `b`: it is lighter, or as light and earlier.
spec fn leaves_before(a: Arrival, b: Arrival) -> bool {
    a.tree.weight() < b.tree.weight() || (a.tree.weight() == b.tree.weight() && a.ticket
        < b.ticket)
}

/// The place above place `s` in the heap.
spec fn parent(s: int) -> int {
    (s - 1) / 2
}

/// Nothing in the heap leaves before what stands above it.
spec fn heap_ordered(q: Seq<Arrival>) -> bool {
    forall|s: int| 0 < s < q.len() ==> !leaves_before(#[trigger] q[s], q[parent(s)])
}

/// The heap is in order but for what stands at `hole`, which may have to
/// leave after what stands below it.
spec fn ordered_but(q: Seq<Arrival>, hole: int) -> bool {
    &&& forall|s: int|
        0 < s < q.len() && parent(s) != hole ==> !leaves_before(#[trigger] q[s], q[parent(s)])
    &&& forall|s: int|
        0 < hole && 0 < s < q.len() && parent(s) == hole ==> !leaves_before(
            #[trigger] q[s],
            q[parent(hole)],
        )
}

/// Tickets grow along the sequence.
spec fn tickets_grow(q: Seq<Arrival>) -> bool {
    forall|a: int, b: int| 0 <= a < b < q.len() ==> (#[trigger] q[a]).ticket < (#[trigger] q[b]).ticket
}

/// The trees of the arrivals.
spec fn trees_of(q: Seq<Arrival>) -> Seq<Tree> {
    q.map_values(|a: Arrival| a.tree)
}

/// A node in the heap, with its ticket.
struct Slot {
    node: Node,
    ticket: u128,
}

impl Slot {
    /// The slot as an arrival.
    spec fn arrival(&self) -> Arrival {
        Arrival { ticket: self.ticket as nat, tree: self.node@ }
    }

    /// The node in the slot is well formed.
    spec fn wf(&self) -> bool {
        self.node.wf()
    }

    /// Whether this slot's node leaves before the other's.
    fn before(&self, other: &Slot) -> (first: bool)
        requires
            self.wf(),
            other.wf(),
        ensures
            first == leaves_before(self.arrival(), other.arrival()),
    {
        self.node.weight.lt(&other.node.weight) || (!other.node.weight.lt(&self.node.weight)
            && self.ticket < other.ticket)
    }
}

/// The slots as arrivals.
spec fn arrivals_of(slots: Seq<Slot>) -> Seq<Arrival> {
    slots.map_values(|s: Slot| s.arrival())
}

/// Every slot holds a well-formed node.
spec fn slots_wf(slots: Seq<Slot>) -> bool {
    forall|i: int| 0 <= i < slots.len() ==> (#[trigger] slots[i]).wf()
}

/// What stands at the top of an ordered heap leaves before everything else
/// in it.
proof fn lemma_top_first(q: Seq<Arrival>, s: int)
    requires
        heap_ordered(q),
        0 <= s < q.len(),
    ensures
        !leaves_before(q[s], q[0]),
    decreases s,
{
    if s > 0 {
        lemma_top_first(q, parent(s));
    }
}

/// Putting `v` at place `i` takes out what stood there and puts in `v`.
proof fn lemma_update_bag(q: Seq<Arrival>, i: int, v: Arrival)
    requires
        0 <= i < q.len(),
    ensures
        q.update(i, v).to_multiset() == q.to_multiset().remove(q[i]).insert(v),
{
    assert(q.update(i, v) =~= q.remove(i).insert(i, v));
    to_multiset_remove(q, i);
    to_multiset_insert(q.remove(i), i, v);
}

/// Exchanging two places keeps what the sequence holds.
proof fn lemma_swap_bag(q: Seq<Arrival>, a: int, b: int)
    requires
        0 <= a < q.len(),
        0 <= b < q.len(),
    ensures
        q.update(a, q[b]).update(b, q[a]).to_multiset() == q.to_multiset(),
{
    let mid = q.update(a, q[b]);
    lemma_update_bag(q, a, q[b]);
    lemma_update_bag(mid, b, q[a]);
    q.to_multiset_ensures();
    assert(q.contains(q[a]));
    assert(q.contains(q[b]));
    assert(mid.update(b, q[a]).to_multiset() =~= q.to_multiset());
}

/// Exchanges the slots at two places. The spare slot is lent for the
/// exchange and comes back as it was.
fn swap_slots(slots: &mut Vec<Slot>, a: usize, b: usize, spare: &mut Slot)
    requires
        a < old(slots)@.len(),
        b < old(slots)@.len(),
        a != b,
    ensures
        final(slots)@ == old(slots)@.update(a as int, old(slots)@[b as int]).update(
            b as int,
            old(slots)@[a as int],
        ),
        *final(spare) == *old(spare),
{
    slots.set_and_swap(a, spare);
    slots.set_and_swap(b, spare);
    slots.set_and_swap(a, spare);
    assert(slots@ =~= old(slots)@.update(a as int, old(slots)@[b as int]).update(
        b as int,
        old(slots)@[a as int],
    ));
}

/// Lets the slot at the top sink to where the heap is in order again.
fn sift_down(slots: &mut Vec<Slot>, spare: &mut Slot)
    requires
        old(slots)@.len() > 0,
        slots_wf(old(slots)@),
        ordered_but(arrivals_of(old(slots)@), 0),
    ensures
        final(slots)@.len() == old(slots)@.len(),
        slots_wf(final(slots)@),
        heap_ordered(arrivals_of(final(slots)@)),
        arrivals_of(final(slots)@).to_multiset() == arrivals_of(old(slots)@).to_multiset(),
        *final(spare) == *old(spare),
{
    let len = slots.len();
    let mut pos: usize = 0;
    let mut sinking = true;
    while sinking
        invariant
            slots@.len() == len,
            pos < len,
            slots_wf(slots@),
            ordered_but(arrivals_of(slots@), pos as int),
            !sinking ==> heap_ordered(arrivals_of(slots@)),
            arrivals_of(slots@).to_multiset() == arrivals_of(old(slots)@).to_multiset(),
            *spare == *old(spare),
        decreases
                len - pos + (if sinking {
                    1int
                } else {
                    0int
                }),
    {
        let ghost q = arrivals_of(slots@);
        if pos >= len / 2 {
            sinking = false;
            assert forall|s: int| 0 < s < q.len() implies !leaves_before(
                #[trigger] q[s],
                q[parent(s)],
            ) by {
                assert(parent(s) != pos);
            }
        } else {
            let left = 2 * pos + 1;
            let right = left + 1;
            let child = if right < len && slots[right].before(&slots[left]) {
                right
            } else {
                left
            };
            assert(parent(left as int) == pos && parent(right as int) == pos);
            if slots[child].before(&slots[pos]) {
                let ghost before = slots@;
                swap_slots(slots, pos, child, spare);
                proof {
                    let p = arrivals_of(slots@);
                    assert(p =~= q.update(pos as int, q[child as int]).update(
                        child as int,
                        q[pos as int],
                    ));
                    lemma_swap_bag(q, pos as int, child as int);
                    assert forall|s: int| 0 < s < p.len() && parent(s) != child implies !leaves_before(
                        #[trigger] p[s],
                        p[parent(s)],
                    ) by {
                        if s == pos {
                            assert(!leaves_before(q[child as int], q[parent(pos as int)]));
                        } else if parent(s) == pos {
                            assert(s == left || s == right);
                        } else {
                            assert(!leaves_before(q[s], q[parent(s)]));
                        }
                    }
                    assert forall|s: int|
                        0 < s < p.len() && parent(s) == child implies !leaves_before(
                        #[trigger] p[s],
                        p[parent(child as int)],
                    ) by {
                        assert(!leaves_before(q[s], q[parent(s)]));
                    }
                }
                pos = child;
            } else {
                sinking = false;
                assert forall|s: int| 0 < s < q.len() implies !leaves_before(
                    #[trigger] q[s],
                    q[parent(s)],
                ) by {
                    if parent(s) == pos {
                        assert(s == left || s == right);
                    }
                }
            }
        }
    }
}

/// Finds the place of `moving` on the way from the top down to `pos`: where
/// it leaves before the slot that stands there, the two change places, and
/// the slot that stood there moves on.
fn settle(slots: &mut Vec<Slot>, pos: usize, moving: &mut Slot)
    requires
        pos < old(slots)@.len(),
        slots_wf(old(slots)@),
        old(moving).wf(),
        heap_ordered(arrivals_of(old(slots)@)),
    ensures
        final(slots)@.len() == old(slots)@.len(),
        slots_wf(final(slots)@),
        final(moving).wf(),
        heap_ordered(arrivals_of(final(slots)@)),
        !leaves_before(final(moving).arrival(), arrivals_of(final(slots)@)[pos as int]),
        arrivals_of(final(slots)@).to_multiset().insert(final(moving).arrival()) == arrivals_of(
            old(slots)@,
        ).to_multiset().insert(old(moving).arrival()),
    decreases pos,
{
    if pos > 0 {
        settle(slots, (pos - 1) / 2, moving);
    }
    let ghost q = arrivals_of(slots@);
    let ghost m = moving.arrival();
    if moving.before(&slots[pos]) {
        slots.set_and_swap(pos, moving);
        proof {
            let p = arrivals_of(slots@);
            assert(p =~= q.update(pos as int, m));
            lemma_update_bag(q, pos as int, m);
            q.to_multiset_ensures();
            assert(q.contains(q[pos as int]));
            assert(p.to_multiset().insert(q[pos as int]) =~= q.to_multiset().insert(m));
            assert forall|s: int| 0 < s < p.len() implies !leaves_before(
                #[trigger] p[s],
                p[parent(s)],
            ) by {
                assert(!leaves_before(q[s], q[parent(s)]));
            }
        }
    }
}

/// Nodes that wait to be merged, lightest first.
///
/// The view is the sequence of their trees in the order in which they
/// arrived. [`NodeQueue::pop`] hands out the lightest node, and of several
/// equally light ones the one that arrived first.
pub struct NodeQueue {
    slots: Vec<Slot>,
    next: u128,
    arrivals: Ghost<Seq<Arrival>>,
}

impl View for NodeQueue {
    type V = Seq<Tree>;

    closed spec fn view(&self) -> Seq<Tree> {
        trees_of(self.arrivals@)
    }
}

impl NodeQueue {
    /// The heap is in order and holds the arrivals, each with a well-formed
    /// node and a ticket that has been given out.
    pub closed spec fn heap_wf(&self) -> bool {
        &&& slots_wf(self.slots@)
        &&& heap_ordered(arrivals_of(self.slots@))
        &&& arrivals_of(self.slots@).to_multiset() == self.arrivals@.to_multiset()
        &&& tickets_grow(self.arrivals@)
        &&& forall|k: int| 0 <= k < self.arrivals@.len() ==> (#[trigger] self.arrivals@[k]).ticket < self.next
    }

    /// The queue is sound, and the weights of all its nodes together can be
    /// held in one weight.
    pub open spec fn wf(&self) -> bool {
        &&& self.heap_wf()
        &&& total_weight(self@) <= weight_max()
    }

    /// How many nodes have arrived since the queue was made, those that
    /// have left again included.
    pub closed spec fn arrived(&self) -> nat {
        self.next as nat
    }

    /// The empty queue.
    pub fn new() -> (queue: NodeQueue)
        ensures
            queue.wf(),
            queue@ == Seq::<Tree>::empty(),
            queue.arrived() == 0,
    {
        let queue = NodeQueue { slots: Vec::new(), next: 0, arrivals: Ghost(Seq::empty()) };
        assert(queue@ =~= Seq::<Tree>::empty());
        assert(arrivals_of(queue.slots@) =~= queue.arrivals@);
        queue
    }

    /// The number of nodes that wait.
    pub fn len(&self) -> (n: usize)
        requires
            self.wf(),
        ensures
            n == self@.len(),
    {
        proof {
            arrivals_of(self.slots@).to_multiset_ensures();
            self.arrivals@.to_multiset_ensures();
        }
        self.slots.len()
    }

    /// A node arrives.
    pub fn push(&mut self, node: Node)
        requires
            old(self).wf(),
            node.wf(),
            total_weight(old(self)@) + node@.weight() <= weight_max(),
            old(self).arrived() < u128::MAX,
        ensures
            final(self).wf(),
            final(self)@ == old(self)@.push(node@),
            final(self).arrived() == old(self).arrived() + 1,
    {
        let ghost tree = node@;
        let mut moving = Slot { node, ticket: self.next };
        let ghost arrival = moving.arrival();
        let len = self.slots.len();
        if len > 0 {
            settle(&mut self.slots, (len - 1) / 2, &mut moving);
        }
        let ghost q = arrivals_of(self.slots@);
        let ghost last = moving.arrival();
        self.slots.push(moving);
        self.next = self.next + 1;
        self.arrivals = Ghost(self.arrivals@.push(arrival));
        proof {
            let p = arrivals_of(self.slots@);
            assert(p =~= q.push(last));
            to_multiset_build(q, last);
            to_multiset_build(old(self).arrivals@, arrival);
            assert forall|s: int| 0 < s < p.len() implies !leaves_before(
                #[trigger] p[s],
                p[parent(s)],
            ) by {
                if s < q.len() {
                    assert(!leaves_before(q[s], q[parent(s)]));
                }
            }
            assert(self@ =~= old(self)@.push(tree));
            lemma_total_weight_push(old(self)@, tree);
        }
    }

    /// Where the queue is not empty, the node at the top of the heap is the
    /// one that leaves next; `k` is its place among the arrivals.
    proof fn lemma_top(&self) -> (k: int)
        requires
            self.heap_wf(),
            self@.len() > 0,
        ensures
            0 <= k < self.arrivals@.len(),
            self.arrivals@[k] == self.slots@[0].arrival(),
            k == min_index(self@),
            self@.len() == self.slots@.len(),
    {
        let q = arrivals_of(self.slots@);
        let all = self.arrivals@;
        q.to_multiset_ensures();
        all.to_multiset_ensures();
        assert(q.contains(q[0]));
        assert(q.to_multiset().count(q[0]) > 0);
        assert(all.to_multiset().count(q[0]) > 0);
        assert(all.contains(q[0]));
        let k = choose|k: int| 0 <= k < all.len() && all[k] == q[0];
        let trees = self@;
        assert forall|j: int| 0 <= j < trees.len() implies trees[k].weight()
            <= #[trigger] trees[j].weight() && (j < k ==> trees[k].weight() < trees[j].weight()) by {
            assert(all.contains(all[j]));
            assert(all.to_multiset().count(all[j]) > 0);
            assert(q.to_multiset().count(all[j]) > 0);
            assert(q.contains(all[j]));
            let s = choose|s: int| 0 <= s < q.len() && q[s] == all[j];
            lemma_top_first(q, s);
        }
        assert(is_first_min(trees, k));
        lemma_min_index(trees);
        k
    }

    /// The node that leaves next, if there is one. The queue keeps it.
    pub fn peek(&self) -> (first: Option<&Node>)
        requires
            self.wf(),
        ensures
            self@.len() == 0 <==> first.is_none(),
            first matches Some(node) ==> node.wf() && node@ == self@[min_index(self@)],
    {
        if self.len() == 0 {
            None
        } else {
            proof {
                let k = self.lemma_top();
            }
            Some(&self.slots[0].node)
        }
    }

    /// The node that leaves next leaves, if there is one.
    pub fn pop(&mut self) -> (first: Option<Node>)
        requires
            old(self).wf(),
        ensures
            final(self).wf(),
            final(self).arrived() == old(self).arrived(),
            old(self)@.len() == 0 <==> first.is_none(),
            first.is_none() ==> final(self)@ == old(self)@,
            first matches Some(node) ==> {
                &&& node.wf()
                &&& node@ == old(self)@[min_index(old(self)@)]
                &&& final(self)@ == old(self)@.remove(min_index(old(self)@))
            },
    {
        if self.len() == 0 {
            return None;
        }
        let ghost k = self.lemma_top();
        let ghost q = arrivals_of(self.slots@);
        let ghost all = self.arrivals@;
        let mut moving = self.slots.pop().unwrap();
        proof {
            assert(arrivals_of(self.slots@) =~= q.remove(q.len() - 1));
            to_multiset_remove(q, q.len() - 1);
        }
        if self.slots.len() > 0 {
            let ghost r = arrivals_of(self.slots@);
            self.slots.set_and_swap(0, &mut moving);
            proof {
                let p = arrivals_of(self.slots@);
                assert(p =~= r.update(0, q.last()));
                lemma_update_bag(r, 0, q.last());
                q.to_multiset_ensures();
                r.to_multiset_ensures();
                assert(q.contains(q.last()));
                assert(q.to_multiset().count(q.last()) > 0);
                assert(r.contains(r[0]));
                assert(r.to_multiset().count(q[0]) > 0);
                assert(q.to_multiset() =~= r.to_multiset().insert(q.last()));
                assert(p.to_multiset() =~= q.to_multiset().remove(q[0]));
                assert forall|s: int| 0 < s < p.len() && parent(s) != 0 implies !leaves_before(
                    #[trigger] p[s],
                    p[parent(s)],
                ) by {
                    assert(!leaves_before(q[s], q[parent(s)]));
                }
            }
            sift_down(&mut self.slots, &mut moving);
        }
        self.arrivals = Ghost(all.remove(k));
        proof {
            to_multiset_remove(all, k);
            assert(self@ =~= old(self)@.remove(k));
            lemma_total_weight_remove(old(self)@, k);
        }
        Some(moving.node)
    }
}

} // verus!
