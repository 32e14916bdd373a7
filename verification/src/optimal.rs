//! The Huffman tree costs least.
//!
//! The cost of a tree is the sum, over its leaves, of the leaf's weight
//! times its depth. Depths are first treated on their own: a sequence of
//! depths fills a tree where the depths, counted by Kraft's sum, add up to
//! exactly one.

use vstd::prelude::*;
use vstd::seq_lib::to_multiset_remove;
use vstd::arithmetic::power2::{lemma2_to64, lemma_pow2_pos, lemma_pow2_unfold, pow2};
use crate::forest::{huffman_tree, lemma_merge_step_len, lemma_min_index, merge_step, merged_pair, min_index, total_weight};
use crate::tree::Tree;

verus! {

/// The cost of hanging each tree of `q` at the depth that `d` gives it: the
/// sum of weight times depth.
pub open spec fn placed_cost(q: Seq<Tree>, d: Seq<nat>) -> nat
    recommends
        d.len() == q.len(),
    decreases q.len(),
{
    if q.len() == 0 {
        0
    } else {
        placed_cost(q.drop_last(), d.drop_last()) + q.last().weight() * d.last()
    }
}

/// No depth is greater than `scale`.
pub open spec fn within(d: Seq<nat>, scale: nat) -> bool {
    forall|i: int| 0 <= i < d.len() ==> #[trigger] d[i] <= scale
}

/// Kraft's sum of the depths, in units of `2^-scale`: each depth `n` counts
/// `2^(scale - n)`.
pub open spec fn kraft_sum(d: Seq<nat>, scale: nat) -> nat
    recommends
        within(d, scale),
    decreases d.len(),
{
    if d.len() == 0 {
        0
    } else {
        kraft_sum(d.drop_last(), scale) + pow2((scale - d.last()) as nat)
    }
}

/// The depths are those of the leaves of a strict binary tree: Kraft's sum
/// is exactly one, which is `2^scale` units.
pub open spec fn fills_tree(d: Seq<nat>, scale: nat) -> bool {
    within(d, scale) && kraft_sum(d, scale) == pow2(scale)
}

/// The depths leave room for one another: Kraft's sum is at most one. This
/// holds of the lengths of the codewords of every prefix-free table.
pub open spec fn fits_tree(d: Seq<nat>, scale: nat) -> bool {
    within(d, scale) && kraft_sum(d, scale) <= pow2(scale)
}

/// The cost that the Huffman merge adds to the trees of `q`: with every
/// merge, the weight of the merged pair.
pub open spec fn merge_cost(q: Seq<Tree>) -> nat
    decreases q.len(),
{
    if q.len() <= 1 {
        0
    } else {
        proof {
            lemma_merge_step_len(q);
        }
        merged_pair(q).weight() + merge_cost(merge_step(q))
    }
}

/// Taking a tree out takes its share of the cost out.
pub proof fn lemma_placed_cost_remove(q: Seq<Tree>, d: Seq<nat>, i: int)
    requires
        d.len() == q.len(),
        0 <= i < q.len(),
    ensures
        placed_cost(q, d) == placed_cost(q.remove(i), d.remove(i)) + q[i].weight() * d[i],
    decreases q.len(),
{
    if i == q.len() - 1 {
        assert(q.remove(i) =~= q.drop_last());
        assert(d.remove(i) =~= d.drop_last());
    } else {
        lemma_placed_cost_remove(q.drop_last(), d.drop_last(), i);
        assert(q.remove(i).drop_last() =~= q.drop_last().remove(i));
        assert(d.remove(i).drop_last() =~= d.drop_last().remove(i));
        assert(q.remove(i).last() == q.last());
        assert(d.remove(i).last() == d.last());
    }
}

/// Taking a depth out takes its share of Kraft's sum out.
pub proof fn lemma_kraft_sum_remove(d: Seq<nat>, scale: nat, i: int)
    requires
        0 <= i < d.len(),
    ensures
        kraft_sum(d, scale) == kraft_sum(d.remove(i), scale) + pow2((scale - d[i]) as nat),
    decreases d.len(),
{
    if i == d.len() - 1 {
        assert(d.remove(i) =~= d.drop_last());
    } else {
        lemma_kraft_sum_remove(d.drop_last(), scale, i);
        assert(d.remove(i).drop_last() =~= d.drop_last().remove(i));
        assert(d.remove(i).last() == d.last());
    }
}

/// Where every depth is less than the scale, Kraft's sum is even: it is
/// twice the sum at the next smaller scale.
pub proof fn lemma_kraft_sum_halves(d: Seq<nat>, scale: nat)
    requires
        scale >= 1,
        within(d, (scale - 1) as nat),
    ensures
        kraft_sum(d, scale) == 2 * kraft_sum(d, (scale - 1) as nat),
    decreases d.len(),
{
    if d.len() > 0 {
        let rest = d.drop_last();
        assert forall|i: int| 0 <= i < rest.len() implies #[trigger] rest[i] <= scale - 1 by {
            assert(rest[i] == d[i]);
        }
        lemma_kraft_sum_halves(rest, scale);
        lemma_pow2_unfold((scale - d.last()) as nat);
    }
}

/// Kraft's sum counts at least one unit for every depth.
pub proof fn lemma_kraft_sum_least(d: Seq<nat>, scale: nat)
    ensures
        kraft_sum(d, scale) >= d.len(),
    decreases d.len(),
{
    if d.len() > 0 {
        lemma_kraft_sum_least(d.drop_last(), scale);
        lemma_pow2_pos((scale - d.last()) as nat);
    }
}

/// The depths with those at places `a` and `x` exchanged.
pub open spec fn exchanged(d: Seq<nat>, a: int, x: int) -> Seq<nat> {
    d.update(a, d[x]).update(x, d[a])
}

/// Giving the lighter of two trees the greater of their two depths does not
/// raise the cost, and leaves Kraft's sum as it was.
pub proof fn lemma_exchange(q: Seq<Tree>, d: Seq<nat>, scale: nat, a: int, x: int)
    requires
        d.len() == q.len(),
        0 <= a < q.len(),
        0 <= x < q.len(),
        q[a].weight() <= q[x].weight(),
        d[a] <= d[x],
        within(d, scale),
    ensures
        placed_cost(q, exchanged(d, a, x)) <= placed_cost(q, d),
        kraft_sum(exchanged(d, a, x), scale) == kraft_sum(d, scale),
        within(exchanged(d, a, x), scale),
        exchanged(d, a, x).len() == d.len(),
        exchanged(d, a, x)[a] == d[x],
{
    let e = exchanged(d, a, x);
    if a == x {
        assert(e =~= d);
    } else {
        // Both sequences agree once the two places are taken out.
        let hi = if a < x { x } else { a };
        let lo = if a < x { a } else { x };
        let q1 = q.remove(hi);
        let d1 = d.remove(hi);
        let e1 = e.remove(hi);
        lemma_placed_cost_remove(q, d, hi);
        lemma_placed_cost_remove(q, e, hi);
        lemma_placed_cost_remove(q1, d1, lo);
        lemma_placed_cost_remove(q1, e1, lo);
        lemma_kraft_sum_remove(d, scale, hi);
        lemma_kraft_sum_remove(e, scale, hi);
        lemma_kraft_sum_remove(d1, scale, lo);
        lemma_kraft_sum_remove(e1, scale, lo);
        assert(d1.remove(lo) =~= e1.remove(lo));
        let wa = q[a].weight() as int;
        let wx = q[x].weight() as int;
        let da = d[a] as int;
        let dx = d[x] as int;
        assert(wa * dx + wx * da <= wa * da + wx * dx) by (nonlinear_arith)
            requires
                wa <= wx,
                da <= dx,
        ;
    }
}

/// The cost of two rows of trees, one behind the other, is the sum of
/// their costs.
pub proof fn lemma_placed_cost_concat(q1: Seq<Tree>, d1: Seq<nat>, q2: Seq<Tree>, d2: Seq<nat>)
    requires
        d1.len() == q1.len(),
        d2.len() == q2.len(),
    ensures
        placed_cost(q1 + q2, d1 + d2) == placed_cost(q1, d1) + placed_cost(q2, d2),
    decreases q2.len(),
{
    if q2.len() == 0 {
        assert(q1 + q2 =~= q1);
        assert(d1 + d2 =~= d1);
    } else {
        lemma_placed_cost_concat(q1, d1, q2.drop_last(), d2.drop_last());
        assert((q1 + q2).drop_last() =~= q1 + q2.drop_last());
        assert((d1 + d2).drop_last() =~= d1 + d2.drop_last());
    }
}

/// One step deeper, every tree costs its weight more.
pub proof fn lemma_placed_cost_deeper(q: Seq<Tree>, d: Seq<nat>)
    requires
        d.len() == q.len(),
    ensures
        placed_cost(q, d.map_values(|n: nat| n + 1)) == placed_cost(q, d) + total_weight(q),
    decreases q.len(),
{
    let deeper = d.map_values(|n: nat| n + 1);
    if q.len() > 0 {
        lemma_placed_cost_deeper(q.drop_last(), d.drop_last());
        assert(deeper.drop_last() =~= d.drop_last().map_values(|n: nat| n + 1));
        let w = q.last().weight() as int;
        let n = d.last() as int;
        assert(w * (n + 1) == w * n + w) by (nonlinear_arith);
    }
}

/// Kraft's sum of two rows of depths, one behind the other, is the sum of
/// their sums.
pub proof fn lemma_kraft_sum_concat(d1: Seq<nat>, d2: Seq<nat>, scale: nat)
    ensures
        kraft_sum(d1 + d2, scale) == kraft_sum(d1, scale) + kraft_sum(d2, scale),
    decreases d2.len(),
{
    if d2.len() == 0 {
        assert(d1 + d2 =~= d1);
    } else {
        lemma_kraft_sum_concat(d1, d2.drop_last(), scale);
        assert((d1 + d2).drop_last() =~= d1 + d2.drop_last());
    }
}

/// One step deeper and at the next greater scale, Kraft's sum is the same.
pub proof fn lemma_kraft_sum_deeper(d: Seq<nat>, scale: nat)
    ensures
        kraft_sum(d.map_values(|n: nat| n + 1), scale + 1) == kraft_sum(d, scale),
    decreases d.len(),
{
    let deeper = d.map_values(|n: nat| n + 1);
    if d.len() > 0 {
        lemma_kraft_sum_deeper(d.drop_last(), scale);
        assert(deeper.drop_last() =~= d.drop_last().map_values(|n: nat| n + 1));
    }
}

/// A tree has as many depths as leaves, and at least one.
pub proof fn lemma_leaves_len(t: Tree)
    ensures
        t.leaves().len() == t.depths().len(),
        t.leaves().len() >= 1,
    decreases t,
{
    match t {
        Tree::Leaf { .. } => {},
        Tree::Internal { left, right } => {
            lemma_leaves_len(*left);
            lemma_leaves_len(*right);
        },
    }
}

/// The leaves of a tree weigh what the tree weighs.
pub proof fn lemma_leaves_weight(t: Tree)
    ensures
        total_weight(t.leaves()) == t.weight(),
    decreases t,
{
    match t {
        Tree::Leaf { .. } => {
            assert(t.leaves().drop_last() =~= Seq::<Tree>::empty());
            assert(total_weight(t.leaves().drop_last()) == 0);
        },
        Tree::Internal { left, right } => {
            lemma_leaves_weight(*left);
            lemma_leaves_weight(*right);
            lemma_total_weight_concat(left.leaves(), right.leaves());
        },
    }
}

/// Two rows of trees, one behind the other, weigh the sum of their weights.
pub proof fn lemma_total_weight_concat(q1: Seq<Tree>, q2: Seq<Tree>)
    ensures
        total_weight(q1 + q2) == total_weight(q1) + total_weight(q2),
    decreases q2.len(),
{
    if q2.len() == 0 {
        assert(q1 + q2 =~= q1);
    } else {
        lemma_total_weight_concat(q1, q2.drop_last());
        assert((q1 + q2).drop_last() =~= q1 + q2.drop_last());
    }
}

/// The cost of a tree is the cost of hanging its leaves at their depths.
pub proof fn lemma_cost_of_leaves(t: Tree)
    ensures
        placed_cost(t.leaves(), t.depths()) == t.cost(),
    decreases t,
{
    match t {
        Tree::Leaf { .. } => {
            assert(t.leaves().drop_last() =~= Seq::<Tree>::empty());
            assert(placed_cost(t.leaves().drop_last(), t.depths().drop_last()) == 0);
            assert(t.depths().last() == 0);
            assert(t.leaves().last().weight() * t.depths().last() == 0);
        },
        Tree::Internal { left, right } => {
            lemma_cost_of_leaves(*left);
            lemma_cost_of_leaves(*right);
            lemma_leaves_len(*left);
            lemma_leaves_len(*right);
            lemma_leaves_weight(*left);
            lemma_leaves_weight(*right);
            lemma_placed_cost_concat(left.leaves(), left.depths(), right.leaves(), right.depths());
            lemma_placed_cost_deeper(t.leaves(), left.depths() + right.depths());
            lemma_total_weight_concat(left.leaves(), right.leaves());
        },
    }
}

/// The depths of the leaves of a tree fill a tree, at every scale from the
/// tree's height on.
pub proof fn lemma_depths_fill_tree(t: Tree, scale: nat)
    requires
        scale >= t.height(),
    ensures
        fills_tree(t.depths(), scale),
    decreases t,
{
    match t {
        Tree::Leaf { .. } => {
            assert(t.depths().drop_last() =~= Seq::<nat>::empty());
            assert(kraft_sum(t.depths().drop_last(), scale) == 0);
        },
        Tree::Internal { left, right } => {
            let up = (scale - 1) as nat;
            lemma_depths_fill_tree(*left, up);
            lemma_depths_fill_tree(*right, up);
            let both = left.depths() + right.depths();
            lemma_kraft_sum_concat(left.depths(), right.depths(), up);
            lemma_kraft_sum_deeper(both, up);
            lemma_pow2_unfold(scale);
            assert forall|i: int| 0 <= i < t.depths().len() implies #[trigger] t.depths()[i]
                <= scale by {
                if i < left.depths().len() {
                    assert(both[i] == left.depths()[i]);
                } else {
                    assert(both[i] == right.depths()[i - left.depths().len()]);
                }
            }
        },
    }
}

/// Some depth is the scale itself.
pub open spec fn reaches(d: Seq<nat>, scale: nat) -> bool {
    exists|x: int| 0 <= x < d.len() && #[trigger] d[x] == scale
}

/// At whatever depths the trees of `q` are hung, if only the depths leave
/// room for one another, the cost is at least what the Huffman merge adds.
pub proof fn lemma_merge_cost_least(q: Seq<Tree>, d: Seq<nat>, scale: nat)
    requires
        q.len() >= 1,
        d.len() == q.len(),
        fits_tree(d, scale),
    ensures
        merge_cost(q) <= placed_cost(q, d),
    decreases q.len(), scale,
{
    if q.len() == 1 {
    } else if !reaches(d, scale) {
        assert(d[0] <= scale);
        assert forall|i: int| 0 <= i < d.len() implies #[trigger] d[i] <= scale - 1 by {
            assert(d[i] <= scale);
        }
        lemma_kraft_sum_halves(d, scale);
        lemma_pow2_unfold(scale);
        lemma_merge_cost_least(q, d, (scale - 1) as nat);
    } else {
        let x = choose|x: int| 0 <= x < d.len() && #[trigger] d[x] == scale;
        lemma_kraft_sum_least(d, scale);
        lemma2_to64();
        assert(scale >= 1);
        lemma_pow2_unfold(scale);
        // The first tree to leave goes to the greatest depth.
        let i = min_index(q);
        lemma_min_index(q);
        assert(q[i].weight() <= q[x].weight());
        assert(d[i] <= scale);
        lemma_exchange(q, d, scale, i, x);
        let d1 = exchanged(d, i, x);
        let rest = q.remove(i);
        let e = d1.remove(i);
        lemma_placed_cost_remove(q, d1, i);
        lemma_kraft_sum_remove(d1, scale, i);
        assert forall|k: int| 0 <= k < e.len() implies #[trigger] e[k] <= scale by {
            if k < i {
                assert(e[k] == d1[k]);
            } else {
                assert(e[k] == d1[k + 1]);
            }
        }
        if !reaches(e, scale) {
            // Nothing else is as deep: the first tree can stand one step
            // higher.
            let up = (scale - 1) as nat;
            let d2 = d1.update(i, up);
            assert(d2.remove(i) =~= e);
            lemma_placed_cost_remove(q, d2, i);
            lemma_kraft_sum_remove(d2, up, i);
            assert forall|k: int| 0 <= k < e.len() implies #[trigger] e[k] <= up by {
                assert(e[k] <= scale);
            }
            lemma_kraft_sum_halves(e, scale);
            assert forall|k: int| 0 <= k < d2.len() implies #[trigger] d2[k] <= up by {
                if k < i {
                    assert(d2[k] == e[k]);
                } else if k > i {
                    assert(d2[k] == e[k - 1]);
                }
            }
            lemma_merge_cost_least(q, d2, up);
            let wi = q[i].weight() as int;
            let m = scale as int;
            assert(wi * (m - 1) <= wi * m) by (nonlinear_arith)
                requires
                    wi >= 0,
            ;
        } else {
            // So does the second.
            let z = choose|z: int| 0 <= z < e.len() && #[trigger] e[z] == scale;
            let j = min_index(rest);
            lemma_min_index(rest);
            assert(rest[j].weight() <= rest[z].weight());
            assert(e[j] <= scale);
            lemma_exchange(rest, e, scale, j, z);
            let e1 = exchanged(e, j, z);
            let rest2 = rest.remove(j);
            let f = e1.remove(j);
            lemma_placed_cost_remove(rest, e1, j);
            lemma_kraft_sum_remove(e1, scale, j);
            // Merged, the two stand one step higher.
            let c = merged_pair(q);
            let up = (scale - 1) as nat;
            let q2 = merge_step(q);
            let d2 = f.push(up);
            assert(q2 == rest2.push(c));
            assert(q2.drop_last() =~= rest2);
            assert(d2.drop_last() =~= f);
            assert forall|k: int| 0 <= k < d2.len() implies #[trigger] d2[k] <= scale by {
                if k < f.len() {
                    if k < j {
                        assert(f[k] == e1[k]);
                    } else {
                        assert(f[k] == e1[k + 1]);
                    }
                }
            }
            lemma_merge_step_len(q);
            lemma_merge_cost_least(q2, d2, scale);
            let wi = q[i].weight() as int;
            let wj = rest[j].weight() as int;
            let m = scale as int;
            assert((wi + wj) * (m - 1) + (wi + wj) == wi * m + wj * m) by (nonlinear_arith);
            assert(c.weight() == wi + wj);
        }
    }
}

/// The sum of the costs of the trees.
pub open spec fn forest_cost(q: Seq<Tree>) -> nat
    decreases q.len(),
{
    if q.len() == 0 {
        0
    } else {
        forest_cost(q.drop_last()) + q.last().cost()
    }
}

/// Taking a tree out takes its cost out.
pub proof fn lemma_forest_cost_remove(q: Seq<Tree>, i: int)
    requires
        0 <= i < q.len(),
    ensures
        forest_cost(q) == forest_cost(q.remove(i)) + q[i].cost(),
    decreases q.len(),
{
    if i == q.len() - 1 {
        assert(q.remove(i) =~= q.drop_last());
    } else {
        lemma_forest_cost_remove(q.drop_last(), i);
        assert(q.remove(i).drop_last() =~= q.drop_last().remove(i));
        assert(q.remove(i).last() == q.last());
    }
}

/// Leaves cost nothing.
pub proof fn lemma_forest_cost_of_leaves(q: Seq<Tree>)
    requires
        forall|i: int| 0 <= i < q.len() ==> (#[trigger] q[i]) is Leaf,
    ensures
        forest_cost(q) == 0,
    decreases q.len(),
{
    if q.len() > 0 {
        assert(q.last() is Leaf);
        assert forall|i: int| 0 <= i < q.drop_last().len() implies (#[trigger] q.drop_last()[i]) is Leaf by {
            assert(q[i] is Leaf);
        }
        lemma_forest_cost_of_leaves(q.drop_last());
    }
}

/// The Huffman tree costs what its trees cost and what the merges add.
pub proof fn lemma_huffman_tree_cost(q: Seq<Tree>)
    requires
        q.len() >= 1,
    ensures
        huffman_tree(q).cost() == merge_cost(q) + forest_cost(q),
    decreases q.len(),
{
    if q.len() == 1 {
        assert(forest_cost(q.drop_last()) == 0);
    } else {
        let i = min_index(q);
        let rest = q.remove(i);
        let j = min_index(rest);
        lemma_min_index(q);
        lemma_min_index(rest);
        lemma_forest_cost_remove(q, i);
        lemma_forest_cost_remove(rest, j);
        assert(merge_step(q).drop_last() =~= rest.remove(j));
        lemma_merge_step_len(q);
        lemma_huffman_tree_cost(merge_step(q));
    }
}

/// Depths for the trees of `q`, taken from a row `lt` that holds the same
/// trees in another order, with its depths `dt`: every tree keeps a depth
/// that it had there, so that cost and Kraft's sum stay what they were.
pub proof fn lemma_depths_in_order(q: Seq<Tree>, lt: Seq<Tree>, dt: Seq<nat>, scale: nat) -> (d: Seq<nat>)
    requires
        lt.len() == dt.len(),
        lt.to_multiset() == q.to_multiset(),
        within(dt, scale),
    ensures
        d.len() == q.len(),
        within(d, scale),
        placed_cost(q, d) == placed_cost(lt, dt),
        kraft_sum(d, scale) == kraft_sum(dt, scale),
    decreases q.len(),
{
    q.to_multiset_ensures();
    lt.to_multiset_ensures();
    if q.len() == 0 {
        assert(lt.len() == 0);
        Seq::empty()
    } else {
        let last = q.last();
        assert(q.contains(last));
        assert(q.to_multiset().count(last) > 0);
        assert(lt.to_multiset().count(last) > 0);
        assert(lt.contains(last));
        let p = choose|p: int| 0 <= p < lt.len() && lt[p] == last;
        assert(q.drop_last() =~= q.remove(q.len() - 1));
        to_multiset_remove(q, q.len() - 1);
        to_multiset_remove(lt, p);
        assert forall|k: int| 0 <= k < dt.remove(p).len() implies #[trigger] dt.remove(p)[k]
            <= scale by {
            if k < p {
                assert(dt.remove(p)[k] == dt[k]);
            } else {
                assert(dt.remove(p)[k] == dt[k + 1]);
            }
        }
        let front = lemma_depths_in_order(q.drop_last(), lt.remove(p), dt.remove(p), scale);
        let d = front.push(dt[p]);
        assert(d.drop_last() =~= front);
        lemma_placed_cost_remove(lt, dt, p);
        lemma_kraft_sum_remove(dt, scale, p);
        d
    }
}

/// No tree with the same leaves costs less than the Huffman tree.
///
/// `q` holds leaves only, and `other` is any tree whose leaves are those of
/// `q`, each as often as it stands in `q`.
pub proof fn lemma_huffman_tree_costs_least(q: Seq<Tree>, other: Tree)
    requires
        q.len() >= 1,
        forall|i: int| 0 <= i < q.len() ==> (#[trigger] q[i]) is Leaf,
        other.leaves().to_multiset() == q.to_multiset(),
    ensures
        huffman_tree(q).cost() <= other.cost(),
{
    let scale = other.height();
    lemma_huffman_tree_cost(q);
    lemma_forest_cost_of_leaves(q);
    lemma_leaves_len(other);
    lemma_cost_of_leaves(other);
    lemma_depths_fill_tree(other, scale);
    let d = lemma_depths_in_order(q, other.leaves(), other.depths(), scale);
    lemma_merge_cost_least(q, d, scale);
}

} // verus!
