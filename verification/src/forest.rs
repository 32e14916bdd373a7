//! The Huffman merge, stated on sequences of trees.
//!
//! The trees that wait to be merged are held in the order in which they
//! arrived. The next tree to leave is the lightest one, and among equally
//! light trees the one that arrived first. A merged tree arrives last.

use vstd::prelude::*;
use vstd::multiset::Multiset;
use vstd::seq_lib::lemma_multiset_commutative;
use crate::tree::Tree;

verus! {

/// The sum of the weights of the trees.
pub open spec fn total_weight(q: Seq<Tree>) -> nat
    decreases q.len(),
{
    if q.len() == 0 {
        0
    } else {
        total_weight(q.drop_last()) + q.last().weight()
    }
}

/// Whether `i` is the place of the tree that leaves `q` next: none in `q` is
/// lighter, and every tree before it is heavier.
pub open spec fn is_first_min(q: Seq<Tree>, i: int) -> bool {
    &&& 0 <= i < q.len()
    &&& forall|j: int| 0 <= j < q.len() ==> q[i].weight() <= #[trigger] q[j].weight()
    &&& forall|j: int| 0 <= j < i ==> q[i].weight() < #[trigger] q[j].weight()
}

/// The place of the tree that leaves `q` next.
pub open spec fn min_index(q: Seq<Tree>) -> int
    decreases q.len(),
{
    if q.len() <= 1 {
        0
    } else {
        let m = min_index(q.drop_last());
        if q.last().weight() < q[m].weight() {
            q.len() - 1
        } else {
            m
        }
    }
}

/// [`min_index`] is the one place that [`is_first_min`] describes.
pub proof fn lemma_min_index(q: Seq<Tree>)
    requires
        q.len() > 0,
    ensures
        is_first_min(q, min_index(q)),
        forall|i: int| is_first_min(q, i) ==> i == min_index(q),
    decreases q.len(),
{
    if q.len() > 1 {
        let p = q.drop_last();
        lemma_min_index(p);
        let m = min_index(p);
        assert(forall|j: int| 0 <= j < p.len() ==> p[j] == q[j]);
        assert(is_first_min(q, min_index(q)));
    }
    let m = min_index(q);
    assert forall|i: int| is_first_min(q, i) implies i == m by {
        if i < m {
            assert(q[m].weight() < q[i].weight());
            assert(q[i].weight() <= q[m].weight());
        } else if m < i {
            assert(q[i].weight() < q[m].weight());
            assert(q[m].weight() <= q[i].weight());
        }
    }
}

/// The two trees that leave `q` next, merged: the first to leave to the
/// left, the second to the right.
pub open spec fn merged_pair(q: Seq<Tree>) -> Tree
    recommends
        q.len() >= 2,
{
    let i = min_index(q);
    let rest = q.remove(i);
    Tree::Internal { left: Box::new(q[i]), right: Box::new(rest[min_index(rest)]) }
}

/// One merge: the two trees that leave `q` next are taken out, and their
/// merge arrives.
pub open spec fn merge_step(q: Seq<Tree>) -> Seq<Tree>
    recommends
        q.len() >= 2,
{
    let rest = q.remove(min_index(q));
    rest.remove(min_index(rest)).push(merged_pair(q))
}

/// The tree that is left when the trees of `q` have been merged, two at a
/// time, until one remains.
pub open spec fn huffman_tree(q: Seq<Tree>) -> Tree
    recommends
        q.len() >= 1,
    decreases q.len(),
{
    if q.len() <= 1 {
        q[0]
    } else {
        proof {
            lemma_merge_step_len(q);
        }
        huffman_tree(merge_step(q))
    }
}

/// A merge leaves one tree fewer.
pub proof fn lemma_merge_step_len(q: Seq<Tree>)
    requires
        q.len() >= 2,
    ensures
        merge_step(q).len() == q.len() - 1,
{
    lemma_min_index(q);
    lemma_min_index(q.remove(min_index(q)));
}

/// Taking a tree out takes its weight out.
pub proof fn lemma_total_weight_remove(q: Seq<Tree>, i: int)
    requires
        0 <= i < q.len(),
    ensures
        total_weight(q) == total_weight(q.remove(i)) + q[i].weight(),
    decreases q.len(),
{
    if i == q.len() - 1 {
        assert(q.remove(i) =~= q.drop_last());
    } else {
        lemma_total_weight_remove(q.drop_last(), i);
        assert(q.remove(i).drop_last() =~= q.drop_last().remove(i));
        assert(q.remove(i).last() == q.last());
    }
}

/// A tree that arrives adds its weight.
pub proof fn lemma_total_weight_push(q: Seq<Tree>, t: Tree)
    ensures
        total_weight(q.push(t)) == total_weight(q) + t.weight(),
{
    assert(q.push(t).drop_last() =~= q);
}

/// A merge keeps the total weight.
pub proof fn lemma_merge_step_weight(q: Seq<Tree>)
    requires
        q.len() >= 2,
    ensures
        total_weight(merge_step(q)) == total_weight(q),
{
    let i = min_index(q);
    let rest = q.remove(i);
    let j = min_index(rest);
    lemma_min_index(q);
    lemma_min_index(rest);
    lemma_total_weight_remove(q, i);
    lemma_total_weight_remove(rest, j);
    lemma_total_weight_push(rest.remove(j), merged_pair(q));
}

/// Whether some tree of `q` has a leaf with the name.
pub open spec fn forest_has_leaf(q: Seq<Tree>, name: Seq<char>) -> bool {
    exists|i: int| 0 <= i < q.len() && (#[trigger] q[i]).has_leaf(name)
}

/// The names in `q` are those of one of its trees and those of the others.
pub proof fn lemma_forest_names_remove(q: Seq<Tree>, i: int, name: Seq<char>)
    requires
        0 <= i < q.len(),
    ensures
        forest_has_leaf(q, name) <==> q[i].has_leaf(name) || forest_has_leaf(q.remove(i), name),
{
    let rest = q.remove(i);
    if forest_has_leaf(q, name) && !q[i].has_leaf(name) {
        let k = choose|k: int| 0 <= k < q.len() && (#[trigger] q[k]).has_leaf(name);
        if k < i {
            assert(rest[k].has_leaf(name));
        } else {
            assert(rest[k - 1].has_leaf(name));
        }
    }
    if forest_has_leaf(rest, name) {
        let k = choose|k: int| 0 <= k < rest.len() && (#[trigger] rest[k]).has_leaf(name);
        if k < i {
            assert(q[k].has_leaf(name));
        } else {
            assert(q[k + 1].has_leaf(name));
        }
    }
}

/// A tree that arrives brings its names.
pub proof fn lemma_forest_names_push(q: Seq<Tree>, t: Tree, name: Seq<char>)
    ensures
        forest_has_leaf(q.push(t), name) <==> forest_has_leaf(q, name) || t.has_leaf(name),
{
    let more = q.push(t);
    if forest_has_leaf(q, name) {
        let k = choose|k: int| 0 <= k < q.len() && (#[trigger] q[k]).has_leaf(name);
        assert(more[k].has_leaf(name));
    }
    if t.has_leaf(name) {
        assert(more[q.len() as int].has_leaf(name));
    }
    if forest_has_leaf(more, name) {
        let k = choose|k: int| 0 <= k < more.len() && (#[trigger] more[k]).has_leaf(name);
        if k < q.len() {
            assert(q[k].has_leaf(name));
        }
    }
}

/// A merge keeps the names.
pub proof fn lemma_merge_step_names(q: Seq<Tree>, name: Seq<char>)
    requires
        q.len() >= 2,
    ensures
        forest_has_leaf(merge_step(q), name) <==> forest_has_leaf(q, name),
{
    let i = min_index(q);
    let rest = q.remove(i);
    let j = min_index(rest);
    lemma_min_index(q);
    lemma_min_index(rest);
    lemma_forest_names_remove(q, i, name);
    lemma_forest_names_remove(rest, j, name);
    lemma_forest_names_push(rest.remove(j), merged_pair(q), name);
}

/// The Huffman tree has the names of the trees it was merged from, and no
/// others.
pub proof fn lemma_huffman_tree_names(q: Seq<Tree>, name: Seq<char>)
    requires
        q.len() >= 1,
    ensures
        huffman_tree(q).has_leaf(name) <==> forest_has_leaf(q, name),
    decreases q.len(),
{
    if q.len() == 1 {
        if forest_has_leaf(q, name) {
            let k = choose|k: int| 0 <= k < q.len() && (#[trigger] q[k]).has_leaf(name);
            assert(k == 0);
        }
    } else {
        lemma_merge_step_len(q);
        lemma_merge_step_names(q, name);
        lemma_huffman_tree_names(merge_step(q), name);
    }
}

/// The leaves of all the trees of `q`, each as often as it occurs.
pub open spec fn forest_leaves(q: Seq<Tree>) -> Multiset<Tree>
    decreases q.len(),
{
    if q.len() == 0 {
        Multiset::empty()
    } else {
        forest_leaves(q.drop_last()).add(q.last().leaves().to_multiset())
    }
}

/// Taking a tree out takes its leaves out.
pub proof fn lemma_forest_leaves_remove(q: Seq<Tree>, i: int)
    requires
        0 <= i < q.len(),
    ensures
        forest_leaves(q) == forest_leaves(q.remove(i)).add(q[i].leaves().to_multiset()),
    decreases q.len(),
{
    if i == q.len() - 1 {
        assert(q.remove(i) =~= q.drop_last());
    } else {
        lemma_forest_leaves_remove(q.drop_last(), i);
        assert(q.remove(i).drop_last() =~= q.drop_last().remove(i));
        assert(q.remove(i).last() == q.last());
        assert(forest_leaves(q) =~= forest_leaves(q.remove(i)).add(q[i].leaves().to_multiset()));
    }
}

/// A merge keeps the leaves.
pub proof fn lemma_merge_step_leaves(q: Seq<Tree>)
    requires
        q.len() >= 2,
    ensures
        forest_leaves(merge_step(q)) == forest_leaves(q),
{
    let i = min_index(q);
    let rest = q.remove(i);
    let j = min_index(rest);
    lemma_min_index(q);
    lemma_min_index(rest);
    lemma_forest_leaves_remove(q, i);
    lemma_forest_leaves_remove(rest, j);
    assert(merge_step(q).drop_last() =~= rest.remove(j));
    lemma_multiset_commutative(q[i].leaves(), rest[j].leaves());
    assert(forest_leaves(merge_step(q)) =~= forest_leaves(q));
}

/// The leaves of the Huffman tree are the leaves of the trees it was merged
/// from, each as often as it occurred among them.
pub proof fn lemma_huffman_tree_leaves(q: Seq<Tree>)
    requires
        q.len() >= 1,
    ensures
        huffman_tree(q).leaves().to_multiset() == forest_leaves(q),
    decreases q.len(),
{
    if q.len() == 1 {
        assert(forest_leaves(q.drop_last()) =~= Multiset::empty());
        assert(forest_leaves(q) =~= q[0].leaves().to_multiset());
    } else {
        lemma_merge_step_len(q);
        lemma_merge_step_leaves(q);
        lemma_huffman_tree_leaves(merge_step(q));
    }
}

/// The leaves of a row of leaves are the row itself.
pub proof fn lemma_forest_leaves_of_leaves(q: Seq<Tree>)
    requires
        forall|i: int| 0 <= i < q.len() ==> (#[trigger] q[i]) is Leaf,
    ensures
        forest_leaves(q) == q.to_multiset(),
    decreases q.len(),
{
    if q.len() == 0 {
        q.to_multiset_ensures();
        assert(q.to_multiset().len() == 0);
        assert(q.to_multiset() =~= Multiset::empty());
    } else {
        let front = q.drop_last();
        let last = q.last();
        assert(last is Leaf);
        assert forall|i: int| 0 <= i < front.len() implies (#[trigger] front[i]) is Leaf by {
            assert(q[i] is Leaf);
        }
        lemma_forest_leaves_of_leaves(front);
        assert(q =~= front + last.leaves());
        lemma_multiset_commutative(front, last.leaves());
    }
}

/// The Huffman tree over well-formed trees is well formed.
pub proof fn lemma_huffman_tree_well_formed(q: Seq<Tree>)
    requires
        q.len() >= 1,
        forall|i: int| 0 <= i < q.len() ==> (#[trigger] q[i]).well_formed(),
    ensures
        huffman_tree(q).well_formed(),
    decreases q.len(),
{
    if q.len() > 1 {
        lemma_merge_step_len(q);
        let i = min_index(q);
        let rest = q.remove(i);
        let j = min_index(rest);
        lemma_min_index(q);
        lemma_min_index(rest);
        let next = merge_step(q);
        assert forall|k: int| 0 <= k < next.len() implies (#[trigger] next[k]).well_formed() by {
            if k < next.len() - 1 {
                assert(next[k] == rest.remove(j)[k]);
            }
        }
        lemma_huffman_tree_well_formed(next);
    }
}

/// The Huffman tree weighs what the trees it was merged from weigh together.
pub proof fn lemma_huffman_tree_weight(q: Seq<Tree>)
    requires
        q.len() >= 1,
    ensures
        huffman_tree(q).weight() == total_weight(q),
    decreases q.len(),
{
    if q.len() == 1 {
        assert(total_weight(q.drop_last()) == 0);
    } else {
        lemma_merge_step_len(q);
        lemma_merge_step_weight(q);
        lemma_huffman_tree_weight(merge_step(q));
    }
}

} // verus!
