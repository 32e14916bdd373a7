//! The cost of a code table: what its codewords' lengths cost, and that this
//! is the cost of the tree the table was read from.

use vstd::prelude::*;
use vstd::seq_lib::to_multiset_remove;
use crate::codes::{code_of, codes_from};
use crate::optimal::{lemma_cost_of_leaves, lemma_leaves_len, lemma_placed_cost_remove, placed_cost};
use crate::tree::Tree;

verus! {

/// The name of a leaf.
pub open spec fn name_of(leaf: Tree) -> Seq<char>
    recommends
        leaf is Leaf,
{
    leaf->name
}

/// Every tree of the row is a leaf.
pub open spec fn all_leaves(q: Seq<Tree>) -> bool {
    forall|i: int| 0 <= i < q.len() ==> (#[trigger] q[i]) is Leaf
}

/// No two leaves of the row have one name.
pub open spec fn distinct_leaf_names(q: Seq<Tree>) -> bool {
    forall|i: int, j: int|
        0 <= i < j < q.len() ==> name_of(#[trigger] q[i]) != name_of(#[trigger] q[j])
}

/// For each leaf of the row, the length of the codeword that the table
/// gives its name.
pub open spec fn code_lengths(q: Seq<Tree>, table: Map<Seq<char>, Seq<u8>>) -> Seq<nat> {
    q.map_values(|leaf: Tree| table[name_of(leaf)].len())
}

/// The cost of a table for a row of leaves: the sum, over the leaves, of the
/// leaf's weight times the length of its codeword.
pub open spec fn coded_cost(q: Seq<Tree>, table: Map<Seq<char>, Seq<u8>>) -> nat {
    placed_cost(q, code_lengths(q, table))
}

/// The leaves of a tree are leaves, and their names are the names of the
/// tree.
pub proof fn lemma_leaves_are_leaves(t: Tree)
    ensures
        all_leaves(t.leaves()),
        forall|name: Seq<char>|
            t.has_leaf(name) <==> exists|k: int|
                0 <= k < t.leaves().len() && name_of(#[trigger] t.leaves()[k]) == name,
    decreases t,
{
    match t {
        Tree::Leaf { .. } => {
            assert forall|name: Seq<char>| t.has_leaf(name) implies exists|k: int|
                0 <= k < t.leaves().len() && name_of(#[trigger] t.leaves()[k]) == name by {
                assert(name_of(t.leaves()[0]) == name);
            }
        },
        Tree::Internal { left, right } => {
            lemma_leaves_are_leaves(*left);
            lemma_leaves_are_leaves(*right);
            let ll = left.leaves();
            let rl = right.leaves();
            let all = t.leaves();
            assert forall|i: int| 0 <= i < all.len() implies (#[trigger] all[i]) is Leaf by {
                if i < ll.len() {
                    assert(all[i] == ll[i]);
                } else {
                    assert(all[i] == rl[i - ll.len()]);
                }
            }
            assert forall|name: Seq<char>| t.has_leaf(name) <==> exists|k: int|
                0 <= k < all.len() && name_of(#[trigger] all[k]) == name by {
                if left.has_leaf(name) {
                    let k = choose|k: int| 0 <= k < ll.len() && name_of(#[trigger] ll[k]) == name;
                    assert(name_of(all[k]) == name);
                }
                if right.has_leaf(name) {
                    let k = choose|k: int| 0 <= k < rl.len() && name_of(#[trigger] rl[k]) == name;
                    assert(name_of(all[k + ll.len()]) == name);
                }
                if exists|k: int| 0 <= k < all.len() && name_of(#[trigger] all[k]) == name {
                    let k = choose|k: int| 0 <= k < all.len() && name_of(#[trigger] all[k]) == name;
                    if k < ll.len() {
                        assert(name_of(ll[k]) == name);
                    } else {
                        assert(name_of(rl[k - ll.len()]) == name);
                    }
                }
            }
        },
    }
}

/// In a tree whose leaves have distinct names, the codeword of a leaf is as
/// long as the leaf is deep.
pub proof fn lemma_code_length_is_depth(t: Tree)
    requires
        distinct_leaf_names(t.leaves()),
    ensures
        code_lengths(t.leaves(), codes_from(t, Seq::empty(), Map::empty())) == t.depths(),
    decreases t,
{
    let table = codes_from(t, Seq::empty(), Map::empty());
    let lengths = code_lengths(t.leaves(), table);
    lemma_leaves_len(t);
    lemma_leaves_are_leaves(t);
    match t {
        Tree::Leaf { .. } => {
            assert(Seq::<u8>::empty() + code_of(t, name_of(t)) =~= Seq::<u8>::empty());
            assert(lengths =~= t.depths());
        },
        Tree::Internal { left, right } => {
            let ll = left.leaves();
            let rl = right.leaves();
            let all = t.leaves();
            lemma_leaves_len(*left);
            lemma_leaves_len(*right);
            lemma_leaves_are_leaves(*left);
            lemma_leaves_are_leaves(*right);
            assert forall|i: int, j: int| 0 <= i < j < ll.len() implies name_of(#[trigger] ll[i])
                != name_of(#[trigger] ll[j]) by {
                assert(all[i] == ll[i] && all[j] == ll[j]);
            }
            assert forall|i: int, j: int| 0 <= i < j < rl.len() implies name_of(#[trigger] rl[i])
                != name_of(#[trigger] rl[j]) by {
                assert(all[i + ll.len()] == rl[i] && all[j + ll.len()] == rl[j]);
            }
            lemma_code_length_is_depth(*left);
            lemma_code_length_is_depth(*right);
            let lt = codes_from(*left, Seq::empty(), Map::empty());
            let rt = codes_from(*right, Seq::empty(), Map::empty());
            let both = left.depths() + right.depths();
            assert forall|k: int| 0 <= k < all.len() implies #[trigger] lengths[k] == t.depths()[k] by {
                let name = name_of(all[k]);
                if k < ll.len() {
                    assert(all[k] == ll[k]);
                    assert(left.has_leaf(name));
                    if right.has_leaf(name) {
                        let j = choose|j: int| 0 <= j < rl.len() && name_of(#[trigger] rl[j]) == name;
                        assert(all[j + ll.len()] == rl[j]);
                    }
                    assert(Seq::<u8>::empty() + code_of(t, name) =~= seq![0u8] + code_of(
                        *left,
                        name,
                    ));
                    assert(Seq::<u8>::empty() + code_of(*left, name) =~= code_of(*left, name));
                    assert(code_lengths(ll, lt)[k] == left.depths()[k]);
                    assert(both[k] == left.depths()[k]);
                } else {
                    let r = k - ll.len();
                    assert(all[k] == rl[r]);
                    assert(right.has_leaf(name));
                    assert(Seq::<u8>::empty() + code_of(t, name) =~= seq![1u8] + code_of(
                        *right,
                        name,
                    ));
                    assert(Seq::<u8>::empty() + code_of(*right, name) =~= code_of(*right, name));
                    assert(code_lengths(rl, rt)[r] == right.depths()[r]);
                    assert(both[k] == right.depths()[r]);
                }
            }
            assert(lengths =~= t.depths());
        },
    }
}

/// The cost of a table does not depend on the order of the leaves.
pub proof fn lemma_coded_cost_rearranged(q: Seq<Tree>, other: Seq<Tree>, table: Map<Seq<char>, Seq<u8>>)
    requires
        q.to_multiset() == other.to_multiset(),
    ensures
        coded_cost(q, table) == coded_cost(other, table),
    decreases q.len(),
{
    q.to_multiset_ensures();
    other.to_multiset_ensures();
    if q.len() == 0 {
        assert(other.len() == 0);
    } else {
        let last = q.last();
        assert(q.contains(last));
        assert(q.to_multiset().count(last) > 0);
        assert(other.to_multiset().count(last) > 0);
        assert(other.contains(last));
        let p = choose|p: int| 0 <= p < other.len() && other[p] == last;
        assert(q.drop_last() =~= q.remove(q.len() - 1));
        to_multiset_remove(q, q.len() - 1);
        to_multiset_remove(other, p);
        lemma_coded_cost_rearranged(q.drop_last(), other.remove(p), table);
        lemma_placed_cost_remove(other, code_lengths(other, table), p);
        assert(code_lengths(other, table).remove(p) =~= code_lengths(other.remove(p), table));
        assert(code_lengths(q, table).drop_last() =~= code_lengths(q.drop_last(), table));
    }
}

/// A row that holds the same leaves as a row with distinct names has
/// distinct names.
pub proof fn lemma_distinct_names_carry(q: Seq<Tree>, other: Seq<Tree>)
    requires
        distinct_leaf_names(q),
        q.to_multiset() == other.to_multiset(),
    ensures
        distinct_leaf_names(other),
{
    q.to_multiset_ensures();
    other.to_multiset_ensures();
    assert(q.no_duplicates()) by {
        assert forall|x: int, y: int| 0 <= x < q.len() && 0 <= y < q.len() && x != y implies q[x]
            != q[y] by {
            if x < y {
                assert(name_of(q[x]) != name_of(q[y]));
            } else {
                assert(name_of(q[y]) != name_of(q[x]));
            }
        }
    }
    q.lemma_multiset_has_no_duplicates();
    other.lemma_multiset_has_no_duplicates_conv();
    assert forall|i: int, j: int| 0 <= i < j < other.len() implies name_of(#[trigger] other[i])
        != name_of(#[trigger] other[j]) by {
        assert(other.contains(other[i]));
        assert(other.contains(other[j]));
        assert(other.to_multiset().count(other[i]) > 0);
        assert(other.to_multiset().count(other[j]) > 0);
        assert(q.contains(other[i]));
        assert(q.contains(other[j]));
        let a = choose|a: int| 0 <= a < q.len() && q[a] == other[i];
        let b = choose|b: int| 0 <= b < q.len() && q[b] == other[j];
        assert(other[i] != other[j]);
        if a < b {
            assert(name_of(q[a]) != name_of(q[b]));
        } else {
            assert(name_of(q[b]) != name_of(q[a]));
        }
    }
}

/// For leaves with distinct names, the table read from a tree over those
/// leaves costs what the tree costs.
pub proof fn lemma_coded_cost_of_tree(q: Seq<Tree>, t: Tree)
    requires
        distinct_leaf_names(q),
        t.leaves().to_multiset() == q.to_multiset(),
    ensures
        coded_cost(q, codes_from(t, Seq::empty(), Map::empty())) == t.cost(),
{
    let table = codes_from(t, Seq::empty(), Map::empty());
    lemma_distinct_names_carry(q, t.leaves());
    lemma_code_length_is_depth(t);
    lemma_cost_of_leaves(t);
    lemma_coded_cost_rearranged(q, t.leaves(), table);
}

} // verus!
