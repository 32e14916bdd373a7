//! Codewords: the walk over a tree that writes them down, and what holds of
//! them.

use vstd::prelude::*;
use crate::table::HuffmanCodeMap;
use crate::tree::{Node, NodeType, Tree};

verus! {

/// The codeword of a name in a tree: the bits on the way from the root to
/// the leaf with that name, `0` for a step to the left and `1` for a step to
/// the right. Where several leaves carry the name, it is the way to the
/// rightmost of them.
pub open spec fn code_of(t: Tree, name: Seq<char>) -> Seq<u8>
    recommends
        t.has_leaf(name),
    decreases t,
{
    match t {
        Tree::Leaf { .. } => Seq::empty(),
        Tree::Internal { left, right } => if right.has_leaf(name) {
            seq![1u8] + code_of(*right, name)
        } else {
            seq![0u8] + code_of(*left, name)
        },
    }
}

/// The table after a walk over `t` that started at `prefix`: every name of
/// `t` has `prefix` followed by its codeword in `t`, and every other name
/// has what `table` gave it.
pub open spec fn codes_from(t: Tree, prefix: Seq<u8>, table: Map<Seq<char>, Seq<u8>>) -> Map<
    Seq<char>,
    Seq<u8>,
> {
    Map::new(
        |name: Seq<char>| t.has_leaf(name) || table.dom().contains(name),
        |name: Seq<char>|
            if t.has_leaf(name) {
                prefix + code_of(t, name)
            } else {
                table[name]
            },
    )
}

/// The names in the order in which a walk over `t` first meets them, behind
/// the names that were met before.
pub open spec fn names_from(t: Tree, names: Seq<Seq<char>>) -> Seq<Seq<char>>
    decreases t,
{
    match t {
        Tree::Leaf { name, .. } => if names.contains(name) {
            names
        } else {
            names.push(name)
        },
        Tree::Internal { left, right } => names_from(*right, names_from(*left, names)),
    }
}

/// Every element is the bit `0` or the bit `1`.
pub open spec fn is_binary(code: Seq<u8>) -> bool {
    forall|i: int| 0 <= i < code.len() ==> #[trigger] code[i] <= 1
}

/// No codeword of the table is the beginning of the codeword of another
/// name.
pub open spec fn prefix_free(table: Map<Seq<char>, Seq<u8>>) -> bool {
    forall|a: Seq<char>, b: Seq<char>|
        table.dom().contains(a) && table.dom().contains(b) && a != b ==> !(#[trigger] table[a]).is_prefix_of(
            #[trigger] table[b],
        )
}

/// A walk over a leaf gives the leaf's name the prefix.
pub proof fn lemma_codes_from_leaf(
    name: Seq<char>,
    weight: nat,
    prefix: Seq<u8>,
    table: Map<Seq<char>, Seq<u8>>,
)
    ensures
        codes_from(Tree::Leaf { name, weight }, prefix, table) == table.insert(name, prefix),
{
    let t = Tree::Leaf { name, weight };
    assert(prefix + code_of(t, name) =~= prefix);
    assert(codes_from(t, prefix, table) =~= table.insert(name, prefix));
}

/// A walk over an internal node is a walk over its left child, one `0`
/// further, and then a walk over its right child, one `1` further.
pub proof fn lemma_codes_from_internal(
    left: Tree,
    right: Tree,
    prefix: Seq<u8>,
    table: Map<Seq<char>, Seq<u8>>,
)
    ensures
        codes_from(Tree::Internal { left: Box::new(left), right: Box::new(right) }, prefix, table)
            == codes_from(right, prefix.push(1), codes_from(left, prefix.push(0), table)),
{
    let t = Tree::Internal { left: Box::new(left), right: Box::new(right) };
    let whole = codes_from(t, prefix, table);
    let halves = codes_from(right, prefix.push(1), codes_from(left, prefix.push(0), table));
    assert forall|name: Seq<char>| whole.dom().contains(name) implies #[trigger] whole[name]
        == halves[name] by {
        if right.has_leaf(name) {
            assert(prefix + (seq![1u8] + code_of(right, name)) =~= prefix.push(1) + code_of(
                right,
                name,
            ));
        } else if left.has_leaf(name) {
            assert(prefix + (seq![0u8] + code_of(left, name)) =~= prefix.push(0) + code_of(
                left,
                name,
            ));
        }
    }
    assert(whole =~= halves);
}

/// Walks the tree below `node`, left child first, and writes into `codes`
/// each leaf's name with the bits of the way to it, behind `prefix`.
pub fn gen_codes(node: &Node, prefix: Vec<u8>, codes: &mut HuffmanCodeMap)
    requires
        old(codes).wf(),
    ensures
        final(codes).wf(),
        final(codes)@ == codes_from(node@, prefix@, old(codes)@),
        final(codes).names() == names_from(node@, old(codes).names()),
    decreases node,
{
    match &node.node_type {
        NodeType::Internal(left_child, right_child) => {
            proof {
                lemma_codes_from_internal(left_child@, right_child@, prefix@, codes@);
            }
            let mut left_prefix = prefix.clone();
            left_prefix.push(0);
            gen_codes(left_child, left_prefix, codes);
            let mut right_prefix = prefix;
            right_prefix.push(1);
            gen_codes(right_child, right_prefix, codes);
        },
        NodeType::Leaf(name) => {
            proof {
                lemma_codes_from_leaf(name@, node.weight@, prefix@, codes@);
            }
            codes.insert(name.clone(), prefix);
        },
    }
}

/// The character that stands for a bit.
pub open spec fn bit_char(bit: u8) -> char {
    if bit == 0 {
        '0'
    } else {
        '1'
    }
}

/// The codeword written with the characters `0` and `1`, first bit first.
pub fn code_string(code: &Vec<u8>) -> (text: String)
    requires
        is_binary(code@),
    ensures
        text@ == code@.map_values(|bit: u8| bit_char(bit)),
{
    let mut text = String::new();
    let mut i: usize = 0;
    proof {
        reveal_strlit("0");
        reveal_strlit("1");
    }
    while i < code.len()
        invariant
            i <= code@.len(),
            "0"@ == seq!['0'],
            "1"@ == seq!['1'],
            text@ == code@.take(i as int).map_values(|bit: u8| bit_char(bit)),
        decreases code@.len() - i,
    {
        if code[i] == 0 {
            text.append("0");
        } else {
            text.append("1");
        }
        assert(code@.take(i + 1).map_values(|bit: u8| bit_char(bit)) =~= code@.take(
            i as int,
        ).map_values(|bit: u8| bit_char(bit)) + seq![bit_char(code@[i as int])]);
        i = i + 1;
    }
    assert(code@.take(i as int) =~= code@);
    text
}

/// The codeword of a name leads from the root to a leaf with that name.
pub proof fn lemma_code_leads_to_leaf(t: Tree, name: Seq<char>)
    requires
        t.has_leaf(name),
    ensures
        t.leaf_at(code_of(t, name)) == Some(name),
    decreases t,
{
    match t {
        Tree::Leaf { .. } => {},
        Tree::Internal { left, right } => {
            if right.has_leaf(name) {
                lemma_code_leads_to_leaf(*right, name);
                assert((seq![1u8] + code_of(*right, name)).skip(1) =~= code_of(*right, name));
            } else {
                lemma_code_leads_to_leaf(*left, name);
                assert((seq![0u8] + code_of(*left, name)).skip(1) =~= code_of(*left, name));
            }
        },
    }
}

/// A codeword holds bits only.
pub proof fn lemma_code_is_binary(t: Tree, name: Seq<char>)
    ensures
        is_binary(code_of(t, name)),
    decreases t,
{
    match t {
        Tree::Leaf { .. } => {},
        Tree::Internal { left, right } => {
            lemma_code_is_binary(*left, name);
            lemma_code_is_binary(*right, name);
        },
    }
}

/// Within one tree, the codeword of a name is not the beginning of the
/// codeword of another name.
pub proof fn lemma_code_not_prefix(t: Tree, a: Seq<char>, b: Seq<char>)
    requires
        t.has_leaf(a),
        t.has_leaf(b),
        a != b,
    ensures
        !code_of(t, a).is_prefix_of(code_of(t, b)),
    decreases t,
{
    match t {
        Tree::Leaf { .. } => {},
        Tree::Internal { left, right } => {
            let ca = code_of(t, a);
            let cb = code_of(t, b);
            if right.has_leaf(a) && right.has_leaf(b) {
                lemma_code_not_prefix(*right, a, b);
                if ca.is_prefix_of(cb) {
                    assert(ca.skip(1) =~= code_of(*right, a));
                    assert(cb.skip(1) =~= code_of(*right, b));
                    assert(ca.skip(1) =~= cb.skip(1).subrange(0, ca.len() - 1));
                }
            } else if !right.has_leaf(a) && !right.has_leaf(b) {
                lemma_code_not_prefix(*left, a, b);
                if ca.is_prefix_of(cb) {
                    assert(ca.skip(1) =~= code_of(*left, a));
                    assert(cb.skip(1) =~= code_of(*left, b));
                    assert(ca.skip(1) =~= cb.skip(1).subrange(0, ca.len() - 1));
                }
            } else {
                if ca.is_prefix_of(cb) {
                    assert(ca[0] == cb.subrange(0, ca.len() as int)[0]);
                }
            }
        },
    }
}

/// In a prefix-free table no two names have the same codeword.
pub proof fn lemma_prefix_free_distinct(table: Map<Seq<char>, Seq<u8>>, a: Seq<char>, b: Seq<char>)
    requires
        prefix_free(table),
        table.dom().contains(a),
        table.dom().contains(b),
        a != b,
    ensures
        table[a] != table[b],
{
    if table[a] == table[b] {
        assert(table[a].is_prefix_of(table[b]));
    }
}

/// The table written by a walk from the root, into an empty table, is
/// prefix-free.
pub proof fn lemma_codes_prefix_free(t: Tree)
    ensures
        prefix_free(codes_from(t, Seq::empty(), Map::empty())),
{
    let table = codes_from(t, Seq::empty(), Map::empty());
    assert forall|a: Seq<char>, b: Seq<char>|
        table.dom().contains(a) && table.dom().contains(b) && a != b implies !(#[trigger] table[a]).is_prefix_of(
        #[trigger] table[b],
    ) by {
        lemma_code_not_prefix(t, a, b);
        assert(table[a] =~= code_of(t, a));
        assert(table[b] =~= code_of(t, b));
    }
}

} // verus!
