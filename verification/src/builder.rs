//! From instructions to weighted leaves, and from leaves to one tree.

use vstd::prelude::*;
use vstd::arithmetic::power2::{lemma2_to64, lemma2_to64_rest, lemma_pow2_adds, lemma_pow2_pos, lemma_pow2_strictly_increases};
use crate::error::HuffmanError;
use crate::forest::{huffman_tree, lemma_min_index, lemma_total_weight_push, lemma_total_weight_remove, merge_step, min_index, total_weight};
use crate::queue::NodeQueue;
use crate::tree::{Node, Tree};
use crate::weight::{valid_len, weight_of_len, Weight, MAX_LEN};

verus! {

/// An instruction as the contracts see it: its name and the greatest code
/// length that it declares.
pub struct Symbol {
    pub name: Seq<char>,
    pub max_len: int,
}

/// An instruction to be given a code.
#[derive(Debug)]
pub struct InstructionDef {
    pub name: String,
    pub max_len: i32,
}

impl View for InstructionDef {
    type V = Symbol;

    open spec fn view(&self) -> Symbol {
        Symbol { name: self.name@, max_len: self.max_len as int }
    }
}

/// The instructions as the contracts see them.
pub open spec fn symbols_of(instructions: Seq<InstructionDef>) -> Seq<Symbol> {
    instructions.map_values(|d: InstructionDef| d@)
}

/// Every symbol declares a length that has a weight.
pub open spec fn all_valid(symbols: Seq<Symbol>) -> bool {
    forall|i: int| 0 <= i < symbols.len() ==> valid_len(#[trigger] symbols[i].max_len)
}

/// The leaf of a symbol: its name, with the weight `1 / 2^max_len`.
pub open spec fn leaf_of(symbol: Symbol) -> Tree {
    Tree::Leaf { name: symbol.name, weight: weight_of_len(symbol.max_len) }
}

/// The leaves of the symbols, in the symbols' order.
pub open spec fn leaves_of(symbols: Seq<Symbol>) -> Seq<Tree> {
    symbols.map_values(|s: Symbol| leaf_of(s))
}

/// The weight of a valid length is positive and at most a half, which is
/// `2^126` units.
pub proof fn lemma_weight_of_len_bounds(max_len: int)
    requires
        valid_len(max_len),
    ensures
        0 < weight_of_len(max_len) <= 0x4000_0000_0000_0000_0000_0000_0000_0000,
{
    let e = (MAX_LEN - max_len) as nat;
    lemma_pow2_pos(e);
    if e < 126 {
        lemma_pow2_strictly_increases(e, 126);
    }
    lemma2_to64();
    lemma2_to64_rest();
    lemma_pow2_adds(63, 63);
}

/// Gives every instruction its leaf, and puts the leaves into a queue in the
/// instructions' order. An instruction whose declared length has no weight
/// makes the whole list invalid.
pub fn derive_weights(instructions: &Vec<InstructionDef>) -> (leaves: Result<NodeQueue, HuffmanError>)
    ensures
        leaves.is_ok() <==> all_valid(symbols_of(instructions@)),
        leaves matches Ok(queue) ==> {
            &&& queue.wf()
            &&& queue@ == leaves_of(symbols_of(instructions@))
            &&& queue.arrived() == instructions@.len()
        },
        leaves matches Err(e) ==> e == HuffmanError::InvalidInput,
{
    let ghost symbols = symbols_of(instructions@);
    let mut queue = NodeQueue::new();
    let mut i: usize = 0;
    assert(leaves_of(symbols.take(0)) =~= Seq::<Tree>::empty());
    while i < instructions.len()
        invariant
            i <= instructions@.len(),
            symbols == symbols_of(instructions@),
            queue.wf(),
            queue.arrived() == i,
            queue@ == leaves_of(symbols.take(i as int)),
            total_weight(queue@) <= i * 0x4000_0000_0000_0000_0000_0000_0000_0000,
            all_valid(symbols.take(i as int)),
        decreases instructions@.len() - i,
    {
        let instruction = &instructions[i];
        assert(symbols[i as int] == instruction@);
        match Weight::from_max_len(instruction.max_len) {
            None => {
                return Err(HuffmanError::InvalidInput);
            },
            Some(weight) => {
                proof {
                    lemma_weight_of_len_bounds(instruction.max_len as int);
                    lemma_total_weight_push(queue@, leaf_of(instruction@));
                }
                let leaf = Node::leaf(instruction.name.clone(), weight);
                queue.push(leaf);
                assert(leaves_of(symbols.take(i + 1)) =~= leaves_of(symbols.take(i as int)).push(
                    leaf_of(instruction@),
                ));
                assert forall|j: int| 0 <= j < i + 1 implies valid_len(
                    #[trigger] symbols.take(i + 1)[j].max_len,
                ) by {
                    if j < i {
                        assert(symbols.take(i + 1)[j] == symbols.take(i as int)[j]);
                    }
                }
            },
        }
        i = i + 1;
    }
    assert(symbols.take(i as int) =~= symbols);
    Ok(queue)
}

/// Merges the two nodes that leave the queue next, puts the merged node back
/// and goes on until one node is left: the root of the Huffman tree over the
/// nodes that the queue held. An empty queue has no tree.
///
/// Every merged node arrives in the queue, so the queue must have a ticket
/// left for each of them.
pub fn build_tree(heap: &mut NodeQueue) -> (built: Result<(), HuffmanError>)
    requires
        old(heap).wf(),
        old(heap).arrived() + old(heap)@.len() <= u128::MAX,
    ensures
        final(heap).wf(),
        final(heap).arrived() + final(heap)@.len() == old(heap).arrived() + old(heap)@.len(),
        old(heap)@.len() == 0 ==> built == Err::<(), HuffmanError>(HuffmanError::EmptyInput)
            && final(heap)@ == old(heap)@,
        old(heap)@.len() > 0 ==> built.is_ok() && final(heap)@ == seq![huffman_tree(old(heap)@)],
{
    if heap.len() == 0 {
        return Err(HuffmanError::EmptyInput);
    }
    while heap.len() > 1
        invariant
            heap.wf(),
            heap@.len() >= 1,
            old(heap).arrived() + old(heap)@.len() <= u128::MAX,
            heap.arrived() + heap@.len() == old(heap).arrived() + old(heap)@.len(),
            huffman_tree(heap@) == huffman_tree(old(heap)@),
        decreases heap@.len(),
    {
        let ghost before = heap@;
        proof {
            let i = min_index(before);
            let rest = before.remove(i);
            lemma_min_index(before);
            lemma_min_index(rest);
            lemma_total_weight_remove(before, i);
            lemma_total_weight_remove(rest, min_index(rest));
        }
        let left_child = heap.pop().unwrap();
        let right_child = heap.pop().unwrap();
        heap.push(Node::merge(left_child, right_child));
        assert(heap@ == merge_step(before));
    }
    assert(heap@ =~= seq![huffman_tree(old(heap)@)]);
    Ok(())
}

} // verus!
