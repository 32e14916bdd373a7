//! From a list of instructions to their code table, and what holds of the
//! table.

use vstd::prelude::*;
use crate::builder::{all_valid, build_tree, derive_weights, leaves_of, lemma_weight_of_len_bounds, symbols_of, InstructionDef, Symbol};
use crate::codes::{code_of, codes_from, gen_codes, is_binary, lemma_code_is_binary, lemma_codes_prefix_free, names_from, prefix_free};
use crate::error::HuffmanError;
use crate::forest::{forest_has_leaf, huffman_tree, lemma_forest_leaves_of_leaves, lemma_huffman_tree_leaves, lemma_huffman_tree_names, lemma_huffman_tree_well_formed};
use crate::kraft::{lemma_kraft, lemma_longest, lengths, longest};
use crate::lengths::{code_lengths, coded_cost, lemma_coded_cost_of_tree, name_of};
use crate::optimal::{lemma_forest_cost_of_leaves, lemma_huffman_tree_cost, lemma_huffman_tree_costs_least, lemma_merge_cost_least};
use crate::table::HuffmanCodeMap;
use crate::tree::Tree;

verus! {

/// The code tree of a list of symbols, where it has one: the Huffman tree
/// over the symbols' leaves.
pub open spec fn code_tree(symbols: Seq<Symbol>) -> Tree
    recommends
        symbols.len() > 0,
        all_valid(symbols),
{
    huffman_tree(leaves_of(symbols))
}

/// The code table of a list of symbols, where it has one: what the walk
/// from the root of the code tree writes down.
pub open spec fn code_table(symbols: Seq<Symbol>) -> Map<Seq<char>, Seq<u8>>
    recommends
        symbols.len() > 0,
        all_valid(symbols),
{
    codes_from(code_tree(symbols), Seq::empty(), Map::empty())
}

/// The names of the code table in the order of its entries: as the walk
/// over the code tree first meets them.
pub open spec fn code_names(symbols: Seq<Symbol>) -> Seq<Seq<char>>
    recommends
        symbols.len() > 0,
        all_valid(symbols),
{
    names_from(code_tree(symbols), Seq::empty())
}

/// What becomes of a list of symbols: its code table, or the reason why it
/// has none.
pub open spec fn mapping_of(symbols: Seq<Symbol>) -> Result<Map<Seq<char>, Seq<u8>>, HuffmanError> {
    if symbols.len() == 0 {
        Err(HuffmanError::EmptyInput)
    } else if !all_valid(symbols) {
        Err(HuffmanError::InvalidInput)
    } else {
        Ok(code_table(symbols))
    }
}

/// The view of an outcome: the table's map, or the error as it is.
pub open spec fn outcome_view(outcome: Result<HuffmanCodeMap, HuffmanError>) -> Result<
    Map<Seq<char>, Seq<u8>>,
    HuffmanError,
> {
    match outcome {
        Ok(table) => Ok(table@),
        Err(e) => Err(e),
    }
}

/// The names that occur among the symbols.
pub open spec fn symbol_names(symbols: Seq<Symbol>) -> Set<Seq<char>> {
    Set::new(|name: Seq<char>| exists|i: int| 0 <= i < symbols.len() && (#[trigger] symbols[i]).name == name)
}

/// No two symbols have one name.
pub open spec fn distinct_names(symbols: Seq<Symbol>) -> bool {
    forall|i: int, j: int|
        0 <= i < j < symbols.len() ==> (#[trigger] symbols[i]).name != (#[trigger] symbols[j]).name
}

/// What a table costs for a list of symbols: the sum, over the symbols, of
/// the weight `1 / 2^max_len` times the length of the symbol's codeword.
pub open spec fn table_cost(symbols: Seq<Symbol>, table: Map<Seq<char>, Seq<u8>>) -> nat {
    coded_cost(leaves_of(symbols), table)
}

/// The table could stand in for the code table: it has a codeword of bits
/// for every symbol, and it is prefix-free.
pub open spec fn serves(symbols: Seq<Symbol>, table: Map<Seq<char>, Seq<u8>>) -> bool {
    &&& forall|i: int| 0 <= i < symbols.len() ==> table.dom().contains((#[trigger] symbols[i]).name)
    &&& forall|name: Seq<char>| table.dom().contains(name) ==> is_binary(#[trigger] table[name])
    &&& prefix_free(table)
}

/// No table that could stand in for this one costs less.
pub open spec fn cheapest(symbols: Seq<Symbol>, table: Map<Seq<char>, Seq<u8>>) -> bool {
    forall|other: Map<Seq<char>, Seq<u8>>|
        serves(symbols, other) ==> table_cost(symbols, table) <= #[trigger] table_cost(
            symbols,
            other,
        )
}

/// The codewords that a table gives the symbols, in the symbols' order.
pub open spec fn codewords(symbols: Seq<Symbol>, table: Map<Seq<char>, Seq<u8>>) -> Seq<Seq<u8>> {
    symbols.map_values(|s: Symbol| table[s.name])
}

/// Gives every instruction its codeword.
///
/// An empty list is refused as empty, and a list with an instruction whose
/// declared length is not between 1 and 127 is invalid. Any other list has a
/// table, and the table depends on nothing but the names and lengths in
/// their order: it is prefix-free, it has exactly the names of the list, and
/// its codewords are made of bits. Where no name stands twice in the list,
/// no other such table costs less.
pub fn create_instruction_mapping(instructions: &Vec<InstructionDef>) -> (outcome: Result<
    HuffmanCodeMap,
    HuffmanError,
>)
    ensures
        outcome_view(outcome) == mapping_of(symbols_of(instructions@)),
        outcome matches Ok(table) ==> {
            &&& table.wf()
            &&& table.names() == code_names(symbols_of(instructions@))
            &&& prefix_free(table@)
            &&& table@.dom() == symbol_names(symbols_of(instructions@))
            &&& forall|name: Seq<char>| table@.dom().contains(name) ==> is_binary(#[trigger] table@[name])
            &&& distinct_names(symbols_of(instructions@)) ==> cheapest(
                symbols_of(instructions@),
                table@,
            )
        },
{
    let ghost symbols = symbols_of(instructions@);
    let mut heap = match derive_weights(instructions) {
        Ok(heap) => heap,
        Err(e) => {
            return Err(e);
        },
    };
    assert(instructions@.len() == instructions.len());
    assert(heap@.len() == instructions@.len());
    match build_tree(&mut heap) {
        Ok(()) => {},
        Err(e) => {
            return Err(e);
        },
    }
    let mut codes = HuffmanCodeMap::new();
    let root = heap.peek().unwrap();
    gen_codes(root, Vec::new(), &mut codes);
    proof {
        lemma_code_table_prefix_free(symbols);
        lemma_code_table_names(symbols);
        lemma_code_table_binary(symbols);
        if distinct_names(symbols) {
            assert forall|other: Map<Seq<char>, Seq<u8>>| serves(symbols, other) implies table_cost(
                symbols,
                code_table(symbols),
            ) <= #[trigger] table_cost(symbols, other) by {
                lemma_code_table_cheapest(symbols, other);
            }
        }
    }
    Ok(codes)
}

/// Whether the codeword that the table gives the instruction is no longer
/// than the instruction declares, if the table has its name. The weights
/// only lean towards the declared lengths: nothing keeps a codeword within
/// them.
pub fn code_within_limit(table: &HuffmanCodeMap, instruction: &InstructionDef) -> (fits: Option<bool>)
    requires
        table.wf(),
    ensures
        fits.is_some() <==> table@.dom().contains(instruction.name@),
        fits matches Some(within) ==> within == (table@[instruction.name@].len()
            <= instruction.max_len),
{
    match table.get(&instruction.name) {
        None => None,
        Some(code) => Some(instruction.max_len >= 0 && code.len() <= instruction.max_len as usize),
    }
}

/// No codeword of a code table is the beginning of another name's codeword.
pub proof fn lemma_code_table_prefix_free(symbols: Seq<Symbol>)
    ensures
        prefix_free(code_table(symbols)),
{
    lemma_codes_prefix_free(code_tree(symbols));
}

/// The names in the code table are the names among the symbols: every one
/// of them, and no other.
pub proof fn lemma_code_table_names(symbols: Seq<Symbol>)
    requires
        symbols.len() > 0,
    ensures
        code_table(symbols).dom() == symbol_names(symbols),
{
    let leaves = leaves_of(symbols);
    let table = code_table(symbols);
    assert forall|name: Seq<char>| table.dom().contains(name) == symbol_names(symbols).contains(
        name,
    ) by {
        lemma_huffman_tree_names(leaves, name);
        if forest_has_leaf(leaves, name) {
            let k = choose|k: int| 0 <= k < leaves.len() && (#[trigger] leaves[k]).has_leaf(name);
            assert(symbols[k].name == name);
        }
        if symbol_names(symbols).contains(name) {
            let k = choose|k: int| 0 <= k < symbols.len() && (#[trigger] symbols[k]).name == name;
            assert(leaves[k].has_leaf(name));
        }
    }
    assert(table.dom() =~= symbol_names(symbols));
}

/// Two runs on lists with the same names and lengths end alike: with the
/// same error, or with tables that give every name the same bits.
pub proof fn lemma_same_list_same_codes(
    symbols: Seq<Symbol>,
    first: Result<HuffmanCodeMap, HuffmanError>,
    second: Result<HuffmanCodeMap, HuffmanError>,
)
    requires
        outcome_view(first) == mapping_of(symbols),
        outcome_view(second) == mapping_of(symbols),
    ensures
        outcome_view(first) == outcome_view(second),
        first is Ok <==> second is Ok,
        first is Ok ==> first->Ok_0@ == second->Ok_0@,
        first is Err ==> first->Err_0 == second->Err_0,
{
}

/// Every codeword of a code table is made of the bits `0` and `1`.
pub proof fn lemma_code_table_binary(symbols: Seq<Symbol>)
    ensures
        forall|name: Seq<char>|
            code_table(symbols).dom().contains(name) ==> is_binary(#[trigger] code_table(symbols)[name]),
{
    let t = code_tree(symbols);
    assert forall|name: Seq<char>| code_table(symbols).dom().contains(name) implies is_binary(
        #[trigger] code_table(symbols)[name],
    ) by {
        lemma_code_is_binary(t, name);
        assert(code_table(symbols)[name] =~= code_of(t, name));
    }
}

/// The leaves of the code tree are the leaves of the symbols, each as often
/// as its symbol stands in the list.
pub proof fn lemma_code_tree_leaves(symbols: Seq<Symbol>)
    requires
        symbols.len() > 0,
    ensures
        code_tree(symbols).leaves().to_multiset() == leaves_of(symbols).to_multiset(),
{
    lemma_huffman_tree_leaves(leaves_of(symbols));
    lemma_forest_leaves_of_leaves(leaves_of(symbols));
}

/// In the code tree of valid symbols every leaf weighs more than nothing.
pub proof fn lemma_code_tree_well_formed(symbols: Seq<Symbol>)
    requires
        symbols.len() > 0,
        all_valid(symbols),
    ensures
        code_tree(symbols).well_formed(),
{
    let leaves = leaves_of(symbols);
    assert forall|i: int| 0 <= i < leaves.len() implies (#[trigger] leaves[i]).well_formed() by {
        lemma_weight_of_len_bounds(symbols[i].max_len);
    }
    lemma_huffman_tree_well_formed(leaves);
}

/// No tree over the same leaves costs less than the code tree: none has a
/// smaller sum of weight times depth.
pub proof fn lemma_code_tree_costs_least(symbols: Seq<Symbol>, other: Tree)
    requires
        symbols.len() > 0,
        other.leaves().to_multiset() == leaves_of(symbols).to_multiset(),
    ensures
        code_tree(symbols).cost() <= other.cost(),
{
    lemma_huffman_tree_costs_least(leaves_of(symbols), other);
}

/// Where no name stands twice, the code table costs what the code tree
/// costs.
pub proof fn lemma_code_table_cost(symbols: Seq<Symbol>)
    requires
        symbols.len() > 0,
        distinct_names(symbols),
    ensures
        table_cost(symbols, code_table(symbols)) == code_tree(symbols).cost(),
{
    let leaves = leaves_of(symbols);
    assert forall|i: int, j: int| 0 <= i < j < leaves.len() implies name_of(#[trigger] leaves[i])
        != name_of(#[trigger] leaves[j]) by {
        assert(symbols[i].name != symbols[j].name);
    }
    lemma_code_tree_leaves(symbols);
    lemma_coded_cost_of_tree(leaves, code_tree(symbols));
}

/// Where no name stands twice, no prefix-free table of binary codewords for
/// the symbols costs less than the code table.
pub proof fn lemma_code_table_cheapest(symbols: Seq<Symbol>, table: Map<Seq<char>, Seq<u8>>)
    requires
        symbols.len() > 0,
        distinct_names(symbols),
        serves(symbols, table),
    ensures
        table_cost(symbols, code_table(symbols)) <= table_cost(symbols, table),
{
    let leaves = leaves_of(symbols);
    let c = codewords(symbols, table);
    let scale = longest(c);
    assert forall|i: int, j: int| 0 <= i < c.len() && 0 <= j < c.len() && i != j implies !(
    #[trigger] c[i]).is_prefix_of(#[trigger] c[j]) by {
        if i < j {
            assert(symbols[i].name != symbols[j].name);
        } else {
            assert(symbols[j].name != symbols[i].name);
        }
        assert(table.dom().contains(symbols[i].name));
        assert(table.dom().contains(symbols[j].name));
    }
    assert forall|i: int| 0 <= i < c.len() implies is_binary(#[trigger] c[i]) by {
        assert(table.dom().contains(symbols[i].name));
    }
    lemma_longest(c);
    lemma_kraft(c, scale);
    assert(lengths(c) =~= code_lengths(leaves, table));
    lemma_merge_cost_least(leaves, lengths(c), scale);
    lemma_code_table_cost(symbols);
    lemma_huffman_tree_cost(leaves);
    lemma_forest_cost_of_leaves(leaves);
}

} // verus!
