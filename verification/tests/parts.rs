use instruction_huffman::builder::{build_tree, derive_weights, InstructionDef};
use instruction_huffman::codes::{code_string, gen_codes};
use instruction_huffman::error::HuffmanError;
use instruction_huffman::queue::NodeQueue;
use instruction_huffman::table::HuffmanCodeMap;
use instruction_huffman::tree::{Node, NodeType};
use instruction_huffman::weight::{Weight, MAX_LEN};

fn def(name: &str, max_len: i32) -> InstructionDef {
    InstructionDef { name: name.to_string(), max_len }
}

fn weight(max_len: i32) -> Weight {
    Weight::from_max_len(max_len).expect("the length has a weight")
}

fn leaf(name: &str, max_len: i32) -> Node {
    Node::leaf(name.to_string(), weight(max_len))
}

fn leaf_name(node: &Node) -> String {
    match &node.node_type {
        NodeType::Leaf(name) => name.clone(),
        NodeType::Internal(_, _) => panic!("the node is a leaf"),
    }
}

fn shape(node: &Node) -> String {
    match &node.node_type {
        NodeType::Leaf(name) => name.clone(),
        NodeType::Internal(left, right) => format!("({} {})", shape(left), shape(right)),
    }
}

#[test]
fn weight_of_a_length_is_a_power_of_two() {
    assert_eq!(MAX_LEN, 127);
    let w = weight(127);
    assert_eq!((w.hi, w.lo), (0, 1));
    let w = weight(126);
    assert_eq!((w.hi, w.lo), (0, 2));
    let w = weight(64);
    assert_eq!((w.hi, w.lo), (0, 1u64 << 63));
    let w = weight(63);
    assert_eq!((w.hi, w.lo), (1, 0));
    let w = weight(2);
    assert_eq!((w.hi, w.lo), (1u128 << 61, 0));
    let w = weight(1);
    assert_eq!((w.hi, w.lo), (1u128 << 62, 0));
}

#[test]
fn lengths_without_a_weight() {
    assert!(Weight::from_max_len(0).is_none());
    assert!(Weight::from_max_len(-1).is_none());
    assert!(Weight::from_max_len(i32::MIN).is_none());
    assert!(Weight::from_max_len(128).is_none());
    assert!(Weight::from_max_len(i32::MAX).is_none());
    assert!(Weight::from_max_len(1).is_some());
    assert!(Weight::from_max_len(127).is_some());
}

#[test]
fn weights_add_with_carry() {
    let a = Weight { hi: 3, lo: u64::MAX };
    let b = Weight { hi: 4, lo: 1 };
    let sum = a.add(&b);
    assert_eq!((sum.hi, sum.lo), (8, 0));
    let c = Weight { hi: 0, lo: u64::MAX };
    let sum = c.add(&c);
    assert_eq!((sum.hi, sum.lo), (1, u64::MAX - 1));
    let sum = weight(2).add(&weight(2));
    let half = weight(1);
    assert_eq!((sum.hi, sum.lo), (half.hi, half.lo));
    let sum = weight(127).add(&weight(127));
    assert_eq!((sum.hi, sum.lo), (0, 2));
}

#[test]
fn weights_compare_by_value() {
    assert!(weight(2).lt(&weight(1)));
    assert!(!weight(1).lt(&weight(2)));
    assert!(!weight(5).lt(&weight(5)));
    assert!(weight(127).lt(&weight(63)));
    assert!(Weight { hi: 1, lo: 0 }.lt(&Weight { hi: 1, lo: 1 }));
    assert!(Weight { hi: 0, lo: u64::MAX }.lt(&Weight { hi: 1, lo: 0 }));
    assert!(!Weight { hi: 2, lo: 0 }.lt(&Weight { hi: 1, lo: u64::MAX }));
}

#[test]
fn merged_node_weighs_the_sum() {
    let node = Node::merge(leaf("A", 2), leaf("B", 3));
    let sum = weight(2).add(&weight(3));
    assert_eq!((node.weight.hi, node.weight.lo), (sum.hi, sum.lo));
    match &node.node_type {
        NodeType::Internal(left, right) => {
            assert_eq!(leaf_name(left), "A");
            assert_eq!(leaf_name(right), "B");
        }
        NodeType::Leaf(_) => panic!("the node is internal"),
    }
}

#[test]
fn new_node_keeps_what_it_is_given() {
    let node = Node::new(Weight { hi: 7, lo: 9 }, NodeType::Leaf("Q".to_string()));
    assert_eq!((node.weight.hi, node.weight.lo), (7, 9));
    assert_eq!(leaf_name(&node), "Q");
}

#[test]
fn queue_hands_out_the_lightest_first() {
    let mut queue = NodeQueue::new();
    assert_eq!(queue.len(), 0);
    assert!(queue.peek().is_none());
    assert!(queue.pop().is_none());
    queue.push(leaf("A", 1));
    queue.push(leaf("B", 3));
    queue.push(leaf("C", 2));
    queue.push(leaf("D", 5));
    queue.push(leaf("E", 4));
    assert_eq!(queue.len(), 5);
    assert_eq!(leaf_name(queue.peek().unwrap()), "D");
    let mut order = Vec::new();
    while let Some(node) = queue.pop() {
        order.push(leaf_name(&node));
    }
    assert_eq!(order, vec!["D", "E", "B", "C", "A"]);
    assert_eq!(queue.len(), 0);
}

#[test]
fn queue_hands_out_equal_weights_in_arrival_order() {
    let mut queue = NodeQueue::new();
    let names = ["K", "B", "Z", "A", "M", "C", "Y", "D", "X", "E", "W"];
    for name in names {
        queue.push(leaf(name, 4));
    }
    queue.push(leaf("light", 9));
    queue.push(leaf("heavy", 1));
    let first = queue.pop().unwrap();
    assert_eq!(leaf_name(&first), "light");
    for name in &names[..5] {
        assert_eq!(leaf_name(&queue.pop().unwrap()), *name);
    }
    queue.push(leaf("late", 4));
    for name in &names[5..] {
        assert_eq!(leaf_name(&queue.pop().unwrap()), *name);
    }
    assert_eq!(leaf_name(&queue.pop().unwrap()), "late");
    assert_eq!(leaf_name(&queue.pop().unwrap()), "heavy");
    assert!(queue.pop().is_none());
}

#[test]
fn derived_leaves_stand_in_input_order() {
    let defs = vec![def("A", 3), def("B", 3), def("C", 1), def("D", 3)];
    let mut queue = match derive_weights(&defs) {
        Ok(queue) => queue,
        Err(_) => panic!("the list is valid"),
    };
    assert_eq!(queue.len(), 4);
    let mut order = Vec::new();
    while let Some(node) = queue.pop() {
        let expected = if leaf_name(&node) == "C" { weight(1) } else { weight(3) };
        assert_eq!((node.weight.hi, node.weight.lo), (expected.hi, expected.lo));
        order.push(leaf_name(&node));
    }
    assert_eq!(order, vec!["A", "B", "D", "C"]);
}

#[test]
fn derived_leaves_of_no_instruction() {
    let queue = match derive_weights(&Vec::new()) {
        Ok(queue) => queue,
        Err(_) => panic!("the empty list is valid"),
    };
    assert_eq!(queue.len(), 0);
}

#[test]
fn invalid_length_stops_the_derivation() {
    assert!(matches!(derive_weights(&vec![def("A", 1), def("B", 0)]), Err(HuffmanError::InvalidInput)));
    assert!(matches!(derive_weights(&vec![def("A", -1)]), Err(HuffmanError::InvalidInput)));
    assert!(matches!(derive_weights(&vec![def("A", 200)]), Err(HuffmanError::InvalidInput)));
}

#[test]
fn empty_queue_has_no_tree() {
    let mut queue = NodeQueue::new();
    assert!(matches!(build_tree(&mut queue), Err(HuffmanError::EmptyInput)));
    assert_eq!(queue.len(), 0);
}

#[test]
fn one_leaf_is_its_own_tree() {
    let mut queue = NodeQueue::new();
    queue.push(leaf("NOP", 1));
    assert!(build_tree(&mut queue).is_ok());
    assert_eq!(queue.len(), 1);
    assert_eq!(shape(queue.peek().unwrap()), "NOP");
}

#[test]
fn tree_is_merged_lightest_first() {
    let defs = vec![def("X", 1), def("Y", 2), def("Z", 2)];
    let mut queue = derive_weights(&defs).ok().unwrap();
    assert!(build_tree(&mut queue).is_ok());
    assert_eq!(queue.len(), 1);
    let root = queue.pop().unwrap();
    assert_eq!(shape(&root), "(X (Y Z))");
    assert_eq!((root.weight.hi, root.weight.lo), (1u128 << 63, 0));
}

#[test]
fn merged_node_waits_behind_equally_light_nodes() {
    let defs = vec![def("A", 3), def("B", 3), def("C", 2), def("D", 2), def("E", 1)];
    let mut queue = derive_weights(&defs).ok().unwrap();
    assert!(build_tree(&mut queue).is_ok());
    let root = queue.pop().unwrap();
    assert_eq!(shape(&root), "((C D) ((A B) E))");
    let weight_sum = weight(3).add(&weight(3)).add(&weight(2)).add(&weight(2)).add(&weight(1));
    assert_eq!((root.weight.hi, root.weight.lo), (weight_sum.hi, weight_sum.lo));
}

#[test]
fn walk_writes_paths_behind_the_prefix() {
    let tree = Node::merge(leaf("A", 1), Node::merge(leaf("B", 2), leaf("C", 2)));
    let mut codes = HuffmanCodeMap::new();
    codes.insert("Q".to_string(), vec![1, 1, 1]);
    codes.insert("B".to_string(), vec![0]);
    gen_codes(&tree, vec![1, 0], &mut codes);
    assert_eq!(codes.len(), 4);
    assert_eq!(codes.get(&"A".to_string()), Some(&vec![1u8, 0, 0]));
    assert_eq!(codes.get(&"B".to_string()), Some(&vec![1u8, 0, 1, 0]));
    assert_eq!(codes.get(&"C".to_string()), Some(&vec![1u8, 0, 1, 1]));
    assert_eq!(codes.get(&"Q".to_string()), Some(&vec![1u8, 1, 1]));
}

#[test]
fn walk_over_a_leaf_writes_the_prefix() {
    let mut codes = HuffmanCodeMap::new();
    gen_codes(&leaf("NOP", 1), Vec::new(), &mut codes);
    assert_eq!(codes.len(), 1);
    assert_eq!(codes.get(&"NOP".to_string()), Some(&Vec::<u8>::new()));
}

#[test]
fn table_keeps_one_codeword_for_a_name() {
    let mut table = HuffmanCodeMap::new();
    assert_eq!(table.len(), 0);
    assert!(table.get(&"A".to_string()).is_none());
    table.insert("A".to_string(), vec![0]);
    table.insert("B".to_string(), vec![1, 0]);
    table.insert("A".to_string(), vec![1, 1]);
    assert_eq!(table.len(), 2);
    assert_eq!(table.get(&"A".to_string()), Some(&vec![1u8, 1]));
    assert_eq!(table.get(&"B".to_string()), Some(&vec![1u8, 0]));
    assert!(table.get(&"".to_string()).is_none());
    let entries = table.entries();
    assert_eq!(entries.len(), 2);
    assert!(entries.contains(&("A".to_string(), vec![1u8, 1])));
    assert!(entries.contains(&("B".to_string(), vec![1u8, 0])));
}

#[test]
fn codeword_is_written_with_zeros_and_ones() {
    assert_eq!(code_string(&vec![]), "");
    assert_eq!(code_string(&vec![0]), "0");
    assert_eq!(code_string(&vec![1]), "1");
    assert_eq!(code_string(&vec![1, 0, 1, 1, 0, 0]), "101100");
}
