use instruction_huffman::builder::InstructionDef;
use instruction_huffman::error::HuffmanError;
use instruction_huffman::mapping::{code_within_limit, create_instruction_mapping};
use instruction_huffman::table::HuffmanCodeMap;

fn def(name: &str, max_len: i32) -> InstructionDef {
    InstructionDef { name: name.to_string(), max_len }
}

fn code(table: &HuffmanCodeMap, name: &str) -> Vec<u8> {
    table.get(&name.to_string()).expect("the name has a codeword").clone()
}

fn is_prefix(a: &[u8], b: &[u8]) -> bool {
    a.len() <= b.len() && &b[..a.len()] == a
}

fn table_of(defs: &Vec<InstructionDef>) -> HuffmanCodeMap {
    match create_instruction_mapping(defs) {
        Ok(table) => table,
        Err(_) => panic!("the list has a table"),
    }
}

#[test]
fn single_symbol_has_the_empty_codeword() {
    let table = table_of(&vec![def("NOP", 1)]);
    assert_eq!(table.len(), 1);
    assert_eq!(code(&table, "NOP"), Vec::<u8>::new());
}

#[test]
fn two_equal_symbols_get_one_bit_each() {
    let table = table_of(&vec![def("A", 1), def("B", 1)]);
    assert_eq!(table.len(), 2);
    assert_eq!(code(&table, "A"), vec![0u8]);
    assert_eq!(code(&table, "B"), vec![1u8]);
}

#[test]
fn lighter_symbols_lie_deeper() {
    let table = table_of(&vec![def("X", 1), def("Y", 2), def("Z", 2)]);
    assert_eq!(table.len(), 3);
    assert_eq!(code(&table, "X"), vec![0u8]);
    assert_eq!(code(&table, "Y"), vec![1u8, 0]);
    assert_eq!(code(&table, "Z"), vec![1u8, 1]);
}

#[test]
fn the_first_of_equally_light_nodes_goes_left() {
    let table = table_of(&vec![def("Z", 2), def("X", 1), def("Y", 2)]);
    assert_eq!(code(&table, "Z"), vec![1u8, 0]);
    assert_eq!(code(&table, "Y"), vec![1u8, 1]);
    assert_eq!(code(&table, "X"), vec![0u8]);
}

#[test]
fn four_equal_symbols_get_two_bits_each() {
    let table = table_of(&vec![def("A", 3), def("B", 3), def("C", 3), def("D", 3)]);
    assert_eq!(code(&table, "A"), vec![0u8, 0]);
    assert_eq!(code(&table, "B"), vec![0u8, 1]);
    assert_eq!(code(&table, "C"), vec![1u8, 0]);
    assert_eq!(code(&table, "D"), vec![1u8, 1]);
}

#[test]
fn a_chain_of_halving_weights_gives_a_comb() {
    let table = table_of(&vec![def("A", 1), def("B", 2), def("C", 3), def("D", 4)]);
    assert_eq!(code(&table, "A"), vec![1u8]);
    assert_eq!(code(&table, "B"), vec![0u8, 1]);
    assert_eq!(code(&table, "C"), vec![0u8, 0, 1]);
    assert_eq!(code(&table, "D"), vec![0u8, 0, 0]);
}

#[test]
fn zero_length_is_invalid() {
    let outcome = create_instruction_mapping(&vec![def("A", 1), def("B", 0)]);
    assert!(matches!(outcome, Err(HuffmanError::InvalidInput)));
}

#[test]
fn negative_length_is_invalid() {
    let outcome = create_instruction_mapping(&vec![def("A", -3)]);
    assert!(matches!(outcome, Err(HuffmanError::InvalidInput)));
}

#[test]
fn length_beyond_the_ceiling_is_invalid() {
    let outcome = create_instruction_mapping(&vec![def("A", 128), def("B", 1)]);
    assert!(matches!(outcome, Err(HuffmanError::InvalidInput)));
    let outcome = create_instruction_mapping(&vec![def("A", 127), def("B", 1)]);
    assert!(outcome.is_ok());
}

#[test]
fn empty_list_is_refused_as_empty() {
    let outcome = create_instruction_mapping(&Vec::new());
    assert!(matches!(outcome, Err(HuffmanError::EmptyInput)));
}

#[test]
fn codes_are_prefix_free() {
    let defs = vec![
        def("ADD", 3),
        def("SUB", 3),
        def("MUL", 5),
        def("DIV", 7),
        def("JMP", 2),
        def("NOP", 1),
        def("HLT", 9),
        def("MOV", 2),
        def("CMP", 4),
    ];
    let table = table_of(&defs);
    for a in &defs {
        for b in &defs {
            if a.name != b.name {
                assert!(!is_prefix(&code(&table, &a.name), &code(&table, &b.name)));
            }
        }
    }
}

#[test]
fn table_has_exactly_the_input_names() {
    let defs = vec![def("ADD", 3), def("SUB", 3), def("MUL", 5), def("JMP", 2), def("NOP", 1)];
    let table = table_of(&defs);
    assert_eq!(table.len(), defs.len());
    for d in &defs {
        assert!(table.get(&d.name).is_some());
    }
    assert!(table.get(&"XOR".to_string()).is_none());
    let mut names: Vec<String> = table.entries().iter().map(|e| e.0.clone()).collect();
    names.sort();
    assert_eq!(names, vec!["ADD", "JMP", "MUL", "NOP", "SUB"]);
}

#[test]
fn two_runs_give_the_same_codewords() {
    let defs = vec![def("A", 2), def("B", 2), def("C", 2), def("D", 2), def("E", 2), def("F", 4)];
    let first = table_of(&defs);
    let second = table_of(&defs);
    for d in &defs {
        assert_eq!(code(&first, &d.name), code(&second, &d.name));
    }
    assert_eq!(first.entries(), second.entries());
}

#[test]
fn codewords_hold_bits_only() {
    let defs = vec![def("A", 2), def("B", 6), def("C", 2), def("D", 1), def("E", 30)];
    let table = table_of(&defs);
    for entry in table.entries() {
        assert!(entry.1.iter().all(|bit| *bit <= 1));
    }
}

#[test]
fn many_heavy_symbols_do_not_overflow() {
    let mut defs = Vec::new();
    for i in 0..64 {
        defs.push(def(&format!("I{}", i), 1));
    }
    let table = table_of(&defs);
    assert_eq!(table.len(), 64);
    for d in &defs {
        assert_eq!(code(&table, &d.name).len(), 6);
    }
}

#[test]
fn a_repeated_name_keeps_the_codeword_written_last() {
    let table = table_of(&vec![def("A", 1), def("B", 2), def("A", 2)]);
    assert_eq!(table.len(), 2);
    assert_eq!(code(&table, "A"), vec![1u8, 1]);
    assert_eq!(code(&table, "B"), vec![1u8, 0]);
}

#[test]
fn entries_stand_in_the_order_of_the_walk() {
    let table = table_of(&vec![def("Z", 2), def("X", 1), def("Y", 2)]);
    let names: Vec<String> = table.entries().iter().map(|e| e.0.clone()).collect();
    assert_eq!(names, vec!["X", "Z", "Y"]);
    let codes: Vec<Vec<u8>> = table.entries().iter().map(|e| e.1.clone()).collect();
    assert_eq!(codes, vec![vec![0u8], vec![1, 0], vec![1, 1]]);
}

#[test]
fn codeword_may_be_longer_than_declared() {
    let defs = vec![def("A", 1), def("B", 1), def("C", 1), def("D", 3)];
    let table = table_of(&defs);
    assert_eq!(code(&table, "D").len(), 2);
    assert_eq!(code(&table, "A").len(), 2);
    assert_eq!(code_within_limit(&table, &defs[0]), Some(false));
    assert_eq!(code_within_limit(&table, &defs[3]), Some(true));
    assert_eq!(code_within_limit(&table, &def("E", 5)), None);
    assert_eq!(code_within_limit(&table, &def("A", 2)), Some(true));
    assert_eq!(code_within_limit(&table, &def("A", -4)), Some(false));
}

#[test]
fn a_long_list_has_a_prefix_free_table() {
    let mut defs = Vec::new();
    for i in 0..600 {
        defs.push(def(&format!("OP{}", i), 1 + (i * 7 % 40)));
    }
    let table = table_of(&defs);
    assert_eq!(table.len(), 600);
    let codes: Vec<Vec<u8>> = defs.iter().map(|d| code(&table, &d.name)).collect();
    for i in 0..codes.len() {
        for j in 0..codes.len() {
            if i != j {
                assert!(!is_prefix(&codes[i], &codes[j]));
            }
        }
    }
    let again = table_of(&defs);
    assert_eq!(table.entries(), again.entries());
}

#[test]
fn lengths_at_both_ends_of_the_range() {
    let table = table_of(&vec![def("A", 127), def("B", 127), def("C", 1), def("D", 64)]);
    assert_eq!(code(&table, "A"), vec![0u8, 0, 0]);
    assert_eq!(code(&table, "B"), vec![0u8, 0, 1]);
    assert_eq!(code(&table, "D"), vec![0u8, 1]);
    assert_eq!(code(&table, "C"), vec![1u8]);
}
