use instruction_huffman::builder::InstructionDef;
use instruction_huffman::mapping::create_instruction_mapping;

fn def(name: &str, max_len: i32) -> InstructionDef {
    InstructionDef { name: name.to_string(), max_len }
}

/// The weight `1 / 2^max_len` in units of `2^-20`.
fn units(max_len: i32) -> u64 {
    1u64 << (20 - max_len)
}

/// The least cost of any tree over the weights, found by trying every merge.
fn least_cost(weights: &Vec<u64>) -> u64 {
    if weights.len() <= 1 {
        return 0;
    }
    let mut best = u64::MAX;
    for i in 0..weights.len() {
        for j in (i + 1)..weights.len() {
            let mut rest: Vec<u64> = Vec::new();
            for k in 0..weights.len() {
                if k != i && k != j {
                    rest.push(weights[k]);
                }
            }
            let merged = weights[i] + weights[j];
            rest.push(merged);
            let cost = merged + least_cost(&rest);
            if cost < best {
                best = cost;
            }
        }
    }
    best
}

fn table_cost(lengths: &[i32]) -> u64 {
    let mut defs = Vec::new();
    for (i, max_len) in lengths.iter().enumerate() {
        defs.push(def(&format!("I{}", i), *max_len));
    }
    let table = match create_instruction_mapping(&defs) {
        Ok(table) => table,
        Err(_) => panic!("the list has a table"),
    };
    let mut cost = 0;
    for d in &defs {
        let code = table.get(&d.name).expect("the name has a codeword");
        cost += units(d.max_len) * code.len() as u64;
    }
    cost
}

fn weights_of(lengths: &[i32]) -> Vec<u64> {
    lengths.iter().map(|max_len| units(*max_len)).collect()
}

#[test]
fn cost_of_three_symbols() {
    assert_eq!(table_cost(&[1, 2, 2]), units(1) + 2 * units(2) + 2 * units(2));
    assert_eq!(table_cost(&[1, 2, 2]), least_cost(&weights_of(&[1, 2, 2])));
}

#[test]
fn cost_of_a_single_symbol_is_nothing() {
    assert_eq!(table_cost(&[7]), 0);
}

#[test]
fn no_tree_costs_less_than_the_table() {
    let lists: [&[i32]; 8] = [
        &[1, 1],
        &[3, 3, 3, 3],
        &[1, 2, 3, 4],
        &[4, 3, 2, 1, 1],
        &[2, 2, 2, 5, 5, 1],
        &[6, 1, 6, 2, 6, 3],
        &[1, 1, 1, 1, 1],
        &[5, 4, 4, 3, 3, 3, 2],
    ];
    for lengths in lists {
        assert_eq!(table_cost(lengths), least_cost(&weights_of(lengths)));
    }
}
