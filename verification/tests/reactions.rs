use intcomputer::reactions::{produce, read_reaction, read_reactions, Reactions};
use std::collections::HashMap;

fn book(lines: &[&str]) -> Reactions {
    let mut reactions = Reactions::new();
    for line in lines {
        read_reaction(&line.replace(",", ""), &mut reactions);
    }
    reactions
}

#[test]
fn ore_is_there_for_the_taking() {
    let reactions = Reactions::new();
    let mut inventory = HashMap::new();
    assert_eq!(produce("ORE", 17, &reactions, &mut inventory), 17);
    assert!(inventory.is_empty());
    assert_eq!(reactions.names, vec![vec!['O', 'R', 'E']]);
}

#[test]
fn reactions_are_entered_by_name() {
    let reactions = book(&["10 ORE => 10 A", "7 A, 1 B => 1 C", "2 C 3 A => 4 B"]);
    let names: Vec<String> = reactions.names.iter().map(|n| n.iter().collect()).collect();
    assert_eq!(names, vec!["ORE", "A", "C", "B"]);
    assert_eq!(reactions.graph.edge_weight(0, 1), Some(&(10, 10)));
    assert_eq!(reactions.graph.edge_weight(1, 2), Some(&(7, 1)));
    assert_eq!(reactions.graph.edge_weight(3, 2), Some(&(1, 1)));
    assert_eq!(reactions.graph.edge_weight(2, 3), Some(&(2, 4)));
    assert_eq!(reactions.graph.edge_weight(1, 3), Some(&(3, 4)));
    assert_eq!(reactions.graph.edge_weight(1, 0), None);
    assert_eq!(reactions.graph.edge_count(), 5);
    assert_eq!(reactions.graph.node_count(), 4);
}

#[test]
fn surplus_goes_to_the_inventory() {
    let reactions = book(&["10 ORE => 10 A", "1 ORE => 1 B", "7 A, 1 B => 1 C"]);
    let mut inventory = HashMap::new();
    assert_eq!(produce("A", 7, &reactions, &mut inventory), 10);
    assert_eq!(inventory.get(&1), Some(&3));
    assert_eq!(produce("A", 3, &reactions, &mut inventory), 0);
    assert!(inventory.is_empty());
    assert_eq!(produce("A", 21, &reactions, &mut inventory), 30);
    assert_eq!(inventory.get(&1), Some(&9));
    assert_eq!(produce("C", 2, &reactions, &mut inventory), 12);
    assert_eq!(inventory.get(&1), Some(&5));
    assert_eq!(produce("A", 0, &reactions, &mut inventory), 0);
    assert_eq!(inventory.get(&1), Some(&5));
}

#[test]
fn first_example_costs_31_ore() {
    let reactions = book(&[
        "10 ORE => 10 A",
        "1 ORE => 1 B",
        "7 A, 1 B => 1 C",
        "7 A, 1 C => 1 D",
        "7 A, 1 D => 1 E",
        "7 A, 1 E => 1 FUEL",
    ]);
    let mut inventory = HashMap::new();
    assert_eq!(produce("FUEL", 1, &reactions, &mut inventory), 31);
    assert_eq!(inventory.len(), 1);
    assert_eq!(inventory.get(&1), Some(&2));
}

#[test]
fn second_example_costs_165_ore() {
    let reactions = book(&[
        "9 ORE => 2 A",
        "8 ORE => 3 B",
        "7 ORE => 5 C",
        "3 A, 4 B => 1 AB",
        "5 B, 7 C => 1 BC",
        "4 C, 1 A => 1 CA",
        "2 AB, 3 BC, 4 CA => 1 FUEL",
    ]);
    let mut inventory = HashMap::new();
    assert_eq!(produce("FUEL", 1, &reactions, &mut inventory), 165);
}

#[test]
fn a_reaction_read_twice_changes_nothing() {
    let once = book(&["2 ORE => 3 A", "1 A => 1 FUEL"]);
    let twice = book(&["2 ORE => 3 A", "1 A => 1 FUEL", "2 ORE => 3 A"]);
    assert_eq!(once.names, twice.names);
    assert_eq!(once.graph.edge_count(), twice.graph.edge_count());
    let mut inventory = HashMap::new();
    assert_eq!(produce("FUEL", 4, &twice, &mut inventory), 4);
    assert_eq!(inventory.get(&1), Some(&2));
}

#[test]
fn a_list_of_reactions_is_read_line_by_line() {
    let reactions = read_reactions(
        "157 ORE => 5 NZVS\n165 ORE => 6 DCFZ\n44 XJWVT, 5 KHKGT, 1 QDVJ, 29 NZVS, 9 GPVTF, 48 HKGWZ => 1 FUEL\n12 HKGWZ, 1 GPVTF, 8 PSHF => 9 QDVJ\n179 ORE => 7 PSHF\n177 ORE => 5 HKGWZ\n7 DCFZ, 7 PSHF => 2 XJWVT\n165 ORE => 2 GPVTF\n3 DCFZ, 7 NZVS, 5 HKGWZ, 10 PSHF => 8 KHKGT\n",
    );
    let mut inventory = HashMap::new();
    assert_eq!(produce("FUEL", 1, &reactions, &mut inventory), 13312);
    let empty = read_reactions("");
    assert_eq!(empty.names.len(), 1);
    assert_eq!(empty.graph.edge_count(), 0);
}
