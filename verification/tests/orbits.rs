use intcomputer::orbits::{count_orbits, find_in_tree, read_solar_system, transfers};

const INPUT: &str = "COM)B
        B)C
        C)D
        D)E
        E)F
        B)G
        G)H
        D)I
        E)J
        J)K
        K)L";

#[test]
fn test_read() {
    let lines: Vec<&str> = INPUT.lines().collect();
    let map = read_solar_system(lines);
    assert_eq!(map.get("COM"), Some(vec!["B".to_string()]));
    assert_eq!(map.get("B"), Some(vec!["C".to_string(), "G".to_string()]));
    assert!(!map.contains_key("H"));
}

#[test]
fn test_count() {
    let lines: Vec<&str> = INPUT.lines().collect();
    let map = read_solar_system(lines);
    assert_eq!(count_orbits(&map, "COM", 0), 42);
    assert_eq!(count_orbits(&map, "D", 3), 34);
    assert_eq!(count_orbits(&map, "L", 7), 7);
}

#[test]
fn test_find() {
    let lines: Vec<&str> = INPUT.lines().collect();
    let map = read_solar_system(lines);
    assert_eq!(
        find_in_tree(&map, "COM", "L"),
        vec!["COM", "B", "C", "D", "E", "J", "K"]
    );
}

#[test]
fn lookups_tell_centers_from_leaves() {
    let map = read_solar_system(vec!["A)B", " A)C ", "B)D)E", "A)B"]);
    assert!(map.contains_key("A"));
    assert!(map.contains_key("B"));
    assert!(!map.contains_key("C"));
    assert!(!map.contains_key("D"));
    assert!(!map.contains_key(""));
    assert_eq!(
        map.get("A"),
        Some(vec!["B".to_string(), "C".to_string(), "B".to_string()])
    );
    assert_eq!(map.get("B"), Some(vec!["D".to_string()]));
    assert_eq!(map.get("C"), None);
    let empty = read_solar_system(vec![]);
    assert!(!empty.contains_key("COM"));
    assert_eq!(count_orbits(&empty, "COM", 5), 5);
    assert_eq!(find_in_tree(&empty, "COM", "YOU"), Vec::<String>::new());
}

#[test]
fn search_that_finds_nothing_is_empty() {
    let lines: Vec<&str> = INPUT.lines().collect();
    let map = read_solar_system(lines);
    assert_eq!(find_in_tree(&map, "COM", "XYZ"), Vec::<String>::new());
    assert_eq!(find_in_tree(&map, "L", "COM"), Vec::<String>::new());
    assert_eq!(find_in_tree(&map, "E", "F"), vec!["E"]);
    assert_eq!(find_in_tree(&map, "D", "K"), vec!["D", "E", "J"]);
}

#[test]
fn transfers_between_two_bodies() {
    let mut lines: Vec<&str> = INPUT.lines().collect();
    lines.push("K)YOU");
    lines.push("I)SAN");
    let map = read_solar_system(lines);
    let you = find_in_tree(&map, "COM", "YOU");
    let san = find_in_tree(&map, "COM", "SAN");
    assert_eq!(you, vec!["COM", "B", "C", "D", "E", "J", "K"]);
    assert_eq!(san, vec!["COM", "B", "C", "D", "I"]);
    assert_eq!(transfers(&san, &you), 4);
    assert_eq!(transfers(&you, &san), 4);
    assert_eq!(transfers(&you, &you), 0);
    assert_eq!(transfers(&vec![], &you), 7);
}
